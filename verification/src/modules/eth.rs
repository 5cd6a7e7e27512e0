//! Ethernet encapsulation and decapsulation.

use vstd::prelude::*;

use crate::codec::{spec_eth_bytes, write_eth_header, ETH_HEADER_LEN};
use crate::modules::{Context, ModuleError};
use crate::packet::{
    pool_mutated_at, spec_deallocated, Header, Packet, PacketPool,
};
use crate::protocol::{EthHeader, EtherType, MacAddr};

verus! {

/// The 14 bytes the transmit path stamps: a fixed locally-administered
/// destination, a source to be filled in by the I/O node, and EtherType
/// IPv4.
pub open spec fn spec_eth_tx_bytes() -> Seq<u8> {
    seq![2u8, 0u8, 0u8, 0u8, 0u8, 0u8, 0u8, 0u8, 0u8, 0u8, 0u8, 0u8, 0x08u8, 0x00u8]
}

/// How the Ethernet encoder transforms a packet: the cursor backs up over a
/// new layer-2 header whose bytes are [`spec_eth_tx_bytes`]; everything else
/// stays.
pub open spec fn eth_tx_applied(p0: Packet, p1: Packet) -> bool {
    &&& p1.offset == p0.offset - ETH_HEADER_LEN
    &&& p1.len == p0.len
    &&& p1.l2_header == (Header { length: ETH_HEADER_LEN as u16, offset: p1.offset })
    &&& p1.l3_header == p0.l3_header
    &&& p1.l4_header == p0.l4_header
    &&& p1.next == p0.next
    &&& p1.nic == p0.nic
    &&& p1.dst_addr == p0.dst_addr
    &&& p1.refcnt == p0.refcnt
    &&& p1.buf_ty == p0.buf_ty
    &&& p1.buf@.len() == p0.buf@.len()
    &&& p1.buf@.subrange(p1.offset as int, p1.offset + ETH_HEADER_LEN) == spec_eth_tx_bytes()
    &&& forall|i: int|
        0 <= i < p0.buf@.len() && !(p1.offset <= i < p1.offset + ETH_HEADER_LEN)
            ==> p1.buf@[i] == p0.buf@[i]
}

/// Stamps the layer-2 header on the send path.
pub struct EthSender {}

impl EthSender {
    pub fn new() -> (r: Self) {
        EthSender {}
    }

    /// Encapsulates: succeeds exactly when the packet has 14 bytes of
    /// headroom, else frees the packet and reports it dropped.
    pub fn process(&mut self, ctx: &Context, pool: &mut PacketPool, slot: usize) -> (r: Result<
        (),
        ModuleError,
    >)
        requires
            old(pool).wf(),
            old(pool).is_live(slot),
            old(pool).spec_packets()[slot as int].wf(),
        ensures
            r is Ok <==> old(pool).spec_packets()[slot as int].offset >= ETH_HEADER_LEN,
            match r {
                Ok(_) => {
                    &&& pool_mutated_at(*old(pool), *final(pool), slot)
                    &&& eth_tx_applied(
                        old(pool).spec_packets()[slot as int],
                        final(pool).spec_packets()[slot as int],
                    )
                },
                Err(e) => e == ModuleError::Dropped && spec_deallocated(
                    *old(pool),
                    *final(pool),
                    slot,
                ),
            },
    {
        let headroom = pool.packet(slot).offset;
        if headroom < ETH_HEADER_LEN as u16 {
            pool.deallocate(slot);
            return Err(ModuleError::Dropped);
        }
        let h = EthHeader {
            dst: MacAddr::from_bytes([2u8, 0u8, 0u8, 0u8, 0u8, 0u8]),
            src: MacAddr::new(),
            ether_ty: EtherType::Ipv4,
        };
        let p = pool.packet_mut(slot);
        let off = p.offset - ETH_HEADER_LEN as u16;
        p.offset = off;
        p.l2_header = Header { length: ETH_HEADER_LEN as u16, offset: off };
        write_eth_header(&mut p.buf, off as usize, &h);
        proof {
            assert(spec_eth_bytes(h) =~= spec_eth_tx_bytes());
        }
        Ok(())
    }
}

/// Records the layer-2 header on the receive path and steps past it.
pub struct EthReceiver {}

impl EthReceiver {
    pub fn new() -> (r: Self) {
        EthReceiver {}
    }

    /// Decapsulates: succeeds exactly when at least 14 payload bytes are
    /// present, recording where the header sat and advancing the cursor;
    /// shorter packets are freed and reported dropped.
    pub fn process(&mut self, ctx: &Context, pool: &mut PacketPool, slot: usize) -> (r: Result<
        (),
        ModuleError,
    >)
        requires
            old(pool).wf(),
            old(pool).is_live(slot),
            old(pool).spec_packets()[slot as int].wf(),
        ensures
            r is Ok <==> old(pool).spec_packets()[slot as int].len - old(pool).spec_packets()[slot as int].offset >= ETH_HEADER_LEN,
            match r {
                Ok(_) => {
                    &&& pool_mutated_at(*old(pool), *final(pool), slot)
                    &&& {
                        let p0 = old(pool).spec_packets()[slot as int];
                        let p1 = final(pool).spec_packets()[slot as int];
                        &&& p1.offset == p0.offset + ETH_HEADER_LEN
                        &&& p1.l2_header == (Header {
                            length: ETH_HEADER_LEN as u16,
                            offset: p0.offset,
                        })
                        &&& p1.len == p0.len
                        &&& p1.buf == p0.buf
                        &&& p1.l3_header == p0.l3_header && p1.l4_header == p0.l4_header
                        &&& p1.next == p0.next && p1.nic == p0.nic && p1.refcnt == p0.refcnt
                        &&& p1.dst_addr == p0.dst_addr
                        &&& p1.buf_ty == p0.buf_ty
                    }
                },
                Err(e) => e == ModuleError::Dropped && spec_deallocated(
                    *old(pool),
                    *final(pool),
                    slot,
                ),
            },
    {
        let avail = pool.packet(slot).len - pool.packet(slot).offset;
        if avail < ETH_HEADER_LEN as u16 {
            pool.deallocate(slot);
            return Err(ModuleError::Dropped);
        }
        let p = pool.packet_mut(slot);
        p.l2_header = Header { length: ETH_HEADER_LEN as u16, offset: p.offset };
        p.offset = p.offset + ETH_HEADER_LEN as u16;
        Ok(())
    }
}

} // verus!
