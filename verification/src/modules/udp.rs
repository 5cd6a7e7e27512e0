//! UDP header build and strip.

use vstd::prelude::*;

use crate::codec::{spec_udp_bytes, write_udp_header, UDP_HEADER_LEN};
use crate::modules::{Context, ModuleError};
use crate::packet::{pool_mutated_at, spec_deallocated, Header, Packet, PacketPool};
use crate::protocol::{spec_swap16, swap16, UdpHeader};

verus! {

/// Source and destination ports the transmit path uses.
pub const UDP_TX_SRC_PORT: u16 = 80;

pub const UDP_TX_DST_PORT: u16 = 81;

/// The UDP header the sender writes over a payload of `paylen` bytes (the
/// length field counts the header too); the checksum is left for offload.
pub open spec fn spec_udp_tx_header(paylen: u16) -> UdpHeader {
    UdpHeader {
        src: spec_swap16(UDP_TX_SRC_PORT),
        dst: spec_swap16(UDP_TX_DST_PORT),
        len: spec_swap16((paylen + UDP_HEADER_LEN) as u16),
        chksum: 0,
    }
}

/// Builds the UDP header on the send path.
pub struct UdpSender {}

impl UdpSender {
    pub fn new() -> (r: Self) {
        UdpSender {}
    }

    /// Prepends a UDP header: succeeds exactly when the packet has 8 bytes
    /// of headroom, else frees the packet and reports it dropped.
    pub fn process(&mut self, ctx: &Context, pool: &mut PacketPool, slot: usize) -> (r: Result<
        (),
        ModuleError,
    >)
        requires
            old(pool).wf(),
            old(pool).is_live(slot),
            old(pool).spec_packets()[slot as int].wf(),
        ensures
            r is Ok <==> old(pool).spec_packets()[slot as int].offset >= UDP_HEADER_LEN,
            match r {
                Ok(_) => {
                    &&& pool_mutated_at(*old(pool), *final(pool), slot)
                    &&& {
                        let p0 = old(pool).spec_packets()[slot as int];
                        let p1 = final(pool).spec_packets()[slot as int];
                        &&& p1.offset == p0.offset - UDP_HEADER_LEN
                        &&& p1.len == p0.len
                        &&& p1.l4_header == (Header {
                            length: UDP_HEADER_LEN as u16,
                            offset: p1.offset,
                        })
                        &&& p1.l2_header == p0.l2_header && p1.l3_header == p0.l3_header
                        &&& p1.next == p0.next && p1.nic == p0.nic && p1.refcnt == p0.refcnt
                        &&& p1.dst_addr == p0.dst_addr
                        &&& p1.buf_ty == p0.buf_ty
                        &&& p1.buf@.len() == p0.buf@.len()
                        &&& p1.buf@.subrange(p1.offset as int, p1.offset + UDP_HEADER_LEN)
                            == spec_udp_bytes(spec_udp_tx_header((p0.len - p0.offset) as u16))
                        &&& forall|i: int|
                            0 <= i < p0.buf@.len() && !(p1.offset <= i < p1.offset
                                + UDP_HEADER_LEN) ==> p1.buf@[i] == p0.buf@[i]
                    }
                },
                Err(e) => e == ModuleError::Dropped && spec_deallocated(
                    *old(pool),
                    *final(pool),
                    slot,
                ),
            },
    {
        let headroom = pool.packet(slot).offset;
        if headroom < UDP_HEADER_LEN as u16 {
            pool.deallocate(slot);
            return Err(ModuleError::Dropped);
        }
        let p = pool.packet_mut(slot);
        let off = p.offset - UDP_HEADER_LEN as u16;
        let datagram_len = p.len - off;
        p.offset = off;
        p.l4_header = Header { length: UDP_HEADER_LEN as u16, offset: off };
        let h = UdpHeader {
            src: swap16(UDP_TX_SRC_PORT),
            dst: swap16(UDP_TX_DST_PORT),
            len: swap16(datagram_len),
            chksum: 0,
        };
        write_udp_header(&mut p.buf, off as usize, &h);
        Ok(())
    }
}

/// Records and strips the UDP header on the receive path.
pub struct UdpReceiver {}

impl UdpReceiver {
    pub fn new() -> (r: Self) {
        UdpReceiver {}
    }

    /// Steps past the UDP header: succeeds exactly when at least 8 payload
    /// bytes are present; shorter packets are freed and reported dropped.
    pub fn process(&mut self, ctx: &Context, pool: &mut PacketPool, slot: usize) -> (r: Result<
        (),
        ModuleError,
    >)
        requires
            old(pool).wf(),
            old(pool).is_live(slot),
            old(pool).spec_packets()[slot as int].wf(),
        ensures
            r is Ok <==> old(pool).spec_packets()[slot as int].len - old(pool).spec_packets()[slot as int].offset >= UDP_HEADER_LEN,
            match r {
                Ok(_) => {
                    &&& pool_mutated_at(*old(pool), *final(pool), slot)
                    &&& {
                        let p0 = old(pool).spec_packets()[slot as int];
                        let p1 = final(pool).spec_packets()[slot as int];
                        &&& p1.offset == p0.offset + UDP_HEADER_LEN
                        &&& p1.l4_header == (Header {
                            length: UDP_HEADER_LEN as u16,
                            offset: p0.offset,
                        })
                        &&& p1.len == p0.len
                        &&& p1.buf == p0.buf
                        &&& p1.l2_header == p0.l2_header && p1.l3_header == p0.l3_header
                        &&& p1.next == p0.next && p1.nic == p0.nic && p1.refcnt == p0.refcnt
                        &&& p1.dst_addr == p0.dst_addr
                        &&& p1.buf_ty == p0.buf_ty
                    }
                },
                Err(e) => e == ModuleError::Dropped && spec_deallocated(
                    *old(pool),
                    *final(pool),
                    slot,
                ),
            },
    {
        let avail = pool.packet(slot).len - pool.packet(slot).offset;
        if avail < UDP_HEADER_LEN as u16 {
            pool.deallocate(slot);
            return Err(ModuleError::Dropped);
        }
        let p = pool.packet_mut(slot);
        p.l4_header = Header { length: UDP_HEADER_LEN as u16, offset: p.offset };
        p.offset = p.offset + UDP_HEADER_LEN as u16;
        Ok(())
    }
}

} // verus!
