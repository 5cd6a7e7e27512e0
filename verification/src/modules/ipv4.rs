//! IPv4 header build with route selection, and IPv4 receive validation.

use vstd::prelude::*;

use crate::codec::{
    read_ipv4_header, spec_ipv4_bytes, spec_parse_ipv4, write_ipv4_header, IPV4_HEADER_LEN,
};
use crate::modules::{Context, ModuleError};
use crate::packet::{pool_mutated_at, spec_deallocated, Header, Packet, PacketPool};
use crate::protocol::{select_route, spec_swap16, swap16, Ipv4Header, Ipv4ProtoType, Route};

verus! {

/// Source address of the transmit path (192.168.10.1 in network order,
/// loaded as a host `u32`).
pub const IPV4_TX_SRC: u32 = 0x010AA8C0;

/// Default destination a user source binds to its packets (192.168.10.2).
pub const IPV4_TX_DST: u32 = 0x020AA8C0;

/// Whether `nic` is what longest-prefix routing picks for `dst` over
/// `routes`: the NIC of the first best-prefix match, or 0 with no match.
pub open spec fn route_choice_ok(routes: Seq<Route>, dst: u32, nic: u16) -> bool {
    if forall|j: int| 0 <= j < routes.len() ==> !routes[j].spec_matches(dst) {
        nic == 0
    } else {
        exists|i: int|
            {
                &&& 0 <= i < routes.len()
                &&& (#[trigger] routes[i]).spec_matches(dst)
                &&& routes[i].nic == nic
                &&& forall|j: int|
                    0 <= j < routes.len() && routes[j].spec_matches(dst) ==> routes[j].cidr
                        <= routes[i].cidr
                &&& forall|j: int|
                    0 <= j < i && routes[j].spec_matches(dst) ==> routes[j].cidr < routes[i].cidr
            }
    }
}

/// The IPv4 header the sender writes: version 4, no options, TTL 255, UDP,
/// checksum left for offload, the fixed source and the packet's bound
/// destination.
pub open spec fn spec_ipv4_tx_header(datagram_len: u16, dst: u32) -> Ipv4Header {
    Ipv4Header {
        version_ihl: 0x45,
        tos: 0,
        tot_len: spec_swap16(datagram_len),
        id: 0,
        frag_off: 0,
        ttl: 255,
        protocol: Ipv4ProtoType::UDP,
        cksum: 0,
        src: IPV4_TX_SRC,
        dst,
    }
}

/// Exactly when the receive validator accepts a packet: a whole header is
/// present and parses, with at least five header words, a live TTL, a total
/// length that covers the header and stays inside the buffer and the 16-bit
/// cursor range.
pub open spec fn ipv4_rx_ok(p: Packet) -> bool {
    &&& p.len - p.offset >= IPV4_HEADER_LEN
    &&& (spec_parse_ipv4(p.buf@.subrange(p.offset as int, p.offset + IPV4_HEADER_LEN))
        matches Some(h) && {
        &&& h.version_ihl % 16 >= 5
        &&& h.ttl != 0
        &&& spec_swap16(h.tot_len) >= 4 * (h.version_ihl % 16)
        &&& p.offset + spec_swap16(h.tot_len) <= p.buf@.len()
        &&& p.offset + spec_swap16(h.tot_len) <= 65535
    })
}

/// Builds the IPv4 header and picks the outgoing NIC.
pub struct Ipv4Sender {
    pub route_table: Vec<Route>,
}

impl Ipv4Sender {
    pub open spec fn inv(&self) -> bool {
        forall|i: int| 0 <= i < self.route_table@.len() ==> (#[trigger] self.route_table@[i]).wf()
    }

    pub fn new() -> (r: Self)
        ensures
            r.route_table@.len() == 0,
            r.inv(),
    {
        Ipv4Sender { route_table: Vec::new() }
    }

    /// Copies the stack's route table; routing is read-only afterwards.
    pub fn init(&mut self, routes: &Vec<Route>) -> (r: Result<(), ModuleError>)
        requires
            forall|i: int| 0 <= i < routes@.len() ==> (#[trigger] routes@[i]).wf(),
        ensures
            final(self).route_table@ == routes@,
            final(self).inv(),
            r is Ok,
    {
        let mut table: Vec<Route> = Vec::new();
        let mut i: usize = 0;
        while i < routes.len()
            invariant
                0 <= i <= routes@.len(),
                table@ == routes@.take(i as int),
            decreases routes@.len() - i,
        {
            table.push(routes[i]);
            proof {
                assert(table@ =~= routes@.take(i + 1));
            }
            i = i + 1;
        }
        proof {
            assert(routes@.take(routes@.len() as int) =~= routes@);
        }
        self.route_table = table;
        Ok(())
    }

    /// Prepends the IPv4 header and routes the packet: succeeds exactly
    /// when the packet has 20 bytes of headroom, else frees it. The NIC is
    /// the longest-prefix match for the packet's bound destination
    /// (`dst_addr`), 0 when no route fits.
    pub fn process(&mut self, ctx: &Context, pool: &mut PacketPool, slot: usize) -> (r: Result<
        (),
        ModuleError,
    >)
        requires
            old(self).inv(),
            old(pool).wf(),
            old(pool).is_live(slot),
            old(pool).spec_packets()[slot as int].wf(),
        ensures
            final(self).route_table == old(self).route_table,
            final(self).inv(),
            r is Ok <==> old(pool).spec_packets()[slot as int].offset >= IPV4_HEADER_LEN,
            match r {
                Ok(_) => {
                    &&& pool_mutated_at(*old(pool), *final(pool), slot)
                    &&& {
                        let p0 = old(pool).spec_packets()[slot as int];
                        let p1 = final(pool).spec_packets()[slot as int];
                        &&& p1.offset == p0.offset - IPV4_HEADER_LEN
                        &&& p1.len == p0.len
                        &&& p1.l3_header == (Header {
                            length: IPV4_HEADER_LEN as u16,
                            offset: p1.offset,
                        })
                        &&& route_choice_ok(old(self).route_table@, p0.dst_addr, p1.nic)
                        &&& p1.l2_header == p0.l2_header && p1.l4_header == p0.l4_header
                        &&& p1.next == p0.next && p1.refcnt == p0.refcnt
                        &&& p1.dst_addr == p0.dst_addr
                        &&& p1.buf_ty == p0.buf_ty
                        &&& p1.buf@.len() == p0.buf@.len()
                        &&& p1.buf@.subrange(p1.offset as int, p1.offset + IPV4_HEADER_LEN)
                            == spec_ipv4_bytes(spec_ipv4_tx_header(
                            (p0.len - p0.offset + IPV4_HEADER_LEN) as u16,
                            p0.dst_addr,
                        ))
                        &&& forall|i: int|
                            0 <= i < p0.buf@.len() && !(p1.offset <= i < p1.offset
                                + IPV4_HEADER_LEN) ==> p1.buf@[i] == p0.buf@[i]
                    }
                },
                Err(e) => e == ModuleError::Dropped && spec_deallocated(
                    *old(pool),
                    *final(pool),
                    slot,
                ),
            },
    {
        let headroom = pool.packet(slot).offset;
        if headroom < IPV4_HEADER_LEN as u16 {
            pool.deallocate(slot);
            return Err(ModuleError::Dropped);
        }
        let dst = pool.packet(slot).dst_addr;
        let nic = match select_route(&self.route_table, dst) {
            Some(i) => self.route_table[i].nic,
            None => 0,
        };
        let p = pool.packet_mut(slot);
        let off = p.offset - IPV4_HEADER_LEN as u16;
        let datagram_len = p.len - off;
        p.offset = off;
        p.nic = nic;
        p.l3_header = Header { length: IPV4_HEADER_LEN as u16, offset: off };
        let h = Ipv4Header {
            version_ihl: 0x45,
            tos: 0,
            tot_len: swap16(datagram_len),
            id: 0,
            frag_off: 0,
            ttl: 255,
            protocol: Ipv4ProtoType::UDP,
            cksum: 0,
            src: IPV4_TX_SRC,
            dst,
        };
        write_ipv4_header(&mut p.buf, off as usize, &h);
        Ok(())
    }
}

/// Validates and strips the IPv4 header on the receive path.
pub struct Ipv4Receiver {}

impl Ipv4Receiver {
    pub fn new() -> (r: Self) {
        Ipv4Receiver {}
    }

    /// Parses the IPv4 header at the cursor. A packet too short for a
    /// header, an unknown protocol number, a header length under five
    /// words, a dead TTL, or cursors the recorded total length would push
    /// past the buffer: each is freed and reported dropped. Otherwise the
    /// layer-3 placement is recorded, the packet length is set from the
    /// header's total length, and the cursor steps past the header.
    pub fn process(&mut self, ctx: &Context, pool: &mut PacketPool, slot: usize) -> (r: Result<
        (),
        ModuleError,
    >)
        requires
            old(pool).wf(),
            old(pool).is_live(slot),
            old(pool).spec_packets()[slot as int].wf(),
        ensures
            r is Ok <==> ipv4_rx_ok(old(pool).spec_packets()[slot as int]),
            match r {
                Ok(_) => {
                    &&& pool_mutated_at(*old(pool), *final(pool), slot)
                    &&& {
                        let p0 = old(pool).spec_packets()[slot as int];
                        let p1 = final(pool).spec_packets()[slot as int];
                        let parsed = spec_parse_ipv4(
                            p0.buf@.subrange(p0.offset as int, p0.offset + IPV4_HEADER_LEN),
                        );
                        &&& parsed matches Some(h) && {
                            let hdr_len = (4 * (h.version_ihl % 16)) as u16;
                            &&& p1.l3_header == (Header { length: hdr_len, offset: p0.offset })
                            &&& p1.len == p0.offset + spec_swap16(h.tot_len)
                            &&& p1.offset == p0.offset + hdr_len
                            &&& p1.wf()
                        }
                        &&& p1.buf == p0.buf
                        &&& p1.l2_header == p0.l2_header && p1.l4_header == p0.l4_header
                        &&& p1.next == p0.next && p1.nic == p0.nic && p1.refcnt == p0.refcnt
                        &&& p1.dst_addr == p0.dst_addr
                        &&& p1.buf_ty == p0.buf_ty
                    }
                },
                Err(e) => e == ModuleError::Dropped && spec_deallocated(
                    *old(pool),
                    *final(pool),
                    slot,
                ),
            },
    {
        let p0 = pool.packet(slot);
        let avail = p0.len - p0.offset;
        if avail < IPV4_HEADER_LEN as u16 {
            pool.deallocate(slot);
            return Err(ModuleError::Dropped);
        }
        let off = p0.offset;
        let h = match read_ipv4_header(&p0.buf, off as usize) {
            Some(h) => h,
            None => {
                pool.deallocate(slot);
                return Err(ModuleError::Dropped);
            },
        };
        let ihl = h.ihl();
        let tot_len = swap16(h.tot_len);
        let hdr_len = 4 * (ihl as u16);
        if ihl < 5 || h.ttl == 0 {
            pool.deallocate(slot);
            return Err(ModuleError::Dropped);
        }
        // the recorded total length and the header must stay inside the buffer
        if (off as usize) + (tot_len as usize) > pool.packet(slot).buf.len() || tot_len < hdr_len
            || (off as u32) + (tot_len as u32) > 65535 {
            pool.deallocate(slot);
            return Err(ModuleError::Dropped);
        }
        let p = pool.packet_mut(slot);
        p.l3_header = Header { length: hdr_len, offset: off };
        p.len = off + tot_len;
        p.offset = off + hdr_len;
        Ok(())
    }
}

} // verus!
