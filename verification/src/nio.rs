//! The NIC adapter protocol and the I/O node that drives it.
//!
//! An adapter stages outgoing frames and flushes them as a burst: when the
//! staging array reaches [`crate::BURST_SIZE`] the pending descriptors are
//! transmitted and each one's free callback releases its packet reference.
//! The transmitted frames accumulate in `sent`, the model's wire. Received
//! frames wait in `rx_pending` until a poll turns them into packets whose
//! buffers the driver owns (`PktBufType::Mbuf`).

use vstd::multiset::Multiset;
use vstd::prelude::*;

use crate::codec::{read_ipv4_header, ipv4_phdr_cksum, spec_le2, IPV4_HEADER_LEN};
use crate::config::StackConfig;
use crate::modules::{Context, ModuleError};
use crate::packet::{
    lemma_drained_snoc, pool_frame, pool_mutated_at, spec_drained, Packet, PacketPool, PktBufType,
};
use crate::protocol::{spec_swap16, MacAddr};
use crate::BURST_SIZE;

verus! {

broadcast use vstd::multiset::group_multiset_axioms;

/// Which adapter a registry entry builds.
#[derive(Clone, Copy, Debug, PartialEq, Eq, Structural)]
pub enum AdapterKind {
    /// The burst-mode NIC adapter.
    Nic,
}

/// One staged or transmitted frame: the packet reference that backs it, the
/// frame bytes, and the offload hints handed to the hardware.
pub struct TxFrame {
    pub slot: usize,
    pub bytes: Vec<u8>,
    pub l2_len: u16,
    pub l3_len: u16,
    pub ip_cksum_offload: bool,
    pub udp_cksum_offload: bool,
}

/// One frame the driver holds for us: its buffer, where the payload starts,
/// how long it is, and the descriptor handle to release when the packet
/// dies.
pub struct RxFrame {
    pub bytes: Vec<u8>,
    pub data_off: u16,
    pub pkt_len: u16,
    pub handle: u64,
}

impl RxFrame {
    /// The payload must sit inside the buffer, and the buffer within the
    /// 16-bit cursor range.
    pub open spec fn wf(&self) -> bool {
        &&& self.data_off + self.pkt_len <= self.bytes@.len()
        &&& self.bytes@.len() <= u16::MAX
    }
}

/// The slots backing a frame list, in order.
pub open spec fn slots_of(frames: Seq<TxFrame>) -> Seq<usize> {
    frames.map_values(|f: TxFrame| f.slot)
}

/// A burst-mode NIC adapter bound to one (port, queue).
pub struct NicAdapter {
    pub nic: u16,
    pub port: u16,
    pub queue: u16,
    pub inited: bool,
    pub started: bool,
    pub tx_staged: Vec<TxFrame>,
    pub sent: Vec<TxFrame>,
    pub rx_pending: Vec<RxFrame>,
}

impl NicAdapter {
    /// Frames staged and not yet flushed, oldest first.
    pub open spec fn spec_staged(&self) -> Seq<TxFrame> {
        self.tx_staged@
    }

    /// The packet references the staging array holds.
    pub open spec fn staged_ms(&self) -> Multiset<usize> {
        slots_of(self.spec_staged()).to_multiset()
    }

    /// Frames transmitted so far, oldest first: the model's wire.
    pub open spec fn spec_sent(&self) -> Seq<TxFrame> {
        self.sent@
    }

    /// Frames the driver holds for reception, oldest first.
    pub open spec fn spec_rx_pending(&self) -> Seq<RxFrame> {
        self.rx_pending@
    }

    pub open spec fn spec_inited(&self) -> bool {
        self.inited
    }

    pub open spec fn spec_started(&self) -> bool {
        self.started
    }

    /// Pending receive frames are sound.
    pub open spec fn rx_ok(&self) -> bool {
        forall|i: int| 0 <= i < self.rx_pending@.len() ==> (#[trigger] self.rx_pending@[i]).wf()
    }

    /// The staging array always has room for one more frame, and pending
    /// receive frames are sound.
    pub open spec fn inv(&self) -> bool {
        &&& self.tx_staged@.len() < BURST_SIZE
        &&& self.rx_ok()
    }

    /// An adapter for interface `nic`, not yet configured.
    pub fn new(nic: u16) -> (r: Self)
        ensures
            r.inv(),
            r.nic == nic,
            !r.spec_inited(),
            !r.spec_started(),
            r.spec_staged().len() == 0,
            r.spec_sent().len() == 0,
            r.spec_rx_pending().len() == 0,
            r.staged_ms() == Multiset::<usize>::empty(),
    {
        let r = NicAdapter {
            nic,
            port: 0,
            queue: 0,
            inited: false,
            started: false,
            tx_staged: Vec::new(),
            sent: Vec::new(),
            rx_pending: Vec::new(),
        };
        proof {
            broadcast use vstd::seq_lib::group_to_multiset_ensures;

            assert(slots_of(r.tx_staged@) =~= Seq::<usize>::empty());
            assert(r.staged_ms() =~= Multiset::<usize>::empty());
        }
        r
    }

    /// Configures the (port, queue) pair and reports the port's hardware
    /// address; in this model the address is derived from the port and
    /// locally administered.
    pub fn init(&mut self, ctx: &Context, port: u16, num_queues: u16, queue: u16) -> (r: MacAddr)
        requires
            old(self).inv(),
        ensures
            final(self).inv(),
            final(self).spec_inited(),
            final(self).spec_started() == old(self).spec_started(),
            final(self).nic == old(self).nic,
            final(self).port == port,
            final(self).queue == queue,
            final(self).spec_staged() == old(self).spec_staged(),
            final(self).spec_sent() == old(self).spec_sent(),
            final(self).spec_rx_pending() == old(self).spec_rx_pending(),
            r.spec_bytes() == seq![
                2u8,
                1u8,
                (port as int % 256) as u8,
                (port as int / 256) as u8,
                0u8,
                0u8,
            ],
    {
        self.port = port;
        self.queue = queue;
        self.inited = true;
        let b2 = (port % 256) as u8;
        let b3 = (port / 256) as u8;
        MacAddr::from_bytes([2u8, 1u8, b2, b3, 0u8, 0u8])
    }

    /// Enables packet movement once every queue of the port is configured.
    pub fn start(&mut self)
        requires
            old(self).inv(),
            old(self).spec_inited(),
        ensures
            final(self).inv(),
            final(self).spec_started(),
            final(self).spec_inited(),
            final(self).nic == old(self).nic && final(self).port == old(self).port && final(self).queue == old(self).queue,
            final(self).spec_staged() == old(self).spec_staged(),
            final(self).spec_sent() == old(self).spec_sent(),
            final(self).spec_rx_pending() == old(self).spec_rx_pending(),
    {
        self.started = true;
    }

    /// Hands the driver a received frame; tests and the host shell feed the
    /// receive path through this.
    pub fn push_rx(&mut self, frame: RxFrame)
        requires
            old(self).inv(),
            frame.wf(),
        ensures
            final(self).inv(),
            final(self).spec_rx_pending() == old(self).spec_rx_pending().push(frame),
            final(self).spec_staged() == old(self).spec_staged(),
            final(self).spec_sent() == old(self).spec_sent(),
            final(self).spec_inited() == old(self).spec_inited(),
            final(self).spec_started() == old(self).spec_started(),
            final(self).nic == old(self).nic && final(self).port == old(self).port && final(self).queue == old(self).queue,
    {
        self.rx_pending.push(frame);
    }

    /// Frames staged right now (the staging index).
    pub fn staged_count(&self) -> (r: usize)
        ensures
            r == self.spec_staged().len(),
    {
        self.tx_staged.len()
    }

    /// The transmitted frames, for inspection.
    pub fn sent_frames(&self) -> (r: &Vec<TxFrame>)
        ensures
            r@ == self.spec_sent(),
    {
        &self.sent
    }

    /// Whether the packet at `slot` carries everything a send needs: a
    /// stamped Ethernet/IPv4/UDP header stack inside the buffer, with an
    /// IPv4 total length that covers the header.
    pub open spec fn spec_sendable(p: Packet) -> bool {
        spec_sendable_bytes(p.buf@, p)
    }

    /// Checks [`Self::spec_sendable`] at run time.
    pub fn check_sendable(p: &Packet) -> (r: bool)
        ensures
            r == Self::spec_sendable(*p),
    {
        let buf_len = p.buf.len();
        if !(p.offset <= p.len && p.len as usize <= buf_len) {
            return false;
        }
        if !(p.l2_header.length == 14 && p.l2_header.offset as usize + 14 <= buf_len) {
            return false;
        }
        if !(p.buf[p.l2_header.offset as usize + 12] == 0x08u8 && p.buf[p.l2_header.offset as usize
            + 13] == 0x00u8) {
            return false;
        }
        if !(p.l3_header.offset as usize + IPV4_HEADER_LEN <= buf_len) {
            return false;
        }
        if !(p.buf[p.l3_header.offset as usize + 9] == 0x11u8) {
            return false;
        }
        let hdr = read_ipv4_header(&p.buf, p.l3_header.offset as usize);
        let tot = match hdr {
            Some(h) => crate::protocol::swap16(h.tot_len),
            None => {
                proof {
                    assert(false);
                }
                0
            },
        };
        let ihl = p.buf[p.l3_header.offset as usize] % 16;
        if !((tot as usize) >= 4 * (ihl as usize)) {
            return false;
        }
        if !(p.l4_header.offset as usize + 8 <= buf_len) {
            return false;
        }
        true
    }
}

/// Sendability of a packet whose buffer holds the bytes `b` (the packet
/// value supplies the cursors): a well-placed 14-byte layer-2 header with
/// EtherType IPv4, a UDP IPv4 header whose total length covers it, and a
/// layer-4 header inside the buffer.
pub open spec fn spec_sendable_bytes(b: Seq<u8>, p: Packet) -> bool {
    &&& p.offset <= p.len && p.len as int <= b.len()
    &&& p.l2_header.length == 14
    &&& p.l2_header.offset + 14 <= b.len()
    &&& b[p.l2_header.offset + 12] == 0x08u8
    &&& b[p.l2_header.offset + 13] == 0x00u8
    &&& p.l3_header.offset + IPV4_HEADER_LEN <= b.len()
    &&& b[p.l3_header.offset + 9] == 0x11u8
    &&& (spec_swap16(
        crate::codec::spec_u16_of(b[p.l3_header.offset + 2], b[p.l3_header.offset + 3]),
    ) as int >= 4 * (b[p.l3_header.offset as int] as int % 16))
    &&& p.l4_header.offset + 8 <= b.len()
}


/// A frame as `send` stages it from the packet at `slot`.
pub open spec fn is_tx_frame_of(f: TxFrame, p: Packet, slot: usize) -> bool {
    &&& f.slot == slot
    &&& f.bytes@ == p.buf@.subrange(p.offset as int, p.len as int)
    &&& f.l2_len == p.l2_header.length
    &&& f.l3_len == p.l3_header.length
    &&& f.ip_cksum_offload
    &&& f.udp_cksum_offload
}

/// How `send` prepares the packet for checksum offload: the IPv4 checksum
/// field is zeroed and the UDP checksum field takes the pseudo-header sum;
/// nothing else changes.
pub open spec fn tx_prepared(p0: Packet, p1: Packet) -> bool {
    let l3 = p0.l3_header.offset as int;
    let l4 = p0.l4_header.offset as int;
    &&& (spec_parse_ipv4_at(p0) matches Some(h) && {
        let ck = crate::codec::spec_phdr_cksum(h);
        p1.buf@ == p0.buf@.update(l3 + 10, 0u8).update(l3 + 11, 0u8).update(
            l4 + 6,
            spec_le2(ck as u16)[0],
        ).update(l4 + 7, spec_le2(ck as u16)[1])
    })
    &&& p1.len == p0.len && p1.offset == p0.offset
    &&& p1.l2_header == p0.l2_header && p1.l3_header == p0.l3_header && p1.l4_header
        == p0.l4_header
    &&& p1.next == p0.next && p1.nic == p0.nic && p1.refcnt == p0.refcnt && p1.buf_ty == p0.buf_ty
    &&& p1.dst_addr == p0.dst_addr
}

/// The IPv4 header recorded at the packet's layer-3 offset.
pub open spec fn spec_parse_ipv4_at(p: Packet) -> Option<crate::protocol::Ipv4Header> {
    crate::codec::spec_parse_ipv4(
        p.buf@.subrange(
            p.l3_header.offset as int,
            p.l3_header.offset + IPV4_HEADER_LEN,
        ),
    )
}

fn copy_range(buf: &Vec<u8>, a: usize, b: usize) -> (r: Vec<u8>)
    requires
        a <= b,
        b <= buf.len(),
    ensures
        r@ == buf@.subrange(a as int, b as int),
{
    let mut v: Vec<u8> = Vec::new();
    let mut i: usize = a;
    while i < b
        invariant
            a <= i <= b,
            b <= buf@.len(),
            v@ =~= buf@.subrange(a as int, i as int),
        decreases b - i,
    {
        v.push(buf[i]);
        proof {
            assert(v@ =~= buf@.subrange(a as int, i + 1));
        }
        i = i + 1;
    }
    v
}

fn copy_bytes(buf: &Vec<u8>) -> (r: Vec<u8>)
    ensures
        r@ == buf@,
{
    let r = copy_range(buf, 0, buf.len());
    proof {
        assert(buf@.subrange(0, buf@.len() as int) =~= buf@);
    }
    r
}

impl NicAdapter {
    /// Stages the packet's frame for transmission, preparing its checksum
    /// fields for offload; a staging array that reaches the burst size is
    /// flushed at once, releasing every staged reference.
    pub fn send(&mut self, pool: &mut PacketPool, slot: usize) -> (w: Ghost<
        (TxFrame, PacketPool),
    >)
        requires
            old(self).inv(),
            old(self).spec_inited(),
            old(self).spec_started(),
            old(pool).wf(),
            old(pool).is_live(slot),
            Self::spec_sendable(old(pool).spec_packets()[slot as int]),
            forall|s: usize| old(self).staged_ms().count(s) > 0 ==> old(pool).is_live(s),
            forall|s: usize|
                old(pool).is_live(s) ==> old(pool).spec_packets()[s as int].refcnt >= old(self).staged_ms().count(s) + (if s == slot {
                    1int
                } else {
                    0int
                }),
        ensures
            final(self).inv(),
            final(self).spec_inited() && final(self).spec_started(),
            final(self).nic == old(self).nic && final(self).port == old(self).port && final(self).queue == old(self).queue,
            final(self).spec_rx_pending() == old(self).spec_rx_pending(),
            is_tx_frame_of(w@.0, w@.1.spec_packets()[slot as int], slot),
            pool_mutated_at(*old(pool), w@.1, slot),
            tx_prepared(
                old(pool).spec_packets()[slot as int],
                w@.1.spec_packets()[slot as int],
            ),
            if old(self).spec_staged().len() + 1 < BURST_SIZE {
                &&& final(self).spec_staged() == old(self).spec_staged().push(w@.0)
                &&& final(self).spec_sent() == old(self).spec_sent()
                &&& *final(pool) == w@.1
            } else {
                &&& final(self).spec_staged().len() == 0
                &&& final(self).spec_sent() == old(self).spec_sent() + old(
                    self,
                ).spec_staged().push(w@.0)
                &&& spec_drained(
                    w@.1,
                    *final(pool),
                    slots_of(old(self).spec_staged().push(w@.0)),
                )
            },
    {
        let ghost pre_pool = *old(pool);
        let l3off;
        let l4off;
        let off;
        let endpos;
        {
            let p0 = pool.packet(slot);
            l3off = p0.l3_header.offset as usize;
            l4off = p0.l4_header.offset as usize;
            off = p0.offset as usize;
            endpos = p0.len as usize;
        }
        let h = match read_ipv4_header(&pool.packet(slot).buf, l3off) {
            Some(h) => h,
            None => {
                proof {
                    assert(false);
                }
                vstd::pervasive::unreached()
            },
        };
        let cks = ipv4_phdr_cksum(&h);
        let b0 = (cks % 256) as u8;
        let b1 = (cks / 256) as u8;
        let l2_len;
        let l3_len;
        let bytes;
        {
            let p = pool.packet_mut(slot);
            p.buf.set(l3off + 10, 0u8);
            p.buf.set(l3off + 11, 0u8);
            p.buf.set(l4off + 6, b0);
            p.buf.set(l4off + 7, b1);
            l2_len = p.l2_header.length;
            l3_len = p.l3_header.length;
            bytes = copy_range(&p.buf, off, endpos);
        }
        let frame = TxFrame {
            slot,
            bytes,
            l2_len,
            l3_len,
            ip_cksum_offload: true,
            udp_cksum_offload: true,
        };
        let ghost fr = frame;
        let ghost mid_pool = *pool;
        let ghost pre_staged = self.tx_staged@;
        self.tx_staged.push(frame);
        proof {
            assert(spec_le2(cks as u16)[0] == b0 && spec_le2(cks as u16)[1] == b1);
            assert(tx_prepared(
                pre_pool.spec_packets()[slot as int],
                mid_pool.spec_packets()[slot as int],
            ));
            assert(is_tx_frame_of(fr, mid_pool.spec_packets()[slot as int], slot));
            assert(self.tx_staged@ =~= pre_staged.push(fr));
        }
        if self.tx_staged.len() == BURST_SIZE {
            proof {
                assert forall|s: usize|
                    self.staged_ms().count(s) > 0 implies pool.is_live(s) by {
                    lemma_slots_of_push(pre_staged, fr);
                    if s != slot {
                        assert(slots_of(pre_staged).to_multiset().count(s) > 0);
                    }
                }
                assert forall|s: usize|
                    pool.is_live(s) implies pool.spec_packets()[s as int].refcnt
                    >= self.staged_ms().count(s) by {
                    lemma_slots_of_push(pre_staged, fr);
                }
            }
            self.flush(pool);
        }
        Ghost((fr, mid_pool))
    }

    /// Transmits every staged frame and releases the packet reference each
    /// one held, in staging order; the staging array is then empty.
    pub fn flush(&mut self, pool: &mut PacketPool)
        requires
            old(self).spec_staged().len() <= BURST_SIZE,
            old(self).rx_ok(),
            old(pool).wf(),
            forall|s: usize| old(self).staged_ms().count(s) > 0 ==> old(pool).is_live(s),
            forall|s: usize|
                old(pool).is_live(s) ==> old(pool).spec_packets()[s as int].refcnt >= old(self).staged_ms().count(s),
        ensures
            final(self).inv(),
            final(self).spec_staged().len() == 0,
            final(self).spec_sent() == old(self).spec_sent() + old(self).spec_staged(),
            final(self).spec_rx_pending() == old(self).spec_rx_pending(),
            final(self).spec_inited() == old(self).spec_inited(),
            final(self).spec_started() == old(self).spec_started(),
            final(self).nic == old(self).nic && final(self).port == old(self).port && final(self).queue == old(self).queue,
            spec_drained(*old(pool), *final(pool), slots_of(old(self).spec_staged())),
    {
        let ghost base_pool = *old(pool);
        let ghost all = self.tx_staged@;
        let total = self.tx_staged.len();
        let ghost taken: Seq<usize> = Seq::empty();
        proof {
            assert(spec_drained(base_pool, *pool, taken));
        }
        let mut k: usize = 0;
        while self.tx_staged.len() > 0
            invariant
                pool.wf(),
                all.len() == total,
                0 <= k <= all.len(),
                self.tx_staged@ =~= all.skip(k as int),
                self.sent@ =~= old(self).sent@ + all.take(k as int),
                taken =~= slots_of(all.take(k as int)),
                spec_drained(base_pool, *pool, taken),
                self.rx_pending@ == old(self).rx_pending@,
                self.inited == old(self).inited,
                self.started == old(self).started,
                self.nic == old(self).nic && self.port == old(self).port && self.queue == old(self).queue,
                forall|s: usize|
                    slots_of(self.tx_staged@).to_multiset().count(s) > 0 ==> pool.is_live(s),
                forall|s: usize|
                    pool.is_live(s) ==> pool.spec_packets()[s as int].refcnt >= slots_of(
                        self.tx_staged@,
                    ).to_multiset().count(s),
            decreases self.tx_staged@.len(),
        {
            let ghost pre_pool = *pool;
            let ghost pre_staged = self.tx_staged@;
            let f = self.tx_staged.remove(0);
            let fslot = f.slot;
            proof {
                lemma_slots_of_remove0(pre_staged);
                assert(slots_of(pre_staged).to_multiset().count(fslot) > 0);
            }
            pool.deallocate(fslot);
            self.sent.push(f);
            proof {
                broadcast use vstd::seq_lib::group_to_multiset_ensures;

                assert(crate::packet::spec_deallocated(pre_pool, *pool, fslot));
                lemma_drained_snoc(base_pool, pre_pool, *pool, taken, fslot);
                taken = taken.push(fslot);
                assert(all.skip(k as int).first() == all[k as int]);
                assert(pre_staged.remove(0) =~= all.skip(k + 1));
                assert(all.take(k + 1) =~= all.take(k as int).push(all[k as int]));
                assert(taken =~= slots_of(all.take(k + 1))) by {
                    assert forall|i: int|
                        0 <= i < taken.len() implies taken[i] == slots_of(all.take(k + 1))[i] by {}
                }
                let rem_ms = slots_of(self.tx_staged@).to_multiset();
                let pre_ms = slots_of(pre_staged).to_multiset();
                assert(pre_ms =~= rem_ms.insert(fslot));
                crate::packet::lemma_drained_one(pre_pool, *pool, fslot);
                assert(seq![fslot].to_multiset() =~= Multiset::<usize>::empty().insert(fslot));
                assert forall|s: usize|
                    seq![fslot].to_multiset().count(s) + rem_ms.count(s) > 0 implies
                    pre_pool.is_live(s) by {
                    assert(pre_ms.count(s) > 0);
                }
                assert forall|s: usize|
                    pre_pool.is_live(s) implies pre_pool.spec_packets()[s as int].refcnt
                    >= seq![fslot].to_multiset().count(s) + rem_ms.count(s) by {
                    assert(pre_ms.count(s) == seq![fslot].to_multiset().count(s) + rem_ms.count(
                        s,
                    ));
                }
                crate::packet::lemma_drained_effect(pre_pool, *pool, seq![fslot], rem_ms);
            }
            k = k + 1;
        }
        proof {
            assert(all.skip(k as int).len() == 0);
            assert(k == all.len());
            assert(all.take(k as int) =~= all);
        }
    }

    /// Takes one burst of waiting frames off the driver: up to
    /// [`BURST_SIZE`] packets appear, chained oldest first, each owning its
    /// driver buffer. With nothing pending the poll is idle (`Nop`); when
    /// the pool cannot back the whole burst the allocator's error surfaces
    /// and nothing is taken.
    pub fn recv(&mut self, pool: &mut PacketPool) -> (r: Result<Vec<usize>, ModuleError>)
        requires
            old(self).inv(),
            old(pool).wf(),
        ensures
            final(self).inv(),
            final(self).spec_staged() == old(self).spec_staged(),
            final(self).spec_sent() == old(self).spec_sent(),
            final(self).spec_inited() == old(self).spec_inited(),
            final(self).spec_started() == old(self).spec_started(),
            final(self).nic == old(self).nic && final(self).port == old(self).port && final(self).queue == old(self).queue,
            match r {
                Ok(slots) => {
                    &&& old(self).spec_rx_pending().len() > 0
                    &&& slots@.len() == spec_min(
                        BURST_SIZE as int,
                        old(self).spec_rx_pending().len() as int,
                    )
                    &&& crate::modules::fresh_burst(*old(pool), *final(pool), slots@)
                    &&& final(self).spec_rx_pending() == old(self).spec_rx_pending().skip(
                        slots@.len() as int,
                    )
                    &&& forall|c: int|
                        #![trigger slots@[c]]
                        0 <= c < slots@.len() ==> {
                            let f = old(self).spec_rx_pending()[c];
                            let p = final(pool).spec_packets()[slots@[c] as int];
                            &&& p.offset == f.data_off
                            &&& p.len == f.data_off + f.pkt_len
                            &&& p.buf@ == f.bytes@
                            &&& p.buf_ty == PktBufType::Mbuf(f.handle)
                            &&& p.nic == old(self).nic
                            &&& p.next == (if c + 1 < slots@.len() {
                                Some(slots@[c + 1])
                            } else {
                                None
                            })
                        }
                },
                Err(ModuleError::Nop) => {
                    &&& old(self).spec_rx_pending().len() == 0
                    &&& *final(pool) == *old(pool)
                    &&& final(self).spec_rx_pending() == old(self).spec_rx_pending()
                },
                Err(e) => {
                    &&& e == ModuleError::MemoryError(crate::memory::MemoryError::Exhausted)
                    &&& old(self).spec_rx_pending().len() > 0
                    &&& old(pool).avail() < spec_min(
                        BURST_SIZE as int,
                        old(self).spec_rx_pending().len() as int,
                    )
                    &&& crate::packet::pool_quiescent(*old(pool), *final(pool))
                    &&& final(pool).avail() == old(pool).avail()
                    &&& final(self).spec_rx_pending() == old(self).spec_rx_pending().skip(
                        spec_min(BURST_SIZE as int, old(self).spec_rx_pending().len() as int),
                    )
                },
            },
    {
        let pending = self.rx_pending.len();
        if pending == 0 {
            return Err(ModuleError::Nop);
        }
        let n: usize = if pending < BURST_SIZE {
            pending
        } else {
            BURST_SIZE
        };
        let slots = match pool.allocate_many(n as u32) {
            Ok(slots) => slots,
            Err(e) => {
                // the pool cannot back the burst: the driver descriptors of
                // this burst are dropped, as the receive path documents
                let ghost rx0 = self.rx_pending@;
                let mut j: usize = 0;
                while j < n
                    invariant
                        0 <= j <= n,
                        n <= rx0.len(),
                        self.rx_pending@ =~= rx0.skip(j as int),
                        self.tx_staged@ == old(self).tx_staged@,
                        self.sent@ == old(self).sent@,
                        self.inited == old(self).inited,
                        self.started == old(self).started,
                        self.nic == old(self).nic && self.port == old(self).port && self.queue
                            == old(self).queue,
                        self.inv(),
                    decreases n - j,
                {
                    let ghost prerx = self.rx_pending@;
                    let _ = self.rx_pending.remove(0);
                    proof {
                        assert(prerx.remove(0) =~= rx0.skip(j + 1));
                    }
                    j = j + 1;
                }
                return Err(ModuleError::MemoryError(e));
            },
        };
        let ghost base = *pool;
        let ghost rx0 = self.rx_pending@;
        let mynic = self.nic;
        let mut c: usize = 0;
        while c < n
            invariant
                0 <= c <= n,
                n == slots@.len(),
                n <= rx0.len(),
                pool.wf(),
                mynic == self.nic,
                self.rx_pending@ == rx0,
                self.inv(),
                pool.capacity() == base.capacity(),
                pool.free_len() == base.free_len(),
                pool.spec_socket_id() == base.spec_socket_id(),
                pool.spec_thread_id() == base.spec_thread_id(),
                pool.spec_released() == base.spec_released(),
                pool.spec_double_frees() == base.spec_double_frees(),
                forall|s: usize| pool.is_live(s) == base.is_live(s),
                forall|a: int, b: int| 0 <= a < b < n ==> slots@[a] != slots@[b],
                forall|a: int|
                    0 <= a < n ==> (#[trigger] slots@[a]) < base.capacity() && base.is_live(
                        slots@[a],
                    ) && crate::packet::is_fresh_packet(base.spec_packets()[slots@[a] as int]),
                forall|s: usize|
                    s < base.capacity() && !slots@.contains(s) ==> pool.spec_packets()[s as int]
                        == base.spec_packets()[s as int],
                forall|a: int|
                    c <= a < n ==> pool.spec_packets()[slots@[a] as int] == base.spec_packets()[slots@[a] as int],
                forall|a: int|
                    #![trigger slots@[a]]
                    0 <= a < c ==> {
                        let f = rx0[a];
                        let p = pool.spec_packets()[slots@[a] as int];
                        &&& p.offset == f.data_off
                        &&& p.len == f.data_off + f.pkt_len
                        &&& p.buf@ == f.bytes@
                        &&& p.buf_ty == PktBufType::Mbuf(f.handle)
                        &&& p.nic == mynic
                        &&& p.refcnt == 1
                        &&& p.wf()
                        &&& p.next == (if a + 1 < n {
                            Some(slots@[a + 1])
                        } else {
                            None
                        })
                    },
            decreases n - c,
        {
            let slot = slots[c];
            let nxt = if c + 1 < n {
                Some(slots[c + 1])
            } else {
                None
            };
            let data_off;
            let pkt_len;
            let handle;
            let fresh_bytes;
            {
                let f = &self.rx_pending[c];
                data_off = f.data_off;
                pkt_len = f.pkt_len;
                handle = f.handle;
                fresh_bytes = copy_bytes(&f.bytes);
            }
            let ghost pre = *pool;
            let p = pool.packet_mut(slot);
            p.buf = fresh_bytes;
            p.offset = data_off;
            p.len = data_off + pkt_len;
            p.buf_ty = PktBufType::Mbuf(handle);
            p.nic = mynic;
            p.next = nxt;
            proof {
                assert forall|a: int|
                    0 <= a < n && a != c implies pool.spec_packets()[slots@[a] as int]
                    == pre.spec_packets()[slots@[a] as int] by {
                    assert(slots@[a] != slots@[c as int]);
                }
                assert forall|s: usize|
                    s < base.capacity() && !slots@.contains(s) implies pool.spec_packets()[
                s as int] == base.spec_packets()[s as int] by {
                    assert(s != slot);
                }
            }
            c = c + 1;
        }
        // the driver descriptors consumed by this burst leave the pending list
        let mut j: usize = 0;
        while j < n
            invariant
                0 <= j <= n,
                n <= rx0.len(),
                self.rx_pending@ =~= rx0.skip(j as int),
                self.tx_staged@ == old(self).tx_staged@,
                self.sent@ == old(self).sent@,
                self.inited == old(self).inited,
                self.started == old(self).started,
                self.nic == old(self).nic && self.port == old(self).port && self.queue == old(self).queue,
                self.inv(),
            decreases n - j,
        {
            let ghost prerx = self.rx_pending@;
            let _ = self.rx_pending.remove(0);
            proof {
                assert(prerx.remove(0) =~= rx0.skip(j + 1));
            }
            j = j + 1;
        }
        Ok(slots)
    }

    /// Shuts the port down; the model keeps no per-port counters.
    pub fn stop(&mut self, ctx: &Context)
        requires
            old(self).inv(),
        ensures
            *final(self) == *old(self),
    {
    }
}

/// The smaller of two values.
pub open spec fn spec_min(a: int, b: int) -> int {
    if a < b {
        a
    } else {
        b
    }
}

proof fn lemma_slots_of_push(frames: Seq<TxFrame>, f: TxFrame)
    ensures
        slots_of(frames.push(f)) =~= slots_of(frames).push(f.slot),
        slots_of(frames.push(f)).to_multiset() =~= slots_of(frames).to_multiset().insert(f.slot),
{
    broadcast use vstd::seq_lib::group_to_multiset_ensures;

    assert(slots_of(frames.push(f)) =~= slots_of(frames).push(f.slot));
}

proof fn lemma_slots_of_remove0(frames: Seq<TxFrame>)
    requires
        frames.len() > 0,
    ensures
        slots_of(frames.remove(0)) =~= slots_of(frames).remove(0),
        slots_of(frames).to_multiset() =~= slots_of(frames.remove(0)).to_multiset().insert(
            frames[0].slot,
        ),
{
    broadcast use vstd::seq_lib::group_to_multiset_ensures;

    assert(slots_of(frames.remove(0)) =~= slots_of(frames).remove(0));
    assert(slots_of(frames)[0] == frames[0].slot);
    assert(slots_of(frames).remove(0).to_multiset() =~= slots_of(frames).to_multiset().remove(
        frames[0].slot,
    ));
    assert(slots_of(frames).to_multiset().count(frames[0].slot) > 0) by {
        assert(slots_of(frames).contains(frames[0].slot));
    }
}



/// Every packet reference staged across a list of adapters.
pub open spec fn adapters_staged(ads: Seq<NicAdapter>) -> Multiset<usize>
    decreases ads.len(),
{
    if ads.len() == 0 {
        Multiset::empty()
    } else {
        adapters_staged(ads.drop_last()).add(ads.last().staged_ms())
    }
}

/// Replacing one adapter replaces exactly its contribution.
pub proof fn lemma_adapters_staged_update(ads: Seq<NicAdapter>, i: int, a: NicAdapter)
    requires
        0 <= i < ads.len(),
    ensures
        adapters_staged(ads.update(i, a)).add(ads[i].staged_ms()) =~= adapters_staged(ads).add(
            a.staged_ms(),
        ),
    decreases ads.len(),
{
    let ads2 = ads.update(i, a);
    assert(ads2.len() == ads.len());
    if i == ads.len() - 1 {
        assert(ads2.drop_last() =~= ads.drop_last());
        assert(ads2.last() == a);
        assert(adapters_staged(ads2) == adapters_staged(ads.drop_last()).add(a.staged_ms()));
        assert(adapters_staged(ads) == adapters_staged(ads.drop_last()).add(ads[i].staged_ms()));
    } else {
        assert(ads2.drop_last() =~= ads.drop_last().update(i, a));
        assert(ads2.last() == ads.last());
        lemma_adapters_staged_update(ads.drop_last(), i, a);
        assert(adapters_staged(ads2) == adapters_staged(ads.drop_last().update(i, a)).add(
            ads.last().staged_ms(),
        ));
        assert(adapters_staged(ads) == adapters_staged(ads.drop_last()).add(
            ads.last().staged_ms(),
        ));
        assert(ads.drop_last()[i] == ads[i]);
    }
    assert forall|x: usize|
        adapters_staged(ads2).add(ads[i].staged_ms()).count(x) == adapters_staged(ads).add(
            a.staged_ms(),
        ).count(x) by {
        if i < ads.len() - 1 {
            let dl = ads.drop_last();
            assert(adapters_staged(dl.update(i, a)).add(dl[i].staged_ms()).count(x)
                == adapters_staged(dl).add(a.staged_ms()).count(x));
            assert(adapters_staged(dl.update(i, a)).add(dl[i].staged_ms()).count(x)
                == adapters_staged(dl.update(i, a)).count(x) + dl[i].staged_ms().count(x));
            assert(adapters_staged(dl).add(a.staged_ms()).count(x) == adapters_staged(dl).count(x)
                + a.staged_ms().count(x));
        }
    }
}

/// One adapter's staging never exceeds the whole list's.
pub proof fn lemma_adapters_staged_component(ads: Seq<NicAdapter>, i: int, s: usize)
    requires
        0 <= i < ads.len(),
    ensures
        adapters_staged(ads).count(s) >= ads[i].staged_ms().count(s),
    decreases ads.len(),
{
    if i == ads.len() - 1 {
    } else {
        lemma_adapters_staged_component(ads.drop_last(), i, s);
        assert(ads.drop_last()[i] == ads[i]);
    }
}

/// A list of adapters with nothing staged stages nothing.
pub proof fn lemma_adapters_staged_empty(ads: Seq<NicAdapter>)
    requires
        forall|i: int| 0 <= i < ads.len() ==> (#[trigger] ads[i]).spec_staged().len() == 0,
    ensures
        adapters_staged(ads) =~= Multiset::<usize>::empty(),
    decreases ads.len(),
{
    broadcast use vstd::seq_lib::group_to_multiset_ensures;

    if ads.len() > 0 {
        lemma_adapters_staged_empty(ads.drop_last());
        assert(slots_of(ads.last().spec_staged()).len() == 0);
        assert(slots_of(ads.last().spec_staged()) =~= Seq::<usize>::empty());
        assert(ads.last().staged_ms() =~= Multiset::<usize>::empty());
    }
}

/// Most NICs one I/O node drives.
pub const NUM_ADAPTER_MAX: usize = 16;

/// The I/O node: one adapter per configured NIC, deferred-flush
/// bookkeeping, and the per-NIC hardware addresses learned at init.
pub struct IoNode {
    adapters: Vec<NicAdapter>,
    nic_to_mac: Vec<MacAddr>,
    flush_queue: Vec<u16>,
    flush_flags: Vec<bool>,
}

impl IoNode {
    /// Every packet reference its adapters hold staged.
    pub open spec fn staged(&self) -> Multiset<usize> {
        adapters_staged(self.spec_adapters())
    }

    pub closed spec fn spec_adapters(&self) -> Seq<NicAdapter> {
        self.adapters@
    }

    pub closed spec fn spec_nic_to_mac(&self) -> Seq<MacAddr> {
        self.nic_to_mac@
    }

    /// NICs queued for a deferred flush, in insertion order.
    pub closed spec fn spec_flush_queue(&self) -> Seq<u16> {
        self.flush_queue@
    }

    pub closed spec fn inv(&self) -> bool {
        &&& self.adapters@.len() == self.nic_to_mac@.len()
        &&& self.adapters@.len() == self.flush_flags@.len()
        &&& self.adapters@.len() <= NUM_ADAPTER_MAX
        &&& (forall|i: int| 0 <= i < self.adapters@.len() ==> (#[trigger] self.adapters@[i]).inv())
        &&& (forall|i: int|
            0 <= i < self.flush_queue@.len() ==> ((#[trigger] self.flush_queue@[i]) as int)
                < self.adapters@.len())
    }

    /// Whether init configured and started every adapter.
    pub closed spec fn ready(&self) -> bool {
        forall|i: int|
            0 <= i < self.adapters@.len() ==> (#[trigger] self.adapters@[i]).spec_inited()
                && self.adapters@[i].spec_started()
    }

    pub fn new() -> (r: Self)
        ensures
            r.inv(),
            r.spec_adapters().len() == 0,
            r.staged() == Multiset::<usize>::empty(),
            r.ready(),
    {
        IoNode {
            adapters: Vec::new(),
            nic_to_mac: Vec::new(),
            flush_queue: Vec::new(),
            flush_flags: Vec::new(),
        }
    }

    /// How many NICs this node drives.
    pub fn nic_count(&self) -> (r: usize)
        ensures
            r == self.spec_adapters().len(),
    {
        self.adapters.len()
    }

    /// The hardware address learned for a NIC.
    pub fn mac_of(&self, nic: usize) -> (r: MacAddr)
        requires
            self.inv(),
            nic < self.spec_adapters().len(),
        ensures
            r == self.spec_nic_to_mac()[nic as int],
    {
        self.nic_to_mac[nic]
    }

    /// Read access to one adapter, for inspection.
    pub fn adapter(&self, nic: usize) -> (r: &NicAdapter)
        requires
            nic < self.spec_adapters().len(),
        ensures
            *r == self.spec_adapters()[nic as int],
    {
        &self.adapters[nic]
    }

    /// Hands the driver of one NIC a received frame.
    pub fn push_rx(&mut self, nic: usize, frame: RxFrame)
        requires
            old(self).inv(),
            nic < old(self).spec_adapters().len(),
            frame.wf(),
        ensures
            final(self).inv(),
            final(self).ready() == old(self).ready(),
            final(self).staged() =~= old(self).staged(),
            final(self).spec_adapters().len() == old(self).spec_adapters().len(),
    {
        let ghost pre = self.adapters@;
        let a = &mut self.adapters[nic];
        a.push_rx(frame);
        proof {
            let newa = self.adapters@[nic as int];
            lemma_adapters_staged_update(pre, nic as int, newa);
            assert(newa.staged_ms() =~= pre[nic as int].staged_ms());
            crate::memory::lemma_ms_cancel(
                adapters_staged(self.adapters@),
                adapters_staged(pre),
                pre[nic as int].staged_ms(),
            );
            assert forall|i: int|
                0 <= i < self.adapters@.len() implies (#[trigger] self.adapters@[i]).inv() by {
                if i != nic {
                    assert(self.adapters@[i] == pre[i]);
                }
            }
            assert(final(self).ready() == old(self).ready()) by {
                if old(self).ready() {
                    assert forall|i: int|
                        0 <= i < self.adapters@.len() implies (#[trigger] self.adapters@[
                    i]).spec_inited() && self.adapters@[i].spec_started() by {
                        if i != nic {
                            assert(self.adapters@[i] == pre[i]);
                        }
                    }
                } else {
                    let i = choose|i: int|
                        0 <= i < pre.len() && !((#[trigger] pre[i]).spec_inited()
                            && pre[i].spec_started());
                    assert(self.adapters@[i].spec_inited() ==> pre[i].spec_inited());
                }
            }
        }
    }

    /// Builds one adapter per configured NIC, initializes each, and starts
    /// them only after every one finished initializing; the learned
    /// addresses fill the NIC-to-address table.
    pub fn init(&mut self, ctx: &Context, stack: &StackConfig) -> (r: Result<(), ModuleError>)
        requires
            old(self).inv(),
            old(self).staged() == Multiset::<usize>::empty(),
        ensures
            final(self).inv(),
            final(self).staged() =~= Multiset::<usize>::empty(),
            r is Ok <==> stack.nics@.len() <= NUM_ADAPTER_MAX,
            r is Ok ==> final(self).ready(),
            r is Ok ==> final(self).spec_adapters().len() == stack.nics@.len(),
            r is Err ==> r == Err::<(), ModuleError>(ModuleError::Unknown) && *final(self)
                == *old(self),
    {
        if stack.nics.len() > NUM_ADAPTER_MAX {
            return Err(ModuleError::Unknown);
        }
        let mut adapters: Vec<NicAdapter> = Vec::new();
        let mut macs: Vec<MacAddr> = Vec::new();
        let mut flags: Vec<bool> = Vec::new();
        let mut i: usize = 0;
        while i < stack.nics.len()
            invariant
                0 <= i <= stack.nics@.len(),
                stack.nics@.len() <= NUM_ADAPTER_MAX,
                adapters@.len() == i,
                macs@.len() == i,
                flags@.len() == i,
                forall|j: int|
                    0 <= j < i ==> {
                        &&& (#[trigger] adapters@[j]).inv()
                        &&& adapters@[j].spec_inited()
                        &&& adapters@[j].spec_staged().len() == 0
                    },
            decreases stack.nics@.len() - i,
        {
            let mut a = NicAdapter::new(i as u16);
            let ghost pre = adapters@;
            let mac = a.init(ctx, stack.nics[i].port, ctx.num_queues, ctx.queue);
            adapters.push(a);
            macs.push(mac);
            flags.push(false);
            proof {
                assert forall|j: int|
                    0 <= j < i + 1 implies {
                    &&& (#[trigger] adapters@[j]).inv()
                    &&& adapters@[j].spec_inited()
                    &&& adapters@[j].spec_staged().len() == 0
                } by {
                    if j < i {
                        assert(adapters@[j] == pre[j]);
                    }
                }
            }
            i = i + 1;
        }
        // every queue is configured; packet movement may start
        let n = adapters.len();
        let mut i: usize = 0;
        while i < n
            invariant
                0 <= i <= n,
                n == adapters@.len(),
                adapters@.len() <= NUM_ADAPTER_MAX,
                macs@.len() == adapters@.len(),
                flags@.len() == adapters@.len(),
                forall|j: int|
                    0 <= j < n ==> {
                        &&& (#[trigger] adapters@[j]).inv()
                        &&& adapters@[j].spec_inited()
                        &&& adapters@[j].spec_staged().len() == 0
                    },
                forall|j: int| 0 <= j < i ==> (#[trigger] adapters@[j]).spec_started(),
            decreases n - i,
        {
            let ghost pre = adapters@;
            let a = &mut adapters[i];
            a.start();
            proof {
                assert forall|j: int|
                    0 <= j < n implies {
                    &&& (#[trigger] adapters@[j]).inv()
                    &&& adapters@[j].spec_inited()
                    &&& adapters@[j].spec_staged().len() == 0
                    &&& (j < i + 1 ==> adapters@[j].spec_started())
                } by {
                    if j != i {
                        assert(adapters@[j] == pre[j]);
                    }
                }
            }
            i = i + 1;
        }
        proof {
            lemma_adapters_staged_empty(adapters@);
        }
        self.adapters = adapters;
        self.nic_to_mac = macs;
        self.flush_flags = flags;
        self.flush_queue = Vec::new();
        Ok(())
    }
}


impl IoNode {
    /// Routes one packet out of its NIC: stamps the source hardware
    /// address, stages the frame with the adapter (a full burst flushes at
    /// once), queues the NIC for a deferred flush, and reports the packet
    /// consumed. A NIC out of range or a packet without a sound header
    /// stack is a fatal error that leaves the pool live set untouched.
    #[verifier::rlimit(100)]
    pub fn process(&mut self, ctx: &Context, pool: &mut PacketPool, slot: usize) -> (r: (
        Result<(), ModuleError>,
        Ghost<(PacketPool, Seq<usize>)>,
    ))
        requires
            old(self).inv(),
            old(self).ready(),
            old(pool).wf(),
            old(pool).is_live(slot),
            old(pool).spec_packets()[slot as int].wf(),
            forall|s: usize| old(self).staged().count(s) > 0 ==> old(pool).is_live(s),
            forall|s: usize|
                old(pool).is_live(s) ==> old(pool).spec_packets()[s as int].refcnt >= old(self).staged().count(s) + (if s == slot {
                    1int
                } else {
                    0int
                }),
        ensures
            final(self).inv(),
            final(self).ready(),
            final(self).spec_adapters().len() == old(self).spec_adapters().len(),
            final(self).spec_nic_to_mac() == old(self).spec_nic_to_mac(),
            io_process_post(
                *old(pool),
                *final(pool),
                old(self).staged(),
                final(self).staged(),
                slot,
                r.0,
                r.1@.0,
                r.1@.1,
            ),
            r.0 == Err::<(), ModuleError>(ModuleError::Dropped) || r.0 == Err::<(), ModuleError>(
                ModuleError::Unknown,
            ),
            r.0 == Err::<(), ModuleError>(ModuleError::Unknown) <==> !io_tx_accept(
                old(pool).spec_packets()[slot as int],
                old(self).spec_adapters().len() as int,
                old(self).spec_nic_to_mac(),
            ),
            r.0 == Err::<(), ModuleError>(ModuleError::Dropped) ==> ({
                let p0 = old(pool).spec_packets()[slot as int];
                let nic = p0.nic as int;
                let a0 = old(self).spec_adapters()[nic];
                let a1 = final(self).spec_adapters()[nic];
                &&& io_tx_mutated(
                    p0,
                    r.1@.0.spec_packets()[slot as int],
                    old(self).spec_nic_to_mac()[nic].spec_bytes(),
                )
                &&& (forall|j: int|
                    0 <= j < final(self).spec_adapters().len() && j != nic
                        ==> final(self).spec_adapters()[j] == old(self).spec_adapters()[j])
                &&& if a0.spec_staged().len() + 1 < BURST_SIZE {
                    &&& a1.spec_staged() == a0.spec_staged().push(a1.spec_staged().last())
                    &&& is_tx_frame_of(
                        a1.spec_staged().last(),
                        r.1@.0.spec_packets()[slot as int],
                        slot,
                    )
                    &&& a1.spec_sent() == a0.spec_sent()
                } else {
                    &&& a1.spec_staged().len() == 0
                    &&& a1.spec_sent() == a0.spec_sent() + a0.spec_staged().push(
                        a1.spec_sent().last(),
                    )
                    &&& is_tx_frame_of(
                        a1.spec_sent().last(),
                        r.1@.0.spec_packets()[slot as int],
                        slot,
                    )
                }
            }),
    {
        let ghost op0 = *pool;
        let nic = pool.packet(slot).nic as usize;
        if nic >= self.adapters.len() {
            return (Err(ModuleError::Unknown), Ghost((op0, Seq::empty())));
        }
        // stamp the source address before the frame is captured
        let l2off = pool.packet(slot).l2_header.offset as usize;
        let l2len = pool.packet(slot).l2_header.length;
        let buflen = pool.packet(slot).buf.len();
        if !(l2len == 14 && l2off + 14 <= buflen) {
            return (Err(ModuleError::Unknown), Ghost((op0, Seq::empty())));
        }
        let mac = self.nic_to_mac[nic].as_bytes();
        let ghost pre_pool = *pool;
        stamp_src_mac(pool, slot, l2off, &mac);
        // everything the transmit path needs must be in place
        if !NicAdapter::check_sendable(pool.packet(slot)) {
            proof {
                assert(pool_mutated_at(pre_pool, *pool, slot));
            }
            return (Err(ModuleError::Unknown), Ghost((op0, Seq::empty())));
        }
        let ghost mac_pool = *pool;
        let ghost pre_ads = self.adapters@;
        let ghost pre_staged = old(self).staged();
        proof {
            assert forall|s: usize|
                pre_ads[nic as int].staged_ms().count(s) > 0 implies mac_pool.is_live(s) by {
                lemma_adapters_staged_component(pre_ads, nic as int, s);
            }
            assert forall|s: usize|
                mac_pool.is_live(s) implies mac_pool.spec_packets()[s as int].refcnt >= pre_ads[
                nic as int].staged_ms().count(s) + (if s == slot {
                    1int
                } else {
                    0int
                }) by {
                lemma_adapters_staged_component(pre_ads, nic as int, s);
            }
        }
        let a = &mut self.adapters[nic];
        let ghost a0 = *a;
        let w = a.send(pool, slot);
        let ghost new_a = self.adapters@[nic as int];
        proof {
            lemma_adapters_staged_update(pre_ads, nic as int, new_a);
        }
        // remember the NIC for the deferred flush the next poll runs
        if !self.flush_flags[nic] {
            self.flush_flags.set(nic, true);
            self.flush_queue.push(nic as u16);
        }
        proof {
            assert(self.adapters@ == pre_ads.update(nic as int, new_a));
            assert forall|i: int|
                0 <= i < self.adapters@.len() implies (#[trigger] self.adapters@[i]).inv()
                && self.adapters@[i].spec_inited() && self.adapters@[i].spec_started() by {
                if i != nic {
                    assert(self.adapters@[i] == pre_ads[i]);
                }
            }
            assert(pool_mutated_at(pre_pool, mac_pool, slot));
            assert(mac_pool.spec_packets()[slot as int].wf());
            let fr = w@.0;
            let mid = w@.1;
            crate::packet::lemma_mutated_trans(pre_pool, mac_pool, mid, slot);
            assert(mid.spec_packets()[slot as int].wf()) by {
                let p0 = mac_pool.spec_packets()[slot as int];
                let p1 = mid.spec_packets()[slot as int];
                assert(p1.buf@.len() == p0.buf@.len());
            }
            if a0.spec_staged().len() + 1 < BURST_SIZE {
                lemma_io_send_stage(pre_ads, self.adapters@, nic as int, a0, new_a, slot, fr);
                lemma_empty_drain_shape(
                    pre_pool,
                    *pool,
                    adapters_staged(pre_ads),
                    adapters_staged(self.adapters@),
                    slot,
                    mid,
                );
            } else {
                lemma_io_send_flush(pre_ads, self.adapters@, nic as int, a0, new_a, slot, fr);
                let flushed = slots_of(a0.spec_staged().push(fr));
                assert forall|s: usize|
                    flushed.to_multiset().count(s) > 0 implies mid.is_live(s) by {
                    assert(flushed.to_multiset() =~= a0.staged_ms().insert(slot));
                    if s != slot {
                        assert(a0.staged_ms().count(s) > 0);
                        assert(adapters_staged(pre_ads).count(s) > 0) by {
                            lemma_adapters_staged_component(pre_ads, nic as int, s);
                        }
                        assert(pre_pool.is_live(s));
                    }
                    assert(mid.is_live(s) == pre_pool.is_live(s));
                }
                crate::packet::lemma_drained_frame(mid, *pool, flushed);
                assert(pool_frame(pre_pool, *pool));
            }
        }
        let ghost wit_mid = w@.1;
        let ghost wit_flushed = if a0.spec_staged().len() + 1 < BURST_SIZE {
            Seq::<usize>::empty()
        } else {
            slots_of(a0.spec_staged().push(w@.0))
        };
        (Err(ModuleError::Dropped), Ghost((wit_mid, wit_flushed)))
    }
}

/// Writes the six source-address bytes into the frame's layer-2 header.
/// The buffer with the six source-address bytes at `l2off + 6` replaced
/// by `mac`.
pub open spec fn spec_stamp_buf(b: Seq<u8>, l2off: int, mac: Seq<u8>) -> Seq<u8> {
    b.update(l2off + 6, mac[0]).update(l2off + 7, mac[1]).update(l2off + 8, mac[2]).update(
        l2off + 9,
        mac[3],
    ).update(l2off + 10, mac[4]).update(l2off + 11, mac[5])
}

fn stamp_src_mac(pool: &mut PacketPool, slot: usize, l2off: usize, mac: &[u8; 6])
    requires
        old(pool).wf(),
        slot < old(pool).capacity(),
        l2off <= 65535,
        l2off + 14 <= old(pool).spec_packets()[slot as int].buf@.len(),
    ensures
        pool_mutated_at(*old(pool), *final(pool), slot),
        ({
            let p0 = old(pool).spec_packets()[slot as int];
            let p1 = final(pool).spec_packets()[slot as int];
            &&& p1.buf@ == spec_stamp_buf(p0.buf@, l2off as int, mac@)
            &&& p1.len == p0.len && p1.offset == p0.offset
            &&& p1.l2_header == p0.l2_header && p1.l3_header == p0.l3_header && p1.l4_header
                == p0.l4_header
            &&& p1.next == p0.next && p1.nic == p0.nic && p1.refcnt == p0.refcnt
            &&& p1.dst_addr == p0.dst_addr
            &&& p1.buf_ty == p0.buf_ty
        }),
{
    let p = pool.packet_mut(slot);
    let ghost p0 = *p;
    let mut k: usize = 0;
    while k < 6
        invariant
            0 <= k <= 6,
            l2off <= 65535,
            l2off + 14 <= p.buf@.len(),
            forall|i: int|
                0 <= i < p.buf@.len() && !(l2off + 6 <= i < l2off + 6 + k) ==> p.buf@[i]
                    == p0.buf@[i],
            forall|i: int| 0 <= i < k ==> p.buf@[l2off + 6 + i] == mac@[i],
            p.len == p0.len && p.offset == p0.offset,
            p.l2_header == p0.l2_header && p.l3_header == p0.l3_header && p.l4_header
                == p0.l4_header,
            p.next == p0.next && p.nic == p0.nic && p.refcnt == p0.refcnt,
            p.dst_addr == p0.dst_addr,
            p.buf_ty == p0.buf_ty,
            p.buf@.len() == p0.buf@.len(),
        decreases 6 - k,
    {
        p.buf.set(l2off + 6 + k, mac[k]);
        k = k + 1;
    }
    proof {
        assert(p.buf@ =~= spec_stamp_buf(p0.buf@, l2off as int, mac@));
    }
}

/// Maps the adapter's send outcome to the I/O node's contract: the staged
/// reference joins the adapter's accounting, or the whole burst drains.
/// The witness shape of a plain staging: nothing drained, nothing moved.
proof fn lemma_empty_drain_shape(
    op: PacketPool,
    np: PacketPool,
    staged0: Multiset<usize>,
    staged1: Multiset<usize>,
    slot: usize,
    mid: PacketPool,
)
    requires
        np == mid,
        pool_mutated_at(op, np, slot),
        staged1 == staged0.insert(slot),
    ensures
        spec_drained(mid, np, Seq::<usize>::empty()),
        staged0.insert(slot) == staged1.add(Seq::<usize>::empty().to_multiset()),
        forall|s: usize|
            Seq::<usize>::empty().to_multiset().count(s) > 0 ==> mid.is_live(s),
        pool_frame(op, np),
{
    broadcast use vstd::seq_lib::group_to_multiset_ensures;

    assert(Seq::<usize>::empty().to_multiset() =~= Multiset::<usize>::empty());
    assert(staged0.insert(slot) =~= staged1.add(Seq::<usize>::empty().to_multiset()));
}

/// Staging a frame raises the node's staged accounting by the one slot.
proof fn lemma_io_send_stage(
    pre_ads: Seq<NicAdapter>,
    new_ads: Seq<NicAdapter>,
    nic: int,
    a0: NicAdapter,
    new_a: NicAdapter,
    slot: usize,
    fr: TxFrame,
)
    requires
        0 <= nic < pre_ads.len(),
        a0 == pre_ads[nic],
        new_a == new_ads[nic],
        new_ads == pre_ads.update(nic, new_a),
        new_a.spec_staged() == a0.spec_staged().push(fr),
        fr.slot == slot,
    ensures
        adapters_staged(new_ads) == adapters_staged(pre_ads).insert(slot),
{
    broadcast use vstd::seq_lib::group_to_multiset_ensures;

    let pre_staged = adapters_staged(pre_ads);
    let now_staged = adapters_staged(new_ads);
    lemma_adapters_staged_update(pre_ads, nic, new_a);
    assert(slots_of(new_a.spec_staged()) =~= slots_of(a0.spec_staged()).push(slot));
    assert(new_a.staged_ms() =~= a0.staged_ms().insert(slot));
    assert(now_staged.add(a0.staged_ms()) =~= pre_staged.insert(slot).add(a0.staged_ms()));
    crate::memory::lemma_ms_cancel(now_staged, pre_staged.insert(slot), a0.staged_ms());
}

/// A flushed burst moves the staged references into the drained list.
proof fn lemma_io_send_flush(
    pre_ads: Seq<NicAdapter>,
    new_ads: Seq<NicAdapter>,
    nic: int,
    a0: NicAdapter,
    new_a: NicAdapter,
    slot: usize,
    fr: TxFrame,
)
    requires
        0 <= nic < pre_ads.len(),
        a0 == pre_ads[nic],
        new_a == new_ads[nic],
        new_ads == pre_ads.update(nic, new_a),
        new_a.spec_staged().len() == 0,
        fr.slot == slot,
    ensures
        slots_of(a0.spec_staged().push(fr)).to_multiset() =~= a0.staged_ms().insert(slot),
        adapters_staged(pre_ads).insert(slot) == adapters_staged(new_ads).add(
            slots_of(a0.spec_staged().push(fr)).to_multiset(),
        ),
{
    broadcast use vstd::seq_lib::group_to_multiset_ensures;

    let pre_staged = adapters_staged(pre_ads);
    let now_staged = adapters_staged(new_ads);
    let flushed = slots_of(a0.spec_staged().push(fr));
    lemma_adapters_staged_update(pre_ads, nic, new_a);
    assert(slots_of(new_a.spec_staged()).len() == 0);
    assert(slots_of(new_a.spec_staged()) =~= Seq::<usize>::empty());
    assert(new_a.staged_ms() =~= Multiset::<usize>::empty());
    assert(flushed =~= slots_of(a0.spec_staged()).push(slot));
    assert(flushed.to_multiset() =~= a0.staged_ms().insert(slot));
    assert(now_staged.add(a0.staged_ms()) =~= pre_staged.add(new_a.staged_ms()));
    assert(pre_staged.add(new_a.staged_ms()) =~= pre_staged);
    assert(pre_staged.insert(slot) =~= now_staged.add(flushed.to_multiset()));
}

/// Exactly when the I/O node accepts a packet for transmission: its NIC is
/// configured, its layer-2 header is well placed, and after the source
/// address is stamped the header stack is sendable.
pub open spec fn io_tx_accept(p: Packet, nadapters: int, macs: Seq<MacAddr>) -> bool {
    &&& (p.nic as int) < nadapters
    &&& p.l2_header.length == 14
    &&& p.l2_header.offset + 14 <= p.buf@.len()
    &&& spec_sendable_bytes(
        spec_stamp_buf(p.buf@, p.l2_header.offset as int, macs[p.nic as int].spec_bytes()),
        p,
    )
}

/// How the I/O node leaves an accepted packet: the source address stamped
/// into the layer-2 header, the IPv4 checksum field zeroed, and the UDP
/// checksum field holding the pseudo-header sum of the stamped header;
/// every other byte and field stays.
pub open spec fn io_tx_mutated(p0: Packet, p1: Packet, mac: Seq<u8>) -> bool {
    let l3off = p0.l3_header.offset as int;
    let l4off = p0.l4_header.offset as int;
    let sb = spec_stamp_buf(p0.buf@, p0.l2_header.offset as int, mac);
    &&& (crate::codec::spec_parse_ipv4(sb.subrange(l3off, l3off + IPV4_HEADER_LEN))
        matches Some(h) && {
        let ck = crate::codec::spec_phdr_cksum(h);
        p1.buf@ == sb.update(l3off + 10, 0u8).update(l3off + 11, 0u8).update(
            l4off + 6,
            spec_le2(ck as u16)[0],
        ).update(l4off + 7, spec_le2(ck as u16)[1])
    })
    &&& p1.len == p0.len && p1.offset == p0.offset
    &&& p1.l2_header == p0.l2_header && p1.l3_header == p0.l3_header && p1.l4_header
        == p0.l4_header
    &&& p1.next == p0.next && p1.nic == p0.nic && p1.dst_addr == p0.dst_addr
    &&& p1.refcnt == p0.refcnt && p1.buf_ty == p0.buf_ty
}

/// The exact contract of the I/O node's `process`, over the staged
/// multisets before and after, with the drain witness.
pub open spec fn io_process_post(
    op: PacketPool,
    np: PacketPool,
    staged0: Multiset<usize>,
    staged1: Multiset<usize>,
    slot: usize,
    r: Result<(), ModuleError>,
    mid: PacketPool,
    flushed: Seq<usize>,
) -> bool {
    &&& pool_frame(op, np)
    &&& match r {
        Ok(_) => false,
        Err(ModuleError::Dropped) => {
            &&& pool_mutated_at(op, mid, slot)
            &&& mid.spec_packets()[slot as int].wf()
            &&& (forall|s: usize| flushed.to_multiset().count(s) > 0 ==> mid.is_live(s))
            &&& staged0.insert(slot) == staged1.add(flushed.to_multiset())
            &&& spec_drained(mid, np, flushed)
        },
        Err(_) => staged1 == staged0 && (np == op || pool_mutated_at(op, np, slot)),
    }
}


/// The exact contract of the I/O node's `poll`: deferred flushes drain
/// first (the witness names the drained references and the pool they left),
/// then a received burst may arrive.
pub open spec fn io_poll_post(
    op: PacketPool,
    np: PacketPool,
    staged0: Multiset<usize>,
    staged1: Multiset<usize>,
    r: Result<Vec<usize>, ModuleError>,
    mid: PacketPool,
    flushed: Seq<usize>,
) -> bool {
    &&& pool_frame(op, np)
    &&& spec_drained(op, mid, flushed)
    &&& (forall|s: usize| flushed.to_multiset().count(s) > 0 ==> op.is_live(s))
    &&& staged0 == staged1.add(flushed.to_multiset())
    &&& match r {
        Ok(slots) => crate::modules::fresh_burst(mid, np, slots@),
        Err(ModuleError::Nop) => np == mid,
        Err(_) => crate::packet::pool_quiescent(mid, np),
    }
}

impl IoNode {
    /// Flushes every NIC queued for a deferred flush, then takes one burst
    /// of received frames from the first adapter holding any; with nothing
    /// to receive the poll is idle.
    pub fn poll(&mut self, ctx: &Context, pool: &mut PacketPool) -> (r: (
        Result<Vec<usize>, ModuleError>,
        Ghost<(PacketPool, Seq<usize>)>,
    ))
        requires
            old(self).inv(),
            old(self).ready(),
            old(pool).wf(),
            forall|s: usize| old(self).staged().count(s) > 0 ==> old(pool).is_live(s),
            forall|s: usize|
                old(pool).is_live(s) ==> old(pool).spec_packets()[s as int].refcnt >= old(self).staged().count(s),
        ensures
            final(self).inv(),
            final(self).ready(),
            final(self).spec_flush_queue().len() == 0,
            forall|k: int|
                0 <= k < old(self).spec_flush_queue().len() ==> final(self).spec_adapters()[(
                #[trigger] old(self).spec_flush_queue()[k]) as int].spec_staged().len() == 0,
            io_poll_post(
                *old(pool),
                *final(pool),
                old(self).staged(),
                final(self).staged(),
                r.0,
                r.1@.0,
                r.1@.1,
            ),
            r.0 matches Err(e) ==> (e == ModuleError::Nop || e == ModuleError::MemoryError(
                crate::memory::MemoryError::Exhausted,
            )),
    {
        let ghost base_pool = *old(pool);
        let ghost flushed: Seq<usize> = Seq::empty();
        proof {
            broadcast use vstd::seq_lib::group_to_multiset_ensures;

            assert(spec_drained(base_pool, *pool, flushed));
            assert(flushed.to_multiset() =~= Multiset::<usize>::empty());
            assert(old(self).staged() =~= self.staged().add(flushed.to_multiset()));
            assert(self.flush_queue@ =~= old(self).spec_flush_queue().take(
                self.flush_queue@.len() as int,
            ));
        }
        while self.flush_queue.len() > 0
            invariant
                self.inv(),
                self.ready(),
                pool.wf(),
                base_pool.wf(),
                self.flush_queue@.len() <= old(self).spec_flush_queue().len(),
                self.flush_queue@ == old(self).spec_flush_queue().take(
                    self.flush_queue@.len() as int,
                ),
                self.adapters@.len() == old(self).spec_adapters().len(),
                forall|k: int|
                    0 <= k < old(self).spec_flush_queue().len() ==> ((
                    #[trigger] old(self).spec_flush_queue()[k]) as int)
                        < old(self).spec_adapters().len(),
                forall|k: int|
                    self.flush_queue@.len() <= k < old(self).spec_flush_queue().len()
                        ==> self.adapters@[(#[trigger] old(self).spec_flush_queue()[
                    k]) as int].spec_staged().len() == 0,
                pool_frame(base_pool, *pool),
                spec_drained(base_pool, *pool, flushed),
                old(self).staged() == self.staged().add(flushed.to_multiset()),
                forall|s: usize| flushed.to_multiset().count(s) > 0 ==> base_pool.is_live(s),
                forall|s: usize| pool.is_live(s) ==> base_pool.is_live(s),
                forall|s: usize| self.staged().count(s) > 0 ==> pool.is_live(s),
                forall|s: usize|
                    pool.is_live(s) ==> pool.spec_packets()[s as int].refcnt
                        >= self.staged().count(s),
            decreases self.flush_queue@.len(),
        {
            let ghost pre_queue = self.flush_queue@;
            let nic = self.flush_queue.pop().unwrap() as usize;
            self.flush_flags.set(nic, false);
            proof {
                assert(self.flush_queue@ == pre_queue.drop_last());
                assert(pre_queue == old(self).spec_flush_queue().take(pre_queue.len() as int));
                assert(self.flush_queue@ =~= old(self).spec_flush_queue().take(
                    self.flush_queue@.len() as int,
                ));
                assert(pre_queue.last() == old(self).spec_flush_queue()[
                    self.flush_queue@.len() as int]);
            }
            let ghost pre_ads = self.adapters@;
            let ghost pre_pool = *pool;
            let ghost pre_staged = self.staged();
            let ghost pre_flushed = flushed;
            proof {
                assert forall|s: usize|
                    pre_ads[nic as int].staged_ms().count(s) > 0 implies pool.is_live(s) by {
                    lemma_adapters_staged_component(pre_ads, nic as int, s);
                }
                assert forall|s: usize|
                    pool.is_live(s) implies pool.spec_packets()[s as int].refcnt >= pre_ads[
                    nic as int].staged_ms().count(s) by {
                    lemma_adapters_staged_component(pre_ads, nic as int, s);
                }
            }
            let a = &mut self.adapters[nic];
            let ghost a0 = *a;
            a.flush(pool);
            let ghost new_a = self.adapters@[nic as int];
            let ghost a_slots = slots_of(a0.spec_staged());
            proof {
                broadcast use vstd::seq_lib::group_to_multiset_ensures;

                lemma_adapters_staged_update(pre_ads, nic as int, new_a);
                assert(slots_of(new_a.spec_staged()).len() == 0);
                assert(slots_of(new_a.spec_staged()) =~= Seq::<usize>::empty());
                assert(new_a.staged_ms() =~= Multiset::<usize>::empty());
                assert(self.staged().add(new_a.staged_ms()) =~= self.staged());
                assert(self.staged().add(a0.staged_ms()) =~= pre_staged);
                // the released references leave the staged accounting
                assert forall|s: usize|
                    a_slots.to_multiset().count(s) + self.staged().count(s) > 0 implies
                    pre_pool.is_live(s) by {
                    assert(pre_staged.count(s) > 0);
                }
                assert forall|s: usize|
                    pre_pool.is_live(s) implies pre_pool.spec_packets()[s as int].refcnt
                    >= a_slots.to_multiset().count(s) + self.staged().count(s) by {
                    assert(pre_staged.count(s) == a_slots.to_multiset().count(s)
                        + self.staged().count(s));
                }
                crate::packet::lemma_drained_effect(
                    pre_pool,
                    *pool,
                    a_slots,
                    self.staged(),
                );
                crate::packet::lemma_drained_concat(base_pool, pre_pool, *pool, flushed, a_slots);
                flushed = flushed + a_slots;
                vstd::seq_lib::lemma_multiset_commutative(pre_flushed, a_slots);
                assert(flushed.to_multiset() =~= pre_flushed.to_multiset().add(a0.staged_ms()));
                assert(old(self).staged() =~= self.staged().add(a0.staged_ms()).add(
                    pre_flushed.to_multiset(),
                ));
                assert(old(self).staged() =~= self.staged().add(flushed.to_multiset()));
                assert forall|s: usize|
                    flushed.to_multiset().count(s) > 0 implies base_pool.is_live(s) by {
                    if pre_flushed.to_multiset().count(s) == 0 {
                        assert(a_slots.to_multiset().count(s) > 0);
                        assert(pre_pool.is_live(s));
                    }
                }
                assert forall|i: int|
                    0 <= i < self.adapters@.len() implies (#[trigger] self.adapters@[i]).inv()
                    && self.adapters@[i].spec_inited() && self.adapters@[i].spec_started() by {
                    if i != nic {
                        assert(self.adapters@[i] == pre_ads[i]);
                    }
                }
                assert forall|k: int|
                    self.flush_queue@.len() <= k < old(self).spec_flush_queue().len() implies
                    self.adapters@[(#[trigger] old(self).spec_flush_queue()[
                k]) as int].spec_staged().len() == 0 by {
                    let q = old(self).spec_flush_queue()[k] as int;
                    if q != nic {
                        assert(self.adapters@[q] == pre_ads[q]);
                    }
                }
            }
        }
        // receive: first adapter with pending frames wins
        let ghost mid_pool = *pool;
        let n = self.adapters.len();
        let mut i: usize = 0;
        while i < n
            invariant
                self.inv(),
                self.ready(),
                pool.wf(),
                base_pool.wf(),
                n == self.adapters@.len(),
                n == old(self).spec_adapters().len(),
                self.flush_queue@.len() == 0,
                forall|k: int|
                    0 <= k < old(self).spec_flush_queue().len() ==> ((
                    #[trigger] old(self).spec_flush_queue()[k]) as int) < n,
                forall|k: int|
                    0 <= k < old(self).spec_flush_queue().len() ==> self.adapters@[(
                    old(self).spec_flush_queue()[k]) as int].spec_staged().len() == 0,
                0 <= i <= n,
                base_pool == *old(pool),
                *pool == mid_pool,
                spec_drained(base_pool, mid_pool, flushed),
                old(self).staged() == self.staged().add(flushed.to_multiset()),
                forall|s: usize| flushed.to_multiset().count(s) > 0 ==> base_pool.is_live(s),
            decreases n - i,
        {
            let ghost pre_ads = self.adapters@;
            let ghost pre_staged = self.staged();
            let a = &mut self.adapters[i];
            let ghost a0 = *a;
            let r = a.recv(pool);
            let ghost new_a = self.adapters@[i as int];
            proof {
                lemma_adapters_staged_update(pre_ads, i as int, new_a);
                assert(new_a.staged_ms() =~= a0.staged_ms());
                crate::memory::lemma_ms_cancel(self.staged(), pre_staged, a0.staged_ms());
                assert forall|j: int|
                    0 <= j < self.adapters@.len() implies (#[trigger] self.adapters@[j]).inv()
                    && self.adapters@[j].spec_inited() && self.adapters@[j].spec_started() by {
                    if j != i {
                        assert(self.adapters@[j] == pre_ads[j]);
                    }
                }
                assert forall|k: int|
                    0 <= k < old(self).spec_flush_queue().len() implies self.adapters@[(
                #[trigger] old(self).spec_flush_queue()[k]) as int].spec_staged().len() == 0 by {
                    let q = old(self).spec_flush_queue()[k] as int;
                    if q != i {
                        assert(self.adapters@[q] == pre_ads[q]);
                    } else {
                        assert(self.adapters@[q].spec_staged() == pre_ads[q].spec_staged());
                    }
                }
            }
            match r {
                Ok(slots) => {
                    proof {
                        crate::packet::lemma_drained_frame(base_pool, mid_pool, flushed);
                        assert(crate::modules::fresh_burst(mid_pool, *pool, slots@));
                        assert(pool_frame(base_pool, *pool));
                    }
                    return (Ok(slots), Ghost((mid_pool, flushed)));
                },
                Err(ModuleError::Nop) => {
                    proof {
                        assert(*pool == mid_pool);
                    }
                },
                Err(e) => {
                    proof {
                        crate::packet::lemma_drained_frame(base_pool, mid_pool, flushed);
                        assert(crate::packet::pool_quiescent(mid_pool, *pool));
                        assert(pool_frame(base_pool, *pool));
                    }
                    return (Err(e), Ghost((mid_pool, flushed)));
                },
            }
            i = i + 1;
        }
        proof {
            crate::packet::lemma_drained_frame(base_pool, mid_pool, flushed);
        }
        (Err(ModuleError::Nop), Ghost((mid_pool, flushed)))
    }

    /// Shutdown: flushes whatever is still staged on every adapter and
    /// stops each one; afterwards nothing is staged.
    pub fn destroy(&mut self, ctx: &Context, pool: &mut PacketPool) -> (w: Ghost<Seq<usize>>)
        requires
            old(self).inv(),
            old(pool).wf(),
            forall|s: usize| old(self).staged().count(s) > 0 ==> old(pool).is_live(s),
            forall|s: usize|
                old(pool).is_live(s) ==> old(pool).spec_packets()[s as int].refcnt >= old(self).staged().count(s),
        ensures
            final(self).inv(),
            final(self).ready() == old(self).ready(),
            final(self).staged() =~= Multiset::<usize>::empty(),
            old(self).staged() == w@.to_multiset(),
            spec_drained(*old(pool), *final(pool), w@),
            pool_frame(*old(pool), *final(pool)),
    {
        let ghost base_pool = *old(pool);
        let ghost flushed: Seq<usize> = Seq::empty();
        proof {
            broadcast use vstd::seq_lib::group_to_multiset_ensures;

            assert(spec_drained(base_pool, *pool, flushed));
            assert(flushed.to_multiset() =~= Multiset::<usize>::empty());
            assert(old(self).staged() =~= self.staged().add(flushed.to_multiset()));
        }
        let n = self.adapters.len();
        let mut i: usize = 0;
        while i < n
            invariant
                self.inv(),
                pool.wf(),
                base_pool.wf(),
                n == self.adapters@.len(),
                0 <= i <= n,
                spec_drained(base_pool, *pool, flushed),
                old(self).staged() == self.staged().add(flushed.to_multiset()),
                forall|s: usize| pool.is_live(s) ==> base_pool.is_live(s),
                forall|s: usize| self.staged().count(s) > 0 ==> pool.is_live(s),
                forall|s: usize|
                    pool.is_live(s) ==> pool.spec_packets()[s as int].refcnt
                        >= self.staged().count(s),
                forall|j: int|
                    0 <= j < i ==> (#[trigger] self.adapters@[j]).spec_staged().len() == 0,
                forall|j: int|
                    0 <= j < n ==> (#[trigger] self.adapters@[j]).spec_inited() == old(
                        self,
                    ).spec_adapters()[j].spec_inited() && self.adapters@[j].spec_started() == old(
                        self,
                    ).spec_adapters()[j].spec_started(),
            decreases n - i,
        {
            let ghost pre_ads = self.adapters@;
            let ghost pre_pool = *pool;
            let ghost pre_staged = self.staged();
            let ghost pre_flushed = flushed;
            proof {
                assert forall|s: usize|
                    pre_ads[i as int].staged_ms().count(s) > 0 implies pool.is_live(s) by {
                    lemma_adapters_staged_component(pre_ads, i as int, s);
                }
                assert forall|s: usize|
                    pool.is_live(s) implies pool.spec_packets()[s as int].refcnt >= pre_ads[
                    i as int].staged_ms().count(s) by {
                    lemma_adapters_staged_component(pre_ads, i as int, s);
                }
            }
            let a = &mut self.adapters[i];
            let ghost a0 = *a;
            a.flush(pool);
            a.stop(ctx);
            let ghost new_a = self.adapters@[i as int];
            let ghost a_slots = slots_of(a0.spec_staged());
            proof {
                broadcast use vstd::seq_lib::group_to_multiset_ensures;

                lemma_adapters_staged_update(pre_ads, i as int, new_a);
                assert(slots_of(new_a.spec_staged()).len() == 0);
                assert(slots_of(new_a.spec_staged()) =~= Seq::<usize>::empty());
                assert(new_a.staged_ms() =~= Multiset::<usize>::empty());
                assert(self.staged().add(a0.staged_ms()) =~= pre_staged);
                assert forall|s: usize|
                    a_slots.to_multiset().count(s) + self.staged().count(s) > 0 implies
                    pre_pool.is_live(s) by {
                    assert(pre_staged.count(s) > 0);
                }
                assert forall|s: usize|
                    pre_pool.is_live(s) implies pre_pool.spec_packets()[s as int].refcnt
                    >= a_slots.to_multiset().count(s) + self.staged().count(s) by {
                    assert(pre_staged.count(s) == a_slots.to_multiset().count(s)
                        + self.staged().count(s));
                }
                crate::packet::lemma_drained_effect(
                    pre_pool,
                    *pool,
                    a_slots,
                    self.staged(),
                );
                crate::packet::lemma_drained_concat(base_pool, pre_pool, *pool, flushed, a_slots);
                flushed = flushed + a_slots;
                vstd::seq_lib::lemma_multiset_commutative(pre_flushed, a_slots);
                assert(old(self).staged() =~= self.staged().add(flushed.to_multiset()));
                assert forall|j: int|
                    0 <= j < self.adapters@.len() implies (#[trigger] self.adapters@[j]).inv()
                    && self.adapters@[j].spec_inited() == old(self).spec_adapters()[
                    j].spec_inited() && self.adapters@[j].spec_started() == old(
                    self,
                ).spec_adapters()[j].spec_started() by {
                    if j != i {
                        assert(self.adapters@[j] == pre_ads[j]);
                    }
                }
                assert forall|j: int|
                    0 <= j < i + 1 implies (#[trigger] self.adapters@[j]).spec_staged().len()
                    == 0 by {
                    if j != i {
                        assert(self.adapters@[j] == pre_ads[j]);
                    }
                }
            }
            i = i + 1;
        }
        self.flush_queue = Vec::new();
        proof {
            lemma_adapters_staged_empty(self.adapters@);
            assert(self.staged() =~= Multiset::<usize>::empty());
            assert(old(self).staged() =~= flushed.to_multiset());
            crate::packet::lemma_drained_frame(base_pool, *pool, flushed);
            assert(final(self).ready() == old(self).ready()) by {
                if old(self).ready() {
                    assert forall|j: int|
                        0 <= j < self.adapters@.len() implies (#[trigger] self.adapters@[
                    j]).spec_inited() && self.adapters@[j].spec_started() by {
                        assert(old(self).spec_adapters()[j].spec_inited() && old(
                            self,
                        ).spec_adapters()[j].spec_started());
                    }
                } else {
                    let j = choose|j: int|
                        0 <= j < old(self).spec_adapters().len() && !((
                        #[trigger] old(self).spec_adapters()[j]).spec_inited() && old(
                            self,
                        ).spec_adapters()[j].spec_started());
                    assert(!(self.adapters@[j].spec_inited()
                        && self.adapters@[j].spec_started()));
                }
            }
        }
        Ghost(flushed)
    }
}

} // verus!
