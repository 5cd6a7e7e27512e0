//! Packets and the per-socket packet pool.
//!
//! A packet occupies bytes `[offset, len)` of its buffer; headers are
//! stamped downward from `offset` on the send path. `refcnt` counts the
//! outstanding task references; `deallocate` frees the record only on the
//! transition from one reference to none, releasing any driver-owned buffer
//! first. Pools are fixed-size: a packet is addressed by its slot index,
//! and the slot allocator below ([`crate::memory::MemoryPool`]) accounts for
//! every slot.

use vstd::multiset::Multiset;
use vstd::prelude::*;

use crate::memory::{MemoryError, MemoryPool};
use crate::{DEFAULT_OFFSET, PACKET_BUF_SIZE};

verus! {

broadcast use vstd::multiset::group_multiset_axioms;

/// Slots in a full-size packet pool.
pub const PACKET_POOL_SIZE: u32 = 65535;

/// Per-thread cache size used by packet pools.
pub const PACKET_CACHE_SIZE: u32 = 256;

/// Placement of one protocol layer's header: `length` bytes at byte
/// `offset` of the packet buffer.
#[derive(Clone, Copy, Debug, PartialEq, Eq, Structural)]
pub struct Header {
    pub length: u16,
    pub offset: u16,
}

/// Where a packet's buffer lives: embedded in the record, or owned by a
/// driver descriptor (named by an opaque handle) that must be released when
/// the packet dies.
#[derive(Clone, Copy, Debug, PartialEq, Eq, Structural)]
pub enum PktBufType {
    Local,
    Mbuf(u64),
}

/// The central value object of the pipeline.
pub struct Packet {
    /// End of the payload: the packet occupies `[offset, len)` of `buf`.
    pub len: u16,
    pub l2_header: Header,
    pub l3_header: Header,
    pub l4_header: Header,
    /// Start of the payload; headers grow downward from here.
    pub offset: u16,
    /// The data region the cursors index into.
    pub buf: Vec<u8>,
    /// Chains packets of one received burst, by pool slot.
    pub next: Option<usize>,
    /// The interface the packet goes out of (or came in on).
    pub nic: u16,
    /// The destination address the user bound to this packet, as the
    /// network-order bytes loaded into a host `u32`; routing reads it.
    pub dst_addr: u32,
    /// Outstanding task references.
    pub refcnt: usize,
    pub buf_ty: PktBufType,
}

impl Packet {
    /// Cursors stay inside the buffer.
    pub open spec fn wf(&self) -> bool {
        self.offset <= self.len && self.len as int <= self.buf@.len()
    }

    /// A blank local packet: cursors at the default headroom, one
    /// reference, no chain.
    pub fn new() -> (r: Self)
        ensures
            r.wf(),
            r.len == DEFAULT_OFFSET,
            r.offset == DEFAULT_OFFSET,
            r.refcnt == 1,
            r.next is None,
            r.nic == 0,
            r.dst_addr == 0,
            r.buf_ty == PktBufType::Local,
            r.buf@.len() == PACKET_BUF_SIZE,
            forall|i: int| 0 <= i < r.buf@.len() ==> r.buf@[i] == 0u8,
            r.l2_header == (Header { length: 0, offset: 0 }),
            r.l3_header == (Header { length: 0, offset: 0 }),
            r.l4_header == (Header { length: 0, offset: 0 }),
    {
        Packet {
            len: DEFAULT_OFFSET,
            l2_header: Header { length: 0, offset: 0 },
            l3_header: Header { length: 0, offset: 0 },
            l4_header: Header { length: 0, offset: 0 },
            offset: DEFAULT_OFFSET,
            buf: zero_buf(),
            next: None,
            nic: 0,
            dst_addr: 0,
            refcnt: 1,
            buf_ty: PktBufType::Local,
        }
    }

    /// Payload length: bytes between the cursor and the end.
    pub fn len(&self) -> (r: u16)
        requires
            self.offset <= self.len,
        ensures
            r == self.len - self.offset,
    {
        self.len - self.offset
    }

    /// Sets the payload length relative to the current `offset`; set the
    /// offset first.
    pub fn set_len(&mut self, len: u16)
        requires
            old(self).offset + len <= u16::MAX,
        ensures
            final(self).len == len + old(self).offset,
            final(self).offset == old(self).offset,
            final(self).buf == old(self).buf,
            final(self).l2_header == old(self).l2_header,
            final(self).l3_header == old(self).l3_header,
            final(self).l4_header == old(self).l4_header,
            final(self).next == old(self).next,
            final(self).nic == old(self).nic,
            final(self).dst_addr == old(self).dst_addr,
            final(self).refcnt == old(self).refcnt,
            final(self).buf_ty == old(self).buf_ty,
    {
        self.len = len + self.offset;
    }
}

fn zero_buf() -> (r: Vec<u8>)
    ensures
        r@.len() == PACKET_BUF_SIZE,
        forall|i: int| 0 <= i < r@.len() ==> r@[i] == 0u8,
{
    let mut v: Vec<u8> = Vec::new();
    let mut i: usize = 0;
    while i < PACKET_BUF_SIZE
        invariant
            0 <= i <= PACKET_BUF_SIZE,
            v@.len() == i,
            forall|j: int| 0 <= j < i ==> v@[j] == 0u8,
        decreases PACKET_BUF_SIZE - i,
    {
        v.push(0u8);
        i = i + 1;
    }
    v
}

/// One socket's packet pool: a slot allocator plus the packet records the
/// slots address. `released` records every driver buffer handle given back
/// on a final free, and `double_frees` counts frees of a packet that had no
/// reference left (an error the pool absorbs).
pub struct PacketPool {
    socket_id: u32,
    thread_id: u32,
    mp: MemoryPool,
    packets: Vec<Packet>,
    released: Vec<u64>,
    double_frees: usize,
}

impl PacketPool {
    pub closed spec fn spec_socket_id(&self) -> u32 {
        self.socket_id
    }

    pub closed spec fn spec_thread_id(&self) -> u32 {
        self.thread_id
    }

    /// Total number of packet slots.
    pub open spec fn capacity(&self) -> nat {
        self.spec_packets().len()
    }

    /// Number of slots currently free.
    pub closed spec fn free_len(&self) -> nat {
        self.mp.free_len()
    }

    /// Free slots the owning thread can reach: its cache plus the shared
    /// store. Allocation fails exactly when this is zero.
    pub closed spec fn avail(&self) -> nat {
        self.mp.avail_to(self.spec_thread_id())
    }

    /// Number of live (allocated) packets; never exceeds the capacity.
    pub open spec fn live_len(&self) -> int {
        self.capacity() - self.free_len()
    }

    /// Whether the slot allocator counts `slot` free.
    pub closed spec fn spec_slot_free(&self, slot: usize) -> bool {
        self.mp.is_free(slot)
    }

    /// Whether `slot` holds a live packet.
    pub open spec fn is_live(&self, slot: usize) -> bool {
        slot < self.capacity() && !self.spec_slot_free(slot)
    }

    /// The packet records, indexed by slot (free slots hold stale records).
    pub closed spec fn spec_packets(&self) -> Seq<Packet> {
        self.packets@
    }

    /// Driver buffer handles released so far, oldest first.
    pub closed spec fn spec_released(&self) -> Seq<u64> {
        self.released@
    }

    /// Frees observed with no reference outstanding.
    pub closed spec fn spec_double_frees(&self) -> nat {
        self.double_frees as nat
    }

    pub closed spec fn wf(&self) -> bool {
        &&& self.mp.wf()
        &&& self.mp.capacity() == self.packets@.len()
    }

    /// A pool of `n` slots, every slot free, with a cache for the owning
    /// thread.
    pub fn with_capacity(socket_id: u32, thread_id: u32, n: u32) -> (r: Self)
        ensures
            r.wf(),
            r.capacity() == n,
            r.free_len() == n,
            r.spec_socket_id() == socket_id,
            r.spec_thread_id() == thread_id,
            r.spec_released().len() == 0,
            r.spec_double_frees() == 0,
            forall|s: usize| !r.is_live(s),
    {
        let mut packets: Vec<Packet> = Vec::new();
        let mut i: usize = 0;
        while i < n as usize
            invariant
                0 <= i <= n as usize,
                packets@.len() == i,
            decreases n as usize - i,
        {
            packets.push(Packet::new());
            i = i + 1;
        }
        let mut mp = MemoryPool::new(n, 1, socket_id);
        mp.create_cache(PACKET_CACHE_SIZE, thread_id);
        let r = PacketPool {
            socket_id,
            thread_id,
            mp,
            packets,
            released: Vec::new(),
            double_frees: 0,
        };
        proof {
            assert forall|s: usize| !r.is_live(s) by {
                if s < r.capacity() {
                    assert(r.mp.free_ms().count(s) == 1nat);
                }
            }
        }
        r
    }

    /// Draws a fresh packet: one reference, cursors at the default
    /// headroom, a zeroed local buffer, no chain. Fails exactly when the
    /// owning thread can reach no free slot.
    pub fn allocate(&mut self) -> (r: Result<usize, MemoryError>)
        requires
            old(self).wf(),
        ensures
            final(self).wf(),
            final(self).capacity() == old(self).capacity(),
            final(self).spec_socket_id() == old(self).spec_socket_id(),
            final(self).spec_thread_id() == old(self).spec_thread_id(),
            final(self).spec_released() == old(self).spec_released(),
            final(self).spec_double_frees() == old(self).spec_double_frees(),
            match r {
                Ok(slot) => {
                    &&& slot < old(self).capacity()
                    &&& !old(self).is_live(slot)
                    &&& final(self).is_live(slot)
                    &&& forall|s: usize|
                        s != slot ==> final(self).is_live(s) == old(self).is_live(s)
                    &&& final(self).free_len() == old(self).free_len() - 1
                    &&& final(self).avail() == old(self).avail() - 1
                    &&& final(self).spec_packets() == old(self).spec_packets().update(
                        slot as int,
                        final(self).spec_packets()[slot as int],
                    )
                    &&& is_fresh_packet(final(self).spec_packets()[slot as int])
                },
                Err(e) => {
                    &&& e == MemoryError::Exhausted
                    &&& old(self).avail() == 0
                    &&& final(self).avail() == 0
                    &&& final(self).free_len() == old(self).free_len()
                    &&& final(self).spec_packets() == old(self).spec_packets()
                    &&& forall|s: usize| final(self).is_live(s) == old(self).is_live(s)
                },
            },
    {
        match self.mp.allocate_one(self.thread_id) {
            Ok(slot) => {
                reset_packet(&mut self.packets, slot);
                proof {
                    assert(final(self).is_live(slot));
                    assert forall|s: usize|
                        s != slot implies self.is_live(s) == old(self).is_live(s) by {
                        assert(self.mp.free_ms().count(s) == old(self).mp.free_ms().remove(
                            slot,
                        ).count(s));
                    }
                }
                Ok(slot)
            },
            Err(e) => {
                proof {
                    assert(forall|s: usize| self.is_live(s) == old(self).is_live(s));
                }
                Err(e)
            },
        }
    }

    /// Bulk allocation: `n` fresh packets or none. On failure every slot
    /// taken so far is returned, and the free count is as before.
    /// Bulk allocation: `n` fresh packets or none. On failure every slot
    /// taken so far is returned, and the pool's live set is as before.
    pub fn allocate_many(&mut self, n: u32) -> (r: Result<Vec<usize>, MemoryError>)
        requires
            old(self).wf(),
        ensures
            final(self).wf(),
            final(self).capacity() == old(self).capacity(),
            final(self).spec_socket_id() == old(self).spec_socket_id(),
            final(self).spec_thread_id() == old(self).spec_thread_id(),
            final(self).spec_released() == old(self).spec_released(),
            final(self).spec_double_frees() == old(self).spec_double_frees(),
            match r {
                Ok(slots) => {
                    &&& slots@.len() == n
                    &&& forall|k: int, l: int| 0 <= k < l < slots@.len() ==> slots@[k] != slots@[l]
                    &&& forall|k: int|
                        0 <= k < slots@.len() ==> {
                            &&& (#[trigger] slots@[k]) < old(self).capacity()
                            &&& !old(self).is_live(slots@[k])
                            &&& final(self).is_live(slots@[k])
                            &&& is_fresh_packet(final(self).spec_packets()[slots@[k] as int])
                        }
                    &&& forall|s: usize|
                        !slots@.contains(s) ==> final(self).is_live(s) == old(self).is_live(s)
                    &&& forall|s: usize|
                        s < old(self).capacity() && !slots@.contains(s)
                            ==> final(self).spec_packets()[s as int] == old(self).spec_packets()[s as int]
                    &&& final(self).free_len() == old(self).free_len() - n
                    &&& final(self).avail() == old(self).avail() - n
                },
                Err(e) => {
                    &&& e == MemoryError::Exhausted
                    &&& old(self).avail() < n
                    &&& final(self).avail() == old(self).avail()
                    &&& final(self).free_len() == old(self).free_len()
                    &&& forall|s: usize| final(self).is_live(s) == old(self).is_live(s)
                    &&& forall|s: usize|
                        old(self).is_live(s) ==> final(self).spec_packets()[s as int] == old(self).spec_packets()[s as int]
                },
            },
    {
        let mut slots: Vec<usize> = Vec::new();
        let mut k: usize = 0;
        while k < n as usize
            invariant
                self.wf(),
                0 <= k <= n as usize,
                slots@.len() == k,
                self.capacity() == old(self).capacity(),
                self.spec_socket_id() == old(self).spec_socket_id(),
                self.spec_thread_id() == old(self).spec_thread_id(),
                self.spec_released() == old(self).spec_released(),
                self.spec_double_frees() == old(self).spec_double_frees(),
                self.free_len() == old(self).free_len() - k,
                self.avail() == old(self).avail() - k,
                forall|a: int, b: int| 0 <= a < b < k ==> slots@[a] != slots@[b],
                forall|a: int|
                    0 <= a < k ==> {
                        &&& (#[trigger] slots@[a]) < old(self).capacity()
                        &&& !old(self).is_live(slots@[a])
                        &&& self.is_live(slots@[a])
                        &&& is_fresh_packet(self.spec_packets()[slots@[a] as int])
                    },
                forall|s: usize| !slots@.contains(s) ==> self.is_live(s) == old(self).is_live(s),
                forall|s: usize|
                    s < old(self).capacity() && !slots@.contains(s)
                        ==> self.spec_packets()[s as int] == old(self).spec_packets()[s as int],
            decreases n as usize - k,
        {
            let ghost pre_self = *self;
            let ghost pre_slots = slots@;
            match self.allocate() {
                Ok(slot) => {
                    slots.push(slot);
                    proof {
                        assert(slots@ =~= pre_slots.push(slot));
                        assert(!pre_slots.contains(slot)) by {
                            if pre_slots.contains(slot) {
                                let a = choose|a: int|
                                    0 <= a < pre_slots.len() && pre_slots[a] == slot;
                                assert(pre_self.is_live(pre_slots[a]));
                            }
                        }
                        assert(!old(self).is_live(slot));
                        assert forall|a: int|
                            0 <= a < k + 1 implies {
                            &&& (#[trigger] slots@[a]) < old(self).capacity()
                            &&& !old(self).is_live(slots@[a])
                            &&& self.is_live(slots@[a])
                            &&& is_fresh_packet(self.spec_packets()[slots@[a] as int])
                        } by {
                            if a < k {
                                assert(slots@[a] == pre_slots[a]);
                                assert(pre_slots[a] != slot);
                                assert(self.spec_packets()[slots@[a] as int]
                                    == pre_self.spec_packets()[slots@[a] as int]);
                            }
                        }
                        assert forall|s: usize|
                            !slots@.contains(s)
                            implies self.is_live(s) == old(self).is_live(s) by {
                            if pre_slots.contains(s) {
                                let a = choose|a: int|
                                    0 <= a < pre_slots.len() && pre_slots[a] == s;
                                assert(slots@[a] == s);
                            }
                            assert(slots@[k as int] == slot);
                            assert(s != slot);
                        }
                        assert forall|s: usize|
                            s < old(self).capacity() && !slots@.contains(s)
                            implies self.spec_packets()[s as int]
                            == old(self).spec_packets()[s as int] by {
                            if pre_slots.contains(s) {
                                let a = choose|a: int|
                                    0 <= a < pre_slots.len() && pre_slots[a] == s;
                                assert(slots@[a] == s);
                            }
                            assert(slots@[k as int] == slot);
                            assert(s != slot);
                        }
                    }
                },
                Err(_) => {
                    // roll the taken slots back so the bulk call is all-or-nothing
                    let mut j: usize = 0;
                    while j < slots.len()
                        invariant
                            self.wf(),
                            0 <= j <= slots@.len(),
                            slots@.len() == k,
                            k <= n as usize,
                            self.capacity() == old(self).capacity(),
                            self.spec_socket_id() == old(self).spec_socket_id(),
                            self.spec_thread_id() == old(self).spec_thread_id(),
                            self.spec_released() == old(self).spec_released(),
                            self.spec_double_frees() == old(self).spec_double_frees(),
                            self.free_len() == old(self).free_len() - k + j,
                            self.avail() == old(self).avail() - k + j,
                            old(self).avail() < n,
                            forall|a: int, b: int| 0 <= a < b < k ==> slots@[a] != slots@[b],
                            forall|a: int|
                                0 <= a < k ==> (#[trigger] slots@[a]) < old(self).capacity()
                                    && !old(self).is_live(slots@[a]),
                            forall|a: int| 0 <= a < j ==> !self.is_live(#[trigger] slots@[a]),
                            forall|a: int| j <= a < k ==> self.is_live(#[trigger] slots@[a]),
                            forall|s: usize|
                                !slots@.contains(s) ==> self.is_live(s) == old(self).is_live(s),
                            forall|s: usize|
                                s < old(self).capacity() && !slots@.contains(s)
                                    ==> self.spec_packets()[s as int] == old(self).spec_packets()[s as int],
                        decreases slots@.len() - j,
                    {
                        let ghost mid_self = *self;
                        let s = slots[j];
                        self.release_slot(s);
                        proof {
                            assert forall|a: int|
                                0 <= a < k && a != j implies self.is_live(#[trigger] slots@[a])
                                == mid_self.is_live(slots@[a]) by {
                                assert(slots@[a] != s);
                            }
                            assert forall|s2: usize|
                                !slots@.contains(s2)
                                implies self.is_live(s2) == old(self).is_live(s2) by {
                                assert(s2 != s);
                            }
                        }
                        j = j + 1;
                    }
                    proof {
                        assert forall|s: usize| self.is_live(s) == old(self).is_live(s) by {
                            if slots@.contains(s) {
                                let a = choose|a: int|
                                    0 <= a < slots@.len() && slots@[a] == s;
                                assert(!self.is_live(slots@[a]));
                                assert(!old(self).is_live(slots@[a]));
                            }
                        }
                        assert forall|s: usize|
                            old(self).is_live(s)
                            implies self.spec_packets()[s as int]
                            == old(self).spec_packets()[s as int] by {
                            assert(!slots@.contains(s));
                        }
                    }
                    return Err(MemoryError::Exhausted);
                },
            }
            k = k + 1;
        }
        Ok(slots)
    }

    /// Gives one slot back to the allocator (bulk-rollback helper).
    fn release_slot(&mut self, slot: usize)
        requires
            old(self).wf(),
            old(self).is_live(slot),
        ensures
            final(self).wf(),
            final(self).capacity() == old(self).capacity(),
            final(self).spec_socket_id() == old(self).spec_socket_id(),
            final(self).spec_thread_id() == old(self).spec_thread_id(),
            final(self).spec_released() == old(self).spec_released(),
            final(self).spec_double_frees() == old(self).spec_double_frees(),
            final(self).spec_packets() == old(self).spec_packets(),
            final(self).free_len() == old(self).free_len() + 1,
            final(self).avail() == old(self).avail() + 1,
            !final(self).is_live(slot),
            forall|s: usize| s != slot ==> final(self).is_live(s) == old(self).is_live(s),
    {
        proof {
            old(self).mp.lemma_wf_counts();
            assert(old(self).mp.free_ms().count(slot) == 0);
        }
        let tid = self.thread_id;
        self.mp.deallocate_one(slot, tid);
        proof {
            assert(self.mp.free_ms().count(slot) == 1);
            assert forall|s: usize|
                s != slot implies self.is_live(s) == old(self).is_live(s) by {
                assert(self.mp.free_ms().count(s) == old(self).mp.free_ms().insert(slot).count(s));
            }
        }
    }

    /// Adds `k` references to a live packet before fan-out: the worker
    /// raises the count by one less than the number of successor tasks it
    /// pushes.
    pub fn add_refs(&mut self, slot: usize, k: usize)
        requires
            old(self).wf(),
            old(self).is_live(slot),
            old(self).spec_packets()[slot as int].refcnt + k <= usize::MAX,
        ensures
            final(self).wf(),
            final(self).capacity() == old(self).capacity(),
            final(self).spec_socket_id() == old(self).spec_socket_id(),
            final(self).spec_thread_id() == old(self).spec_thread_id(),
            final(self).free_len() == old(self).free_len(),
            forall|s: usize| final(self).is_live(s) == old(self).is_live(s),
            final(self).spec_released() == old(self).spec_released(),
            final(self).spec_double_frees() == old(self).spec_double_frees(),
            final(self).spec_packets() == old(self).spec_packets().update(
                slot as int,
                final(self).spec_packets()[slot as int],
            ),
            final(self).spec_packets()[slot as int].refcnt == old(self).spec_packets()[slot as int].refcnt + k,
            packet_same_but_refcnt(
                old(self).spec_packets()[slot as int],
                final(self).spec_packets()[slot as int],
            ),
    {
        let rc = self.packets[slot].refcnt;
        set_refcnt(&mut self.packets, slot, rc + k);
    }

    /// Releases one reference to a live packet.
    ///
    /// With one reference left the packet dies: any driver buffer handle is
    /// released and the slot returns to the allocator. With none left the
    /// free is counted as a double free and absorbed. Otherwise the
    /// reference count just drops by one.
    pub fn deallocate(&mut self, slot: usize)
        requires
            old(self).wf(),
            old(self).is_live(slot),
        ensures
            spec_deallocated(*old(self), *final(self), slot),
    {
        let rc = self.packets[slot].refcnt;
        if rc == 1 {
            let buf_ty = self.packets[slot].buf_ty;
            match buf_ty {
                PktBufType::Mbuf(h) => {
                    self.released.push(h);
                },
                PktBufType::Local => {},
            }
            set_refcnt(&mut self.packets, slot, 0);
            proof {
                old(self).mp.lemma_wf_counts();
                assert(old(self).mp.free_ms().count(slot) == 0);
            }
            let tid = self.thread_id;
            self.mp.deallocate_one(slot, tid);
            proof {
                assert(self.mp.free_ms().count(slot) == 1);
                assert forall|s: usize|
                    s != slot implies self.is_live(s) == old(self).is_live(s) by {
                    assert(self.mp.free_ms().count(s) == old(self).mp.free_ms().insert(
                        slot,
                    ).count(s));
                }
            }
        } else if rc == 0 {
            // a free with no reference left: counted, otherwise ignored
            self.double_frees = if self.double_frees == usize::MAX {
                self.double_frees
            } else {
                self.double_frees + 1
            };
        } else {
            set_refcnt(&mut self.packets, slot, rc - 1);
        }
    }
}

/// What a freshly allocated packet looks like.
pub open spec fn is_fresh_packet(p: Packet) -> bool {
    &&& p.wf()
    &&& p.refcnt == 1
    &&& p.next is None
    &&& p.offset == DEFAULT_OFFSET
    &&& p.len == DEFAULT_OFFSET
    &&& p.nic == 0
    &&& p.dst_addr == 0
    &&& p.buf_ty == PktBufType::Local
    &&& p.buf@.len() == PACKET_BUF_SIZE
}

/// Identity facts every pool operation preserves.
pub open spec fn pool_frame(o: PacketPool, n: PacketPool) -> bool {
    &&& n.wf()
    &&& n.capacity() == o.capacity()
    &&& n.spec_socket_id() == o.spec_socket_id()
    &&& n.spec_thread_id() == o.spec_thread_id()
}

/// The pool after a mutation of the packet record at `slot` alone: no
/// allocation state changes, and the record keeps its reference count.
pub open spec fn pool_mutated_at(o: PacketPool, n: PacketPool, slot: usize) -> bool {
    &&& pool_frame(o, n)
    &&& n.free_len() == o.free_len()
    &&& forall|s: usize| n.is_live(s) == o.is_live(s)
    &&& n.spec_released() == o.spec_released()
    &&& n.spec_double_frees() == o.spec_double_frees()
    &&& n.spec_packets() == o.spec_packets().update(slot as int, n.spec_packets()[slot as int])
    &&& n.spec_packets()[slot as int].refcnt == o.spec_packets()[slot as int].refcnt
}

/// The pool after one `deallocate(slot)` call on a live `slot`: the record's
/// reference count decides whether the slot dies, the free was spurious, or
/// a reference is simply released.
pub open spec fn spec_deallocated(o: PacketPool, n: PacketPool, slot: usize) -> bool {
    &&& pool_frame(o, n)
    &&& (o.spec_packets()[slot as int].refcnt == 1 ==> {
        &&& !n.is_live(slot)
        &&& n.free_len() == o.free_len() + 1
        &&& n.spec_packets() == o.spec_packets().update(
            slot as int,
            n.spec_packets()[slot as int],
        )
        &&& n.spec_packets()[slot as int].refcnt == 0
        &&& (match o.spec_packets()[slot as int].buf_ty {
            PktBufType::Mbuf(h) => n.spec_released() == o.spec_released().push(h),
            PktBufType::Local => n.spec_released() == o.spec_released(),
        })
        &&& n.spec_double_frees() == o.spec_double_frees()
    })
    &&& (o.spec_packets()[slot as int].refcnt == 0 ==> {
        &&& n.spec_packets() == o.spec_packets()
        &&& n.free_len() == o.free_len()
        &&& n.spec_released() == o.spec_released()
        &&& n.spec_double_frees() == if o.spec_double_frees() == usize::MAX {
            o.spec_double_frees()
        } else {
            o.spec_double_frees() + 1
        }
    })
    &&& (o.spec_packets()[slot as int].refcnt >= 2 ==> {
        &&& n.spec_packets() == o.spec_packets().update(
            slot as int,
            n.spec_packets()[slot as int],
        )
        &&& n.spec_packets()[slot as int].refcnt == o.spec_packets()[slot as int].refcnt - 1
        &&& packet_same_but_refcnt(
            o.spec_packets()[slot as int],
            n.spec_packets()[slot as int],
        )
        &&& n.free_len() == o.free_len()
        &&& n.spec_released() == o.spec_released()
        &&& n.spec_double_frees() == o.spec_double_frees()
    })
    &&& forall|s: usize| s != slot ==> n.is_live(s) == o.is_live(s)
    &&& (o.spec_packets()[slot as int].refcnt != 1 ==> forall|s: usize|
        n.is_live(s) == o.is_live(s))
}

/// The pool after releasing one reference per element of `slots`, in order:
/// the free callbacks a burst flush runs.
pub open spec fn spec_drained(o: PacketPool, n: PacketPool, slots: Seq<usize>) -> bool
    decreases slots.len(),
{
    if slots.len() == 0 {
        n == o
    } else {
        exists|mid: PacketPool|
            {
                &&& o.is_live(slots.first())
                &&& #[trigger] spec_deallocated(o, mid, slots.first())
                &&& spec_drained(mid, n, slots.drop_first())
            }
    }
}

/// A pool whose observable allocation state did not move: same live set,
/// same free count, live records untouched (records in free slots may be
/// stale).
pub open spec fn pool_quiescent(o: PacketPool, n: PacketPool) -> bool {
    &&& pool_frame(o, n)
    &&& n.free_len() == o.free_len()
    &&& (forall|s: usize| n.is_live(s) == o.is_live(s))
    &&& (forall|s: usize|
        o.is_live(s) ==> n.spec_packets()[s as int] == o.spec_packets()[s as int])
    &&& n.spec_released() == o.spec_released()
    &&& n.spec_double_frees() == o.spec_double_frees()
}

/// A drain never invents or destroys anything but the released
/// references: the pool keeps its frame.
pub proof fn lemma_drained_frame(o: PacketPool, n: PacketPool, slots: Seq<usize>)
    requires
        o.wf(),
        spec_drained(o, n, slots),
    ensures
        pool_frame(o, n),
    decreases slots.len(),
{
    if slots.len() == 0 {
        assert(n == o);
    } else {
        let mid = choose|mid: PacketPool|
            {
                &&& o.is_live(slots.first())
                &&& #[trigger] spec_deallocated(o, mid, slots.first())
                &&& spec_drained(mid, n, slots.drop_first())
            };
        lemma_drained_frame(mid, n, slots.drop_first());
    }
}

/// The exact effect of a drain on reference counts, given that every
/// reference it releases was accounted for: each packet loses exactly its
/// drained references, dies exactly when none of its `extra` references
/// remain, and is untouched otherwise.
pub proof fn lemma_drained_effect(
    o: PacketPool,
    n: PacketPool,
    slots: Seq<usize>,
    extra: Multiset<usize>,
)
    requires
        o.wf(),
        spec_drained(o, n, slots),
        forall|s: usize|
            slots.to_multiset().count(s) + extra.count(s) > 0 ==> o.is_live(s),
        forall|s: usize|
            o.is_live(s) ==> o.spec_packets()[s as int].refcnt >= slots.to_multiset().count(s)
                + extra.count(s),
    ensures
        pool_frame(o, n),
        forall|s: usize| extra.count(s) > 0 ==> n.is_live(s),
        forall|s: usize| n.is_live(s) ==> o.is_live(s),
        forall|s: usize|
            n.is_live(s) ==> n.spec_packets()[s as int].refcnt == o.spec_packets()[s as int].refcnt - slots.to_multiset().count(s),
        forall|s: usize|
            n.is_live(s) ==> n.spec_packets()[s as int].refcnt >= extra.count(s),
        forall|s: usize|
            n.is_live(s) && slots.to_multiset().count(s) == 0 ==> n.spec_packets()[s as int]
                == o.spec_packets()[s as int],
        forall|s: usize|
            o.is_live(s) && !n.is_live(s) ==> o.spec_packets()[s as int].refcnt
                == slots.to_multiset().count(s) && extra.count(s) == 0,
        forall|s: usize|
            n.is_live(s) ==> packet_same_but_refcnt(
                o.spec_packets()[s as int],
                n.spec_packets()[s as int],
            ),
        n.spec_double_frees() == o.spec_double_frees(),
    decreases slots.len(),
{
    broadcast use vstd::seq_lib::group_to_multiset_ensures, vstd::multiset::group_multiset_axioms;

    if slots.len() == 0 {
        assert(n == o);
        assert forall|s: usize| n.is_live(s) implies packet_same_but_refcnt(
            o.spec_packets()[s as int],
            n.spec_packets()[s as int],
        ) by {}
    } else {
        let f = slots.first();
        let rest = slots.drop_first();
        let mid = choose|mid: PacketPool|
            {
                &&& o.is_live(slots.first())
                &&& #[trigger] spec_deallocated(o, mid, slots.first())
                &&& spec_drained(mid, n, slots.drop_first())
            };
        assert(slots =~= rest.insert(0, f));
        assert(slots.remove(0) =~= rest);
        assert(slots.to_multiset().remove(f) =~= rest.to_multiset()) by {
            assert(slots.remove(0).to_multiset() =~= slots.to_multiset().remove(slots[0]));
        }
        assert(slots.to_multiset().count(f) >= 1) by {
            assert(slots.contains(f));
        }
        let rc = o.spec_packets()[f as int].refcnt;
        assert(rc >= slots.to_multiset().count(f) + extra.count(f));
        assert(rc >= 1);
        if rc == 1 {
            assert(slots.to_multiset().count(f) == 1 && extra.count(f) == 0);
            assert(!mid.is_live(f));
        } else {
            assert(mid.is_live(f));
            assert(mid.spec_packets()[f as int].refcnt == rc - 1);
        }
        assert forall|s: usize|
            rest.to_multiset().count(s) + extra.count(s) > 0 implies mid.is_live(s) by {
            if s == f {
                assert(rest.to_multiset().count(s) + extra.count(s) <= rc - 1);
            } else {
                assert(slots.to_multiset().count(s) + extra.count(s) > 0);
                assert(o.is_live(s));
                assert(mid.is_live(s) == o.is_live(s));
            }
        }
        assert forall|s: usize|
            mid.is_live(s) implies mid.spec_packets()[s as int].refcnt >= rest.to_multiset().count(
            s,
        ) + extra.count(s) by {
            if s == f {
            } else {
                assert(o.is_live(s));
                assert(mid.spec_packets()[s as int] == o.spec_packets()[s as int]);
            }
        }
        lemma_drained_effect(mid, n, rest, extra);
        assert forall|s: usize|
            n.is_live(s) implies n.spec_packets()[s as int].refcnt == o.spec_packets()[
            s as int].refcnt - slots.to_multiset().count(s) by {
            assert(mid.is_live(s));
            if s == f {
            } else {
                assert(mid.spec_packets()[s as int] == o.spec_packets()[s as int]);
            }
        }
        assert forall|s: usize|
            n.is_live(s) && slots.to_multiset().count(s) == 0 implies n.spec_packets()[s as int]
            == o.spec_packets()[s as int] by {
            assert(s != f);
            assert(mid.spec_packets()[s as int] == o.spec_packets()[s as int]);
        }
        assert forall|s: usize|
            o.is_live(s) && !n.is_live(s) implies o.spec_packets()[s as int].refcnt
            == slots.to_multiset().count(s) && extra.count(s) == 0 by {
            if s == f {
                if mid.is_live(s) {
                    assert(mid.spec_packets()[s as int].refcnt == rc - 1);
                    assert(rc - 1 == rest.to_multiset().count(s) && extra.count(s) == 0);
                } else {
                    assert(rc == 1);
                }
            } else {
                assert(mid.is_live(s) == o.is_live(s));
                assert(mid.spec_packets()[s as int] == o.spec_packets()[s as int]);
            }
        }
        assert forall|s: usize|
            n.is_live(s) implies packet_same_but_refcnt(
            o.spec_packets()[s as int],
            n.spec_packets()[s as int],
        ) by {
            assert(mid.is_live(s));
            if s == f {
                assert(packet_same_but_refcnt(
                    o.spec_packets()[s as int],
                    mid.spec_packets()[s as int],
                ));
            } else {
                assert(mid.spec_packets()[s as int] == o.spec_packets()[s as int]);
            }
            assert(packet_same_but_refcnt(
                mid.spec_packets()[s as int],
                n.spec_packets()[s as int],
            ));
        }
    }
}

/// Two record mutations at one slot compose.
pub proof fn lemma_mutated_trans(a: PacketPool, b: PacketPool, c: PacketPool, slot: usize)
    requires
        slot < a.capacity(),
        pool_mutated_at(a, b, slot),
        pool_mutated_at(b, c, slot),
    ensures
        pool_mutated_at(a, c, slot),
{
    assert(c.spec_packets() =~= a.spec_packets().update(slot as int, c.spec_packets()[slot as int]));
}

/// One release is a drain of one element.
pub proof fn lemma_drained_one(o: PacketPool, n: PacketPool, slot: usize)
    requires
        o.is_live(slot),
        spec_deallocated(o, n, slot),
    ensures
        spec_drained(o, n, seq![slot]),
{
    let slots = seq![slot];
    assert(slots.first() == slot);
    assert(slots.drop_first() =~= Seq::<usize>::empty());
    assert(spec_drained(n, n, slots.drop_first()));
}

/// Drains compose: draining `xs` and then `ys` drains `xs + ys`.
pub proof fn lemma_drained_concat(o: PacketPool, m: PacketPool, n: PacketPool, xs: Seq<usize>, ys: Seq<usize>)
    requires
        spec_drained(o, m, xs),
        spec_drained(m, n, ys),
    ensures
        spec_drained(o, n, xs + ys),
    decreases xs.len(),
{
    if xs.len() == 0 {
        assert(m == o);
        assert(xs + ys =~= ys);
    } else {
        let mid = choose|mid: PacketPool|
            {
                &&& o.is_live(xs.first())
                &&& #[trigger] spec_deallocated(o, mid, xs.first())
                &&& spec_drained(mid, m, xs.drop_first())
            };
        lemma_drained_concat(mid, m, n, xs.drop_first(), ys);
        assert((xs + ys).first() == xs.first());
        assert((xs + ys).drop_first() =~= xs.drop_first() + ys);
        assert(spec_drained(o, n, xs + ys)) by {
            assert(spec_deallocated(o, mid, (xs + ys).first()));
            assert(spec_drained(mid, n, (xs + ys).drop_first()));
        }
    }
}

/// Draining one more element extends the drained prefix.
pub proof fn lemma_drained_snoc(o: PacketPool, m: PacketPool, n: PacketPool, xs: Seq<usize>, y: usize)
    requires
        spec_drained(o, m, xs),
        m.is_live(y),
        spec_deallocated(m, n, y),
    ensures
        spec_drained(o, n, xs.push(y)),
{
    lemma_drained_one(m, n, y);
    lemma_drained_concat(o, m, n, xs, seq![y]);
    assert(xs.push(y) =~= xs + seq![y]);
}

/// Two packet records that differ at most in their reference count.
pub open spec fn packet_same_but_refcnt(a: Packet, b: Packet) -> bool {
    &&& b.len == a.len
    &&& b.l2_header == a.l2_header
    &&& b.l3_header == a.l3_header
    &&& b.l4_header == a.l4_header
    &&& b.offset == a.offset
    &&& b.buf == a.buf
    &&& b.next == a.next
    &&& b.nic == a.nic
    &&& b.dst_addr == a.dst_addr
    &&& b.buf_ty == a.buf_ty
}

fn reset_packet(packets: &mut Vec<Packet>, slot: usize)
    requires
        slot < old(packets)@.len(),
    ensures
        final(packets)@.len() == old(packets)@.len(),
        final(packets)@ == old(packets)@.update(slot as int, final(packets)@[slot as int]),
        is_fresh_packet(final(packets)@[slot as int]),
{
    let p = &mut packets[slot];
    *p = Packet::new();
}

fn set_refcnt(packets: &mut Vec<Packet>, slot: usize, rc: usize)
    requires
        slot < old(packets)@.len(),
    ensures
        final(packets)@.len() == old(packets)@.len(),
        final(packets)@ == old(packets)@.update(slot as int, final(packets)@[slot as int]),
        final(packets)@[slot as int].refcnt == rc,
        packet_same_but_refcnt(old(packets)@[slot as int], final(packets)@[slot as int]),
{
    let p = &mut packets[slot];
    p.refcnt = rc;
}

/// The per-socket registry of packet pools: `get_or_create` is idempotent
/// by socket.
pub struct PacketPools {
    pools: Vec<PacketPool>,
}

impl PacketPools {
    pub closed spec fn spec_pools(&self) -> Seq<PacketPool> {
        self.pools@
    }

    pub closed spec fn wf(&self) -> bool {
        &&& forall|i: int| 0 <= i < self.pools@.len() ==> (#[trigger] self.pools@[i]).wf()
        &&& forall|i: int, j: int|
            0 <= i < j < self.pools@.len() ==> self.pools@[i].spec_socket_id()
                != self.pools@[j].spec_socket_id()
    }

    pub fn new() -> (r: Self)
        ensures
            r.wf(),
            r.spec_pools().len() == 0,
    {
        PacketPools { pools: Vec::new() }
    }

    /// The pool for `socket_id`, created on first use: successive calls on
    /// one socket return the same index and leave the registry unchanged.
    pub fn get_or_create(&mut self, socket_id: u32, thread_id: u32) -> (idx: usize)
        requires
            old(self).wf(),
        ensures
            final(self).wf(),
            forall|a: int, b: int|
                0 <= a < b < final(self).spec_pools().len() ==> final(self).spec_pools()[
                    a
                ].spec_socket_id() != final(self).spec_pools()[b].spec_socket_id(),
            idx < final(self).spec_pools().len(),
            final(self).spec_pools()[idx as int].spec_socket_id() == socket_id,
            (exists|i: int|
                0 <= i < old(self).spec_pools().len() && old(self).spec_pools()[i].spec_socket_id()
                    == socket_id) ==> final(self).spec_pools() == old(self).spec_pools(),
            (forall|i: int|
                0 <= i < old(self).spec_pools().len()
                    ==> old(self).spec_pools()[i].spec_socket_id() != socket_id) ==> {
                &&& final(self).spec_pools().len() == old(self).spec_pools().len() + 1
                &&& idx == old(self).spec_pools().len()
                &&& forall|i: int|
                    0 <= i < old(self).spec_pools().len() ==> final(self).spec_pools()[i] == old(
                        self,
                    ).spec_pools()[i]
                &&& final(self).spec_pools()[idx as int].capacity() == PACKET_POOL_SIZE
                &&& final(self).spec_pools()[idx as int].free_len() == PACKET_POOL_SIZE
                &&& final(self).spec_pools()[idx as int].spec_thread_id() == thread_id
            },
    {
        let mut i: usize = 0;
        while i < self.pools.len()
            invariant
                0 <= i <= self.pools@.len(),
                forall|j: int| 0 <= j < i ==> self.pools@[j].spec_socket_id() != socket_id,
                self.pools@ == old(self).pools@,
                old(self).wf(),
            decreases self.pools@.len() - i,
        {
            if self.pools[i].socket_id() == socket_id {
                return i;
            }
            i = i + 1;
        }
        let pool = PacketPool::with_capacity(socket_id, thread_id, PACKET_POOL_SIZE);
        self.pools.push(pool);
        self.pools.len() - 1
    }
}

impl PacketPool {
    /// Read access to the packet record at `slot`.
    pub fn packet(&self, slot: usize) -> (p: &Packet)
        requires
            slot < self.capacity(),
        ensures
            *p == self.spec_packets()[slot as int],
    {
        &self.packets[slot]
    }

    /// Write access to the packet record at `slot`; the allocation state
    /// and everything else in the pool stay as they are.
    pub fn packet_mut(&mut self, slot: usize) -> (p: &mut Packet)
        requires
            old(self).wf(),
            slot < old(self).capacity(),
        ensures
            *p == old(self).spec_packets()[slot as int],
            final(self).spec_packets() == old(self).spec_packets().update(
                slot as int,
                *final(p),
            ),
            final(self).wf(),
            final(self).capacity() == old(self).capacity(),
            final(self).free_len() == old(self).free_len(),
            forall|s: usize| final(self).is_live(s) == old(self).is_live(s),
            final(self).spec_released() == old(self).spec_released(),
            final(self).spec_double_frees() == old(self).spec_double_frees(),
            final(self).spec_socket_id() == old(self).spec_socket_id(),
            final(self).spec_thread_id() == old(self).spec_thread_id(),
    {
        &mut self.packets[slot]
    }

    /// The NUMA socket this pool serves.
    pub fn socket_id(&self) -> (r: u32)
        ensures
            r == self.spec_socket_id(),
    {
        self.socket_id
    }
}

} // verus!
