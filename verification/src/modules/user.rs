//! The user-facing source and sink: polls bursts of fresh payload packets
//! into the graph and consumes packets that reach it.

use vstd::prelude::*;

use crate::modules::{Context, ModuleError};
use crate::packet::{spec_deallocated, PacketPool};
use crate::{DEFAULT_OFFSET, MTU};

verus! {

/// Packets a user poll ingests at once by default.
pub const USER_BURST_SIZE: u32 = 32;

/// Default payload bytes per generated packet.
pub const USER_PAYLOAD_LEN: u16 = 36;

/// The packet source and sink at the user edge of the graph.
pub struct UserNode {
    /// Packets ingested per poll.
    pub burst: u32,
    /// Payload bytes each carries.
    pub payload_len: u16,
    /// The destination bound to each generated packet, in the
    /// network-order `u32` form routing reads.
    pub dst_addr: u32,
}

impl UserNode {
    /// Generated payloads always fit a frame.
    pub open spec fn inv(&self) -> bool {
        self.payload_len <= MTU
    }

    pub fn new() -> (r: Self)
        ensures
            r.burst == USER_BURST_SIZE,
            r.payload_len == USER_PAYLOAD_LEN,
            r.dst_addr == crate::modules::ipv4::IPV4_TX_DST,
            r.inv(),
    {
        UserNode {
            burst: USER_BURST_SIZE,
            payload_len: USER_PAYLOAD_LEN,
            dst_addr: crate::modules::ipv4::IPV4_TX_DST,
        }
    }

    /// A source tuned to a burst size and payload length, as an operator
    /// drives it.
    pub fn with_config(burst: u32, payload_len: u16) -> (r: Self)
        requires
            payload_len <= MTU,
        ensures
            r.burst == burst,
            r.payload_len == payload_len,
            r.dst_addr == crate::modules::ipv4::IPV4_TX_DST,
            r.inv(),
    {
        UserNode {
            burst,
            payload_len,
            dst_addr: crate::modules::ipv4::IPV4_TX_DST,
        }
    }

    /// Delivers a packet to the user: the reference is released (freeing
    /// the packet at its last reference) and the worker told it was
    /// consumed.
    pub fn process(&mut self, ctx: &Context, pool: &mut PacketPool, slot: usize) -> (r: Result<
        (),
        ModuleError,
    >)
        requires
            old(pool).wf(),
            old(pool).is_live(slot),
        ensures
            *final(self) == *old(self),
            r == Err::<(), ModuleError>(ModuleError::Dropped),
            spec_deallocated(*old(pool), *final(pool), slot),
    {
        pool.deallocate(slot);
        Err(ModuleError::Dropped)
    }

    /// Ingests one burst of fresh packets, chained oldest first, each with
    /// the configured payload starting at the default headroom. Fails with
    /// the allocator's error when the pool cannot supply the whole burst,
    /// leaving the pool as it was.
    pub fn poll(&mut self, ctx: &Context, pool: &mut PacketPool) -> (r: Result<
        Vec<usize>,
        ModuleError,
    >)
        requires
            old(self).inv(),
            old(pool).wf(),
        ensures
            *final(self) == *old(self),
            final(pool).wf(),
            final(pool).capacity() == old(pool).capacity(),
            final(pool).spec_socket_id() == old(pool).spec_socket_id(),
            final(pool).spec_thread_id() == old(pool).spec_thread_id(),
            final(pool).spec_released() == old(pool).spec_released(),
            final(pool).spec_double_frees() == old(pool).spec_double_frees(),
            match r {
                Ok(slots) => {
                    &&& slots@.len() == old(self).burst
                    &&& (forall|k: int, l: int|
                        0 <= k < l < slots@.len() ==> slots@[k] != slots@[l])
                    &&& (forall|k: int|
                        0 <= k < slots@.len() ==> {
                            &&& (#[trigger] slots@[k]) < old(pool).capacity()
                            &&& !old(pool).is_live(slots@[k])
                            &&& final(pool).is_live(slots@[k])
                            &&& {
                                let p = final(pool).spec_packets()[slots@[k] as int];
                                &&& p.refcnt == 1
                                &&& p.offset == DEFAULT_OFFSET
                                &&& p.len == DEFAULT_OFFSET + old(self).payload_len
                                &&& p.nic == 0
                                &&& p.dst_addr == old(self).dst_addr
                                &&& p.wf()
                                &&& p.next == (if k + 1 < slots@.len() {
                                    Some(slots@[k + 1])
                                } else {
                                    None
                                })
                            }
                        })
                    &&& (forall|s: usize|
                        !slots@.contains(s) ==> final(pool).is_live(s) == old(pool).is_live(s))
                    &&& (forall|s: usize|
                        s < old(pool).capacity() && !slots@.contains(s) ==> final(pool).spec_packets()[s as int] == old(pool).spec_packets()[s as int])
                    &&& final(pool).free_len() == old(pool).free_len() - old(self).burst
                },
                Err(e) => {
                    &&& e == ModuleError::MemoryError(crate::memory::MemoryError::Exhausted)
                    &&& old(pool).avail() < old(self).burst
                    &&& final(pool).avail() == old(pool).avail()
                    &&& final(pool).free_len() == old(pool).free_len()
                    &&& (forall|s: usize| final(pool).is_live(s) == old(pool).is_live(s))
                    &&& (forall|s: usize|
                        old(pool).is_live(s) ==> final(pool).spec_packets()[s as int] == old(pool).spec_packets()[s as int])
                },
            },
    {
        let slots = match pool.allocate_many(self.burst) {
            Ok(slots) => slots,
            Err(e) => {
                return Err(ModuleError::MemoryError(e));
            },
        };
        let ghost base = *pool;
        let n = slots.len();
        let mut k: usize = 0;
        while k < n
            invariant
                0 <= k <= n,
                n == slots@.len(),
                self.payload_len <= MTU,
                pool.wf(),
                pool.capacity() == base.capacity(),
                pool.free_len() == base.free_len(),
                pool.spec_socket_id() == base.spec_socket_id(),
                pool.spec_thread_id() == base.spec_thread_id(),
                pool.spec_released() == base.spec_released(),
                pool.spec_double_frees() == base.spec_double_frees(),
                forall|s: usize| pool.is_live(s) == base.is_live(s),
                forall|a: int, b: int| 0 <= a < b < n ==> slots@[a] != slots@[b],
                forall|a: int|
                    0 <= a < n ==> (#[trigger] slots@[a]) < base.capacity() && base.is_live(
                        slots@[a],
                    ) && crate::packet::is_fresh_packet(base.spec_packets()[slots@[a] as int]),
                forall|s: usize|
                    s < base.capacity() && !slots@.contains(s) ==> pool.spec_packets()[s as int]
                        == base.spec_packets()[s as int],
                forall|a: int|
                    k <= a < n ==> pool.spec_packets()[slots@[a] as int] == base.spec_packets()[slots@[a] as int],
                forall|a: int|
                    #![trigger slots@[a]]
                    0 <= a < k ==> {
                        let p = pool.spec_packets()[slots@[a] as int];
                        &&& p.refcnt == 1
                        &&& p.offset == DEFAULT_OFFSET
                        &&& p.len == DEFAULT_OFFSET + self.payload_len
                        &&& p.nic == 0
                        &&& p.dst_addr == self.dst_addr
                        &&& p.wf()
                        &&& p.next == (if a + 1 < n {
                            Some(slots@[a + 1])
                        } else {
                            None
                        })
                    },
            decreases n - k,
        {
            let slot = slots[k];
            let nxt = if k + 1 < n {
                Some(slots[k + 1])
            } else {
                None
            };
            let ghost pre = *pool;
            let payload = self.payload_len;
            let bound_dst = self.dst_addr;
            let p = pool.packet_mut(slot);
            p.next = nxt;
            p.dst_addr = bound_dst;
            p.set_len(payload);
            proof {
                assert forall|a: int|
                    0 <= a < n && a != k implies pool.spec_packets()[slots@[a] as int]
                    == pre.spec_packets()[slots@[a] as int] by {
                    assert(slots@[a] != slots@[k as int]);
                }
                assert forall|s: usize|
                    s < base.capacity() && !slots@.contains(s) implies pool.spec_packets()[
                    s as int] == base.spec_packets()[s as int] by {
                    assert(s != slot);
                }
            }
            k = k + 1;
        }
        Ok(slots)
    }
}

} // verus!
