//! Fixed-size object pools with per-thread free-list caches.
//!
//! A [`MemoryPool`] hands out object slots (dense indices below its
//! capacity). Frees go to the calling thread's cache when one exists and has
//! room, so hot paths avoid the shared store; allocation drains the caller's
//! cache before the store. The pool's contents are abstracted as the
//! multiset of free slot ids, and every operation states its exact effect on
//! that multiset.
//!
//! [`MemoryPools`] is the registry the process-wide allocator keeps:
//! `get_or_create` is idempotent by name, and a freed object returns to the
//! pool named in its header reference, wherever it is freed from.

use vstd::multiset::Multiset;
use vstd::prelude::*;

verus! {

broadcast use vstd::seq_lib::group_to_multiset_ensures, vstd::multiset::group_multiset_axioms;

/// Failures the allocator can report.
#[derive(Clone, Copy, Debug, PartialEq, Eq, Structural)]
pub enum MemoryError {
    /// No free object was available to the caller.
    Exhausted,
}

/// A wrapper marking a field as alignment-sensitive for cache-line layout;
/// it carries no further meaning here.
pub struct Aligned<T>(pub T);

struct ThreadCache {
    thread_id: u32,
    cap: usize,
    objs: Vec<usize>,
}

/// All object ids held by a sequence of thread caches, as a multiset.
spec fn caches_ms(cs: Seq<ThreadCache>) -> Multiset<usize>
    decreases cs.len(),
{
    if cs.len() == 0 {
        Multiset::empty()
    } else {
        caches_ms(cs.drop_last()).add(cs.last().objs@.to_multiset())
    }
}

/// Two multisets with a common addend cancelled are equal.
pub proof fn lemma_ms_cancel(a: Multiset<usize>, b: Multiset<usize>, m: Multiset<usize>)
    requires
        a.add(m) == b.add(m),
    ensures
        a == b,
{
    broadcast use vstd::multiset::group_multiset_axioms;

    assert forall|x: usize| a.count(x) == b.count(x) by {
        assert(a.add(m) == b.add(m));
        assert(a.add(m).count(x) == a.count(x) + m.count(x));
        assert(b.add(m).count(x) == b.count(x) + m.count(x));
        assert(a.add(m).count(x) == b.add(m).count(x));
    }
    assert(a =~= b);
}

/// Replacing one cache replaces exactly its contribution to the multiset.
proof fn lemma_caches_ms_update(cs: Seq<ThreadCache>, i: int, c: ThreadCache)
    requires
        0 <= i < cs.len(),
    ensures
        caches_ms(cs.update(i, c)).add(cs[i].objs@.to_multiset()) =~= caches_ms(cs).add(
            c.objs@.to_multiset(),
        ),
    decreases cs.len(),
{
    let cs2 = cs.update(i, c);
    assert(cs2.len() == cs.len());
    if i == cs.len() - 1 {
        assert(cs2.drop_last() =~= cs.drop_last());
        assert(cs2.last() == c);
        assert(caches_ms(cs2) == caches_ms(cs.drop_last()).add(c.objs@.to_multiset()));
        assert(caches_ms(cs) == caches_ms(cs.drop_last()).add(cs[i].objs@.to_multiset()));
    } else {
        assert(cs2.drop_last() =~= cs.drop_last().update(i, c));
        assert(cs2.last() == cs.last());
        lemma_caches_ms_update(cs.drop_last(), i, c);
        assert(caches_ms(cs2) == caches_ms(cs.drop_last().update(i, c)).add(
            cs.last().objs@.to_multiset(),
        ));
        assert(caches_ms(cs) == caches_ms(cs.drop_last()).add(cs.last().objs@.to_multiset()));
        assert(cs.drop_last()[i] == cs[i]);
    }
}

/// Pops the most recently cached id from cache `i`.
fn cache_pop(caches: &mut Vec<ThreadCache>, i: usize) -> (id: usize)
    requires
        i < old(caches)@.len(),
        old(caches)@[i as int].objs@.len() > 0,
    ensures
        final(caches)@.len() == old(caches)@.len(),
        final(caches)@[i as int].thread_id == old(caches)@[i as int].thread_id,
        final(caches)@[i as int].cap == old(caches)@[i as int].cap,
        final(caches)@[i as int].objs@ == old(caches)@[i as int].objs@.drop_last(),
        id == old(caches)@[i as int].objs@.last(),
        final(caches)@ == old(caches)@.update(i as int, final(caches)@[i as int]),
{
    let c = &mut caches[i];
    let id = c.objs.pop().unwrap();
    id
}

/// Pushes a freed id onto cache `i`.
fn cache_push(caches: &mut Vec<ThreadCache>, i: usize, id: usize)
    requires
        i < old(caches)@.len(),
        old(caches)@[i as int].objs@.len() < old(caches)@[i as int].cap,
    ensures
        final(caches)@.len() == old(caches)@.len(),
        final(caches)@[i as int].thread_id == old(caches)@[i as int].thread_id,
        final(caches)@[i as int].cap == old(caches)@[i as int].cap,
        final(caches)@[i as int].objs@ == old(caches)@[i as int].objs@.push(id),
        final(caches)@ == old(caches)@.update(i as int, final(caches)@[i as int]),
{
    let c = &mut caches[i];
    c.objs.push(id);
}

/// A fixed-capacity object pool on one NUMA socket.
pub struct MemoryPool {
    socket_id: u32,
    elt_size: u32,
    capacity: usize,
    store: Vec<usize>,
    caches: Vec<ThreadCache>,
}

impl MemoryPool {
    /// The NUMA socket this pool serves.
    pub closed spec fn spec_socket_id(&self) -> u32 {
        self.socket_id
    }

    /// The object size this pool was created for.
    pub closed spec fn spec_elt_size(&self) -> u32 {
        self.elt_size
    }

    /// Number of object slots; slot ids run from `0` to `capacity - 1`.
    pub closed spec fn capacity(&self) -> usize {
        self.capacity
    }

    /// The multiset of free slot ids, wherever they sit (shared store or a
    /// thread cache).
    pub closed spec fn free_ms(&self) -> Multiset<usize> {
        self.store@.to_multiset().add(caches_ms(self.caches@))
    }

    /// Number of free slots.
    pub open spec fn free_len(&self) -> nat {
        self.free_ms().len()
    }

    /// A slot is free when it appears in the free multiset.
    pub open spec fn is_free(&self, id: usize) -> bool {
        self.free_ms().count(id) == 1
    }

    /// How many free objects the given thread can reach without touching
    /// other threads' caches: its own cache plus the shared store.
    pub closed spec fn avail_to(&self, thread_id: u32) -> nat {
        self.store@.len() + cache_len_of(self.caches@, thread_id)
    }

    /// Whether a cache was created for the given thread.
    pub closed spec fn has_cache(&self, thread_id: u32) -> bool {
        exists|i: int| 0 <= i < self.caches@.len() && self.caches@[i].thread_id == thread_id
    }

    /// Internal consistency: every free id is below the capacity and free at
    /// most once, thread caches are per-thread and bounded.
    pub closed spec fn wf(&self) -> bool {
        &&& forall|id: usize| #[trigger] self.free_ms().count(id) <= 1
        &&& forall|id: usize| #[trigger] self.free_ms().count(id) == 1 ==> id < self.capacity
        &&& forall|i: int, j: int|
            0 <= i < j < self.caches@.len() ==> self.caches@[i].thread_id
                != self.caches@[j].thread_id
        &&& forall|i: int|
            0 <= i < self.caches@.len() ==> #[trigger] self.caches@[i].objs@.len()
                <= self.caches@[i].cap
    }

    /// In a well-formed pool every slot is free at most once, and free
    /// slots lie below the capacity.
    pub proof fn lemma_wf_counts(&self)
        requires
            self.wf(),
        ensures
            forall|id: usize| #[trigger] self.free_ms().count(id) <= 1,
            forall|id: usize| #[trigger] self.free_ms().count(id) == 1 ==> id < self.capacity(),
    {
    }

    /// A fresh pool of `n` slots, all free, with no thread caches yet.
    pub fn new(n: u32, elt_size: u32, socket_id: u32) -> (r: Self)
        ensures
            r.wf(),
            r.capacity() == n,
            r.spec_socket_id() == socket_id,
            r.spec_elt_size() == elt_size,
            forall|id: usize| #[trigger] r.free_ms().count(id) == if id < n {
                1nat
            } else {
                0nat
            },
            r.free_len() == n,
    {
        let mut store: Vec<usize> = Vec::new();
        let mut i: usize = 0;
        while i < n as usize
            invariant
                0 <= i <= n as usize,
                store@.len() == i,
                forall|id: usize| #[trigger] store@.to_multiset().count(id) == if id < i {
                    1nat
                } else {
                    0nat
                },
            decreases n as usize - i,
        {
            let ghost prev = store@;
            store.push(i);
            proof {
                assert(store@ =~= prev.push(i));
                assert(store@.to_multiset() =~= prev.to_multiset().insert(i));
            }
            i = i + 1;
        }
        let r = MemoryPool { socket_id, elt_size, capacity: n as usize, store, caches: Vec::new() };
        proof {
            assert(caches_ms(r.caches@) =~= Multiset::empty());
            assert forall|id: usize| #[trigger] r.free_ms().count(id) == if id < n {
                1nat
            } else {
                0nat
            } by {
                assert(r.free_ms().count(id) == r.store@.to_multiset().count(id));
            }
            assert(r.free_ms() =~= r.store@.to_multiset());
            assert(r.free_ms().len() == r.store@.to_multiset().len());
        }
        r
    }

    /// Creates a bounded free-list cache for the calling thread; a second
    /// call for the same thread leaves the pool as it is. No slot moves.
    pub fn create_cache(&mut self, cache_size: u32, thread_id: u32)
        requires
            old(self).wf(),
        ensures
            final(self).wf(),
            final(self).free_ms() == old(self).free_ms(),
            final(self).capacity() == old(self).capacity(),
            final(self).spec_socket_id() == old(self).spec_socket_id(),
            final(self).spec_elt_size() == old(self).spec_elt_size(),
            final(self).has_cache(thread_id),
            forall|t: u32| old(self).has_cache(t) ==> final(self).has_cache(t),
            forall|t: u32|
                t != thread_id ==> #[trigger] final(self).avail_to(t) == old(self).avail_to(t),
    {
        match find_cache(&self.caches, thread_id) {
            Some(_) => {
            },
            None => {
                let ghost prev = self.caches@;
                self.caches.push(
                    ThreadCache { thread_id, cap: cache_size as usize, objs: Vec::new() },
                );
                proof {
                    assert(self.caches@.drop_last() =~= prev);
                    assert(self.caches@.last().objs@.to_multiset() =~= Multiset::empty());
                    assert(caches_ms(self.caches@) =~= caches_ms(prev));
                    assert(self.free_ms() =~= old(self).free_ms());
                    assert forall|t: u32| t != thread_id implies #[trigger] self.avail_to(t) == old(
                        self,
                    ).avail_to(t) by {
                        lemma_cache_len_push(prev, self.caches@.last(), t);
                    }
                }
            },
        }
    }

    /// Draws one free slot, from the caller's cache first, then the shared
    /// store. Fails exactly when neither holds a slot; other threads'
    /// caches are never touched.
    pub fn allocate_one(&mut self, thread_id: u32) -> (r: Result<usize, MemoryError>)
        requires
            old(self).wf(),
        ensures
            final(self).wf(),
            final(self).capacity() == old(self).capacity(),
            final(self).spec_socket_id() == old(self).spec_socket_id(),
            final(self).spec_elt_size() == old(self).spec_elt_size(),
            match r {
                Ok(id) => {
                    &&& id < old(self).capacity()
                    &&& old(self).is_free(id)
                    &&& final(self).free_ms() == old(self).free_ms().remove(id)
                    &&& final(self).free_len() == old(self).free_len() - 1
                    &&& final(self).avail_to(thread_id) == old(self).avail_to(thread_id) - 1
                },
                Err(e) => {
                    &&& e == MemoryError::Exhausted
                    &&& final(self).free_ms() == old(self).free_ms()
                    &&& old(self).avail_to(thread_id) == 0
                    &&& final(self).avail_to(thread_id) == 0
                },
            },
    {
        let cache_idx = find_cache(&self.caches, thread_id);
        let use_cache = match cache_idx {
            Some(ci) => self.caches[ci].objs.len() > 0,
            None => false,
        };
        if use_cache {
            let ci = cache_idx.unwrap();
            proof {
                lemma_cache_len_at(self.caches@, ci as int, thread_id);
            }
            let ghost prev_caches = self.caches@;
            let id = cache_pop(&mut self.caches, ci);
            proof {
                let newc = self.caches@[ci as int];
                let prevc = prev_caches[ci as int];
                assert(prevc.objs@ =~= newc.objs@.push(id));
                assert(prevc.objs@.to_multiset() =~= newc.objs@.to_multiset().insert(id));
                lemma_caches_ms_update(prev_caches, ci as int, newc);
                assert(caches_ms(self.caches@).add(newc.objs@.to_multiset().insert(id))
                    =~= caches_ms(prev_caches).add(newc.objs@.to_multiset()));
                assert(caches_ms(self.caches@).add(newc.objs@.to_multiset().insert(id))
                    =~= caches_ms(self.caches@).insert(id).add(newc.objs@.to_multiset()));
                lemma_ms_cancel(
                    caches_ms(self.caches@).insert(id),
                    caches_ms(prev_caches),
                    newc.objs@.to_multiset(),
                );
                assert(self.free_ms().insert(id) =~= old(self).free_ms());
                assert(old(self).free_ms().count(id) >= 1);
                assert(self.free_ms() =~= old(self).free_ms().remove(id));
                lemma_cache_len_update(prev_caches, ci as int, newc);
                lemma_cache_len_at(prev_caches, ci as int, thread_id);
            }
            Ok(id)
        } else {
            // cache miss (or no cache): draw from the shared store
            if self.store.len() > 0 {
                let ghost prev_store = self.store@;
                let id = self.store.pop().unwrap();
                proof {
                    assert(prev_store =~= self.store@.push(id));
                    assert(prev_store.to_multiset() =~= self.store@.to_multiset().insert(id));
                    assert(self.free_ms().insert(id) =~= old(self).free_ms());
                    assert(old(self).free_ms().count(id) >= 1);
                    assert(self.free_ms() =~= old(self).free_ms().remove(id));
                    match cache_idx {
                        Some(ci) => {
                            lemma_cache_len_at(self.caches@, ci as int, thread_id);
                        },
                        None => {
                            lemma_cache_len_absent(self.caches@, thread_id);
                        },
                    }
                }
                Ok(id)
            } else {
                proof {
                    match cache_idx {
                        Some(ci) => {
                            lemma_cache_len_at(self.caches@, ci as int, thread_id);
                        },
                        None => {
                            lemma_cache_len_absent(self.caches@, thread_id);
                        },
                    }
                }
                Err(MemoryError::Exhausted)
            }
        }
    }

    /// Returns a slot to the pool: into the caller's cache when it exists
    /// and has room, otherwise into the shared store. The slot must not be
    /// free already (a double free never reaches this function).
    pub fn deallocate_one(&mut self, id: usize, thread_id: u32)
        requires
            old(self).wf(),
            id < old(self).capacity(),
            !old(self).is_free(id),
        ensures
            final(self).wf(),
            final(self).capacity() == old(self).capacity(),
            final(self).spec_socket_id() == old(self).spec_socket_id(),
            final(self).spec_elt_size() == old(self).spec_elt_size(),
            final(self).free_ms() == old(self).free_ms().insert(id),
            final(self).free_len() == old(self).free_len() + 1,
            final(self).avail_to(thread_id) == old(self).avail_to(thread_id) + 1,
            forall|t: u32|
                t != thread_id ==> #[trigger] final(self).avail_to(t) == old(self).avail_to(t)
                    || final(self).avail_to(t) == old(self).avail_to(t) + 1,
    {
        proof {
            assert(old(self).free_ms().count(id) == 0);
        }
        let cache_idx = find_cache(&self.caches, thread_id);
        let use_cache = match cache_idx {
            Some(ci) => self.caches[ci].objs.len() < self.caches[ci].cap,
            None => false,
        };
        if use_cache {
            let ci = cache_idx.unwrap();
            let ghost prev_caches = self.caches@;
            cache_push(&mut self.caches, ci, id);
            proof {
                let newc = self.caches@[ci as int];
                let prevc = prev_caches[ci as int];
                assert(newc.objs@ =~= prevc.objs@.push(id));
                assert(newc.objs@.to_multiset() =~= prevc.objs@.to_multiset().insert(id));
                lemma_caches_ms_update(prev_caches, ci as int, newc);
                assert(caches_ms(self.caches@).add(prevc.objs@.to_multiset()) =~= caches_ms(
                    prev_caches,
                ).add(prevc.objs@.to_multiset().insert(id)));
                assert(caches_ms(prev_caches).add(prevc.objs@.to_multiset().insert(id))
                    =~= caches_ms(prev_caches).insert(id).add(prevc.objs@.to_multiset()));
                lemma_ms_cancel(
                    caches_ms(self.caches@),
                    caches_ms(prev_caches).insert(id),
                    prevc.objs@.to_multiset(),
                );
                assert(self.free_ms() =~= old(self).free_ms().insert(id));
                lemma_cache_len_update(prev_caches, ci as int, newc);
                lemma_cache_len_at(prev_caches, ci as int, thread_id);
            }
        } else {
            let ghost prev_store = self.store@;
            self.store.push(id);
            proof {
                assert(self.store@ =~= prev_store.push(id));
                assert(self.store@.to_multiset() =~= prev_store.to_multiset().insert(id));
                assert(self.free_ms() =~= old(self).free_ms().insert(id));
                match cache_idx {
                    Some(ci) => {
                        lemma_cache_len_at(self.caches@, ci as int, thread_id);
                    },
                    None => {
                        lemma_cache_len_absent(self.caches@, thread_id);
                    },
                }
            }
        }
    }
}

/// Objects in cache reachable by one thread.
spec fn cache_len_of(cs: Seq<ThreadCache>, thread_id: u32) -> nat
    decreases cs.len(),
{
    if cs.len() == 0 {
        0
    } else if cs.last().thread_id == thread_id {
        cs.last().objs@.len() + cache_len_of(cs.drop_last(), thread_id)
    } else {
        cache_len_of(cs.drop_last(), thread_id)
    }
}

proof fn lemma_cache_len_push(cs: Seq<ThreadCache>, c: ThreadCache, thread_id: u32)
    ensures
        cache_len_of(cs.push(c), thread_id) == cache_len_of(cs, thread_id) + if c.thread_id
            == thread_id {
            c.objs@.len()
        } else {
            0nat
        },
{
    assert(cs.push(c).drop_last() =~= cs);
    assert(cs.push(c).last() == c);
}

/// With per-thread caches unique, the cache found for a thread carries that
/// thread's whole cached count.
proof fn lemma_cache_len_at(cs: Seq<ThreadCache>, i: int, thread_id: u32)
    requires
        0 <= i < cs.len(),
        cs[i].thread_id == thread_id,
        forall|a: int, b: int| 0 <= a < b < cs.len() ==> cs[a].thread_id != cs[b].thread_id,
    ensures
        cache_len_of(cs, thread_id) == cs[i].objs@.len(),
    decreases cs.len(),
{
    if i == cs.len() - 1 {
        assert forall|j: int|
            0 <= j < cs.drop_last().len() implies cs.drop_last()[j].thread_id != thread_id by {
            assert(cs[j].thread_id != cs[i].thread_id);
        }
        lemma_cache_len_absent(cs.drop_last(), thread_id);
    } else {
        assert(cs.last().thread_id != thread_id) by {
            assert(cs[i].thread_id != cs[cs.len() - 1].thread_id);
        }
        lemma_cache_len_at(cs.drop_last(), i, thread_id);
    }
}

/// A thread with no cache has nothing cached.
proof fn lemma_cache_len_absent(cs: Seq<ThreadCache>, thread_id: u32)
    requires
        forall|j: int| 0 <= j < cs.len() ==> cs[j].thread_id != thread_id,
    ensures
        cache_len_of(cs, thread_id) == 0,
    decreases cs.len(),
{
    if cs.len() > 0 {
        lemma_cache_len_absent(cs.drop_last(), thread_id);
    }
}

/// Updating one cache in place changes only that thread's cached count.
proof fn lemma_cache_len_update(cs: Seq<ThreadCache>, i: int, c: ThreadCache)
    requires
        0 <= i < cs.len(),
        cs[i].thread_id == c.thread_id,
        forall|a: int, b: int| 0 <= a < b < cs.len() ==> cs[a].thread_id != cs[b].thread_id,
    ensures
        cache_len_of(cs.update(i, c), c.thread_id) == cache_len_of(cs, c.thread_id)
            - cs[i].objs@.len() + c.objs@.len(),
        forall|t: u32|
            t != c.thread_id ==> #[trigger] cache_len_of(cs.update(i, c), t) == cache_len_of(
                cs,
                t,
            ),
{
    let cs2 = cs.update(i, c);
    lemma_cache_len_at(cs, i, c.thread_id);
    assert forall|a: int, b: int| 0 <= a < b < cs2.len() implies cs2[a].thread_id
        != cs2[b].thread_id by {
        assert(cs[a].thread_id != cs[b].thread_id);
    }
    lemma_cache_len_at(cs2, i, c.thread_id);
    assert forall|t: u32| t != c.thread_id implies #[trigger] cache_len_of(cs2, t)
        == cache_len_of(cs, t) by {
        lemma_cache_len_other(cs, i, c, t);
    }
}

proof fn lemma_cache_len_other(cs: Seq<ThreadCache>, i: int, c: ThreadCache, t: u32)
    requires
        0 <= i < cs.len(),
        c.thread_id != t,
        cs[i].thread_id == c.thread_id,
    ensures
        cache_len_of(cs.update(i, c), t) == cache_len_of(cs, t),
    decreases cs.len(),
{
    let cs2 = cs.update(i, c);
    if i == cs.len() - 1 {
        assert(cs2.drop_last() =~= cs.drop_last());
        assert(cs2.last() == c);
    } else {
        assert(cs2.drop_last() =~= cs.drop_last().update(i, c));
        assert(cs2.last() == cs.last());
        lemma_cache_len_other(cs.drop_last(), i, c, t);
    }
}

fn find_cache(caches: &Vec<ThreadCache>, thread_id: u32) -> (r: Option<usize>)
    ensures
        match r {
            Some(i) => 0 <= i < caches@.len() && caches@[i as int].thread_id == thread_id,
            None => forall|j: int| 0 <= j < caches@.len() ==> caches@[j].thread_id != thread_id,
        },
{
    let mut i: usize = 0;
    while i < caches.len()
        invariant
            0 <= i <= caches@.len(),
            forall|j: int| 0 <= j < i ==> caches@[j].thread_id != thread_id,
        decreases caches@.len() - i,
    {
        if caches[i].thread_id == thread_id {
            return Some(i);
        }
        i = i + 1;
    }
    None
}

/// A reference to an allocated object: the pool it came from (the header
/// word each element carries in front of its payload) and its slot there.
#[derive(Clone, Copy, Debug, PartialEq, Eq, Structural)]
pub struct ObjRef {
    pub pool: usize,
    pub slot: usize,
}

/// The registry of pools, idempotent by name: one backing store per
/// (name, socket).
pub struct MemoryPools {
    names: Vec<String>,
    pools: Vec<MemoryPool>,
}

impl MemoryPools {
    /// The pools, indexed by creation order.
    pub closed spec fn spec_pools(&self) -> Seq<MemoryPool> {
        self.pools@
    }

    /// The registered names, parallel to the pools.
    pub closed spec fn spec_names(&self) -> Seq<Seq<char>> {
        self.names@.map(|i: int, s: String| s@)
    }

    pub closed spec fn wf(&self) -> bool {
        &&& self.names@.len() == self.pools@.len()
        &&& forall|i: int| 0 <= i < self.pools@.len() ==> (#[trigger] self.pools@[i]).wf()
        &&& forall|i: int, j: int|
            0 <= i < j < self.names@.len() ==> self.names@[i]@ != self.names@[j]@
    }

    pub fn new() -> (r: Self)
        ensures
            r.wf(),
            r.spec_pools().len() == 0,
    {
        MemoryPools { names: Vec::new(), pools: Vec::new() }
    }

    /// Finds the pool registered under `name`, or reserves a fresh one of
    /// `n` slots. Idempotent: a second call with the same name returns the
    /// same index and changes nothing.
    pub fn get_or_create(&mut self, name: &str, n: u32, elt_size: u32, socket_id: u32) -> (idx:
        usize)
        requires
            old(self).wf(),
        ensures
            final(self).wf(),
            old(self).spec_names().len() == old(self).spec_pools().len(),
            final(self).spec_names().len() == final(self).spec_pools().len(),
            forall|a: int, b: int|
                0 <= a < b < final(self).spec_names().len() ==> final(self).spec_names()[a]
                    != final(self).spec_names()[b],
            idx < final(self).spec_pools().len(),
            final(self).spec_names()[idx as int] == name@,
            (exists|i: int|
                0 <= i < old(self).spec_names().len() && old(self).spec_names()[i] == name@) ==> {
                &&& final(self).spec_pools() == old(self).spec_pools()
                &&& final(self).spec_names() == old(self).spec_names()
            },
            (forall|i: int|
                0 <= i < old(self).spec_names().len() ==> old(self).spec_names()[i] != name@) ==> {
                &&& final(self).spec_pools().len() == old(self).spec_pools().len() + 1
                &&& idx == old(self).spec_pools().len()
                &&& forall|i: int|
                    0 <= i < old(self).spec_pools().len() ==> final(self).spec_pools()[i] == old(
                        self,
                    ).spec_pools()[i]
                &&& final(self).spec_pools()[idx as int].capacity() == n
                &&& final(self).spec_pools()[idx as int].spec_socket_id() == socket_id
                &&& final(self).spec_pools()[idx as int].spec_elt_size() == elt_size
                &&& final(self).spec_pools()[idx as int].free_len() == n
                &&& forall|id: usize|
                    #[trigger] final(self).spec_pools()[idx as int].free_ms().count(id) == if id
                        < n {
                        1nat
                    } else {
                        0nat
                    }
            },
    {
        let key: String = name.to_string();
        let mut i: usize = 0;
        while i < self.names.len()
            invariant
                0 <= i <= self.names@.len(),
                key@ == name@,
                forall|j: int| 0 <= j < i ==> self.names@[j]@ != name@,
                self.names@ == old(self).names@,
                self.pools@ == old(self).pools@,
                old(self).wf(),
            decreases self.names@.len() - i,
        {
            if self.names[i] == key {
                proof {
                    assert(self.spec_names()[i as int] == name@);
                }
                return i;
            }
            i = i + 1;
        }
        let pool = MemoryPool::new(n, elt_size, socket_id);
        self.names.push(key);
        self.pools.push(pool);
        proof {
            assert(forall|j: int|
                0 <= j < old(self).names@.len() ==> self.names@[j] == old(self).names@[j]);
            assert forall|a: int, b: int|
                0 <= a < b < self.names@.len() implies self.names@[a]@ != self.names@[b]@ by {}
        }
        self.pools.len() - 1
    }

    /// Draws one object from the pool at `idx` on behalf of `thread_id`.
    /// The reference carries the owning pool, as the header word does.
    pub fn allocate(&mut self, idx: usize, thread_id: u32) -> (r: Result<ObjRef, MemoryError>)
        requires
            old(self).wf(),
            idx < old(self).spec_pools().len(),
        ensures
            final(self).wf(),
            final(self).spec_names() == old(self).spec_names(),
            final(self).spec_pools().len() == old(self).spec_pools().len(),
            forall|j: int|
                0 <= j < final(self).spec_pools().len() && j != idx ==> final(self).spec_pools()[j]
                    == old(self).spec_pools()[j],
            match r {
                Ok(o) => {
                    &&& o.pool == idx
                    &&& o.slot < old(self).spec_pools()[idx as int].capacity()
                    &&& old(self).spec_pools()[idx as int].is_free(o.slot)
                    &&& final(self).spec_pools()[idx as int].free_ms() == old(self).spec_pools()[idx as int].free_ms().remove(o.slot)
                },
                Err(e) => {
                    &&& e == MemoryError::Exhausted
                    &&& old(self).spec_pools()[idx as int].avail_to(thread_id) == 0
                    &&& final(self).spec_pools()[idx as int].free_ms() == old(self).spec_pools()[idx as int].free_ms()
                },
            },
    {
        let ghost prev = self.pools@;
        let p = &mut self.pools[idx];
        let r = p.allocate_one(thread_id);
        proof {
            assert(self.names@ =~= old(self).names@);
        }
        match r {
            Ok(slot) => Ok(ObjRef { pool: idx, slot }),
            Err(e) => Err(e),
        }
    }

    /// Frees an object into the pool its header names, whatever thread
    /// calls: only `obj.pool` changes, gaining exactly `obj.slot`.
    pub fn deallocate(&mut self, obj: ObjRef, thread_id: u32)
        requires
            old(self).wf(),
            obj.pool < old(self).spec_pools().len(),
            obj.slot < old(self).spec_pools()[obj.pool as int].capacity(),
            !old(self).spec_pools()[obj.pool as int].is_free(obj.slot),
        ensures
            final(self).wf(),
            final(self).spec_names() == old(self).spec_names(),
            final(self).spec_pools().len() == old(self).spec_pools().len(),
            forall|j: int|
                0 <= j < final(self).spec_pools().len() && j != obj.pool
                    ==> final(self).spec_pools()[j] == old(self).spec_pools()[j],
            final(self).spec_pools()[obj.pool as int].free_ms() == old(self).spec_pools()[obj.pool as int].free_ms().insert(obj.slot),
            final(self).spec_pools()[obj.pool as int].free_len() == old(self).spec_pools()[obj.pool as int].free_len() + 1,
    {
        let ghost prev = self.pools@;
        let p = &mut self.pools[obj.pool];
        p.deallocate_one(obj.slot, thread_id);
        proof {
            assert(self.names@ =~= old(self).names@);
        }
    }
}

} // verus!
