//! The processing modules and their dispatch.
//!
//! A node's module is one of the known processing units, as a tagged
//! variant: the worker only needs to know whether a module can poll and how
//! one `process`/`poll` call transforms the packet pool, and each variant's
//! own functions state that exactly.

use vstd::multiset::Multiset;
use vstd::prelude::*;

use crate::config::StackConfig;
use crate::memory::MemoryError;
use crate::nio::IoNode;
use crate::packet::{pool_frame, pool_mutated_at, spec_deallocated, spec_drained, PacketPool};

pub mod eth;
pub mod ipv4;
pub mod udp;
pub mod user;

use eth::{EthReceiver, EthSender};
use ipv4::{Ipv4Receiver, Ipv4Sender};
use udp::{UdpReceiver, UdpSender};
use user::UserNode;

verus! {

broadcast use vstd::seq_lib::group_to_multiset_ensures, vstd::multiset::group_multiset_axioms;

/// Control-flow signals and failures a module call can produce. `Nop` and
/// `Dropped` are not failures: they tell the worker that nothing arrived or
/// that the packet was consumed.
#[derive(Clone, Copy, Debug, PartialEq, Eq, Structural)]
pub enum ModuleError {
    /// Nothing happened (an idle poll).
    Nop,
    /// The packet reference was consumed; the worker must not reuse it.
    Dropped,
    /// The allocator ran dry.
    MemoryError(MemoryError),
    /// A failure the pipeline cannot recover from.
    Unknown,
}

/// What a module is able to do.
#[derive(Clone, Copy, Debug, PartialEq, Eq, Structural)]
pub struct ModuleCapa {
    pub process: bool,
    pub poll: bool,
}

/// The per-worker call context handed to every module invocation.
pub struct Context {
    pub cpu: u32,
    pub worker_id: u32,
    pub thread_id: u32,
    pub graph_id: u32,
    pub stack_name: String,
    /// This worker's queue on every port.
    pub queue: u16,
    /// Queues each port runs in total.
    pub num_queues: u16,
}

/// Which module a registry entry builds.
#[derive(Clone, Copy, Debug, PartialEq, Eq, Structural)]
pub enum ModuleKind {
    UserNode,
    EthSender,
    EthReceiver,
    Ipv4Sender,
    Ipv4Receiver,
    UdpSender,
    UdpReceiver,
    IoNode,
}

/// One processing unit, as a tagged variant.
pub enum Module {
    User(UserNode),
    EthSender(EthSender),
    EthReceiver(EthReceiver),
    Ipv4Sender(Ipv4Sender),
    Ipv4Receiver(Ipv4Receiver),
    UdpSender(UdpSender),
    UdpReceiver(UdpReceiver),
    Io(IoNode),
}

impl Module {
    /// The variant's tag.
    pub open spec fn spec_kind(&self) -> ModuleKind {
        match self {
            Module::User(_) => ModuleKind::UserNode,
            Module::EthSender(_) => ModuleKind::EthSender,
            Module::EthReceiver(_) => ModuleKind::EthReceiver,
            Module::Ipv4Sender(_) => ModuleKind::Ipv4Sender,
            Module::Ipv4Receiver(_) => ModuleKind::Ipv4Receiver,
            Module::UdpSender(_) => ModuleKind::UdpSender,
            Module::UdpReceiver(_) => ModuleKind::UdpReceiver,
            Module::Io(_) => ModuleKind::IoNode,
        }
    }

    /// The packet references an adapter inside this module still holds
    /// staged for transmission, by pool slot.
    pub open spec fn staged(&self) -> Multiset<usize> {
        match self {
            Module::Io(io) => io.staged(),
            _ => Multiset::empty(),
        }
    }

    /// The module's internal consistency (its adapters, for the I/O node).
    pub open spec fn inv(&self) -> bool {
        match self {
            Module::Io(io) => io.inv(),
            Module::User(u) => u.inv(),
            Module::Ipv4Sender(m) => m.inv(),
            _ => true,
        }
    }

    pub fn kind(&self) -> (r: ModuleKind)
        ensures
            r == self.spec_kind(),
    {
        match self {
            Module::User(_) => ModuleKind::UserNode,
            Module::EthSender(_) => ModuleKind::EthSender,
            Module::EthReceiver(_) => ModuleKind::EthReceiver,
            Module::Ipv4Sender(_) => ModuleKind::Ipv4Sender,
            Module::Ipv4Receiver(_) => ModuleKind::Ipv4Receiver,
            Module::UdpSender(_) => ModuleKind::UdpSender,
            Module::UdpReceiver(_) => ModuleKind::UdpReceiver,
            Module::Io(_) => ModuleKind::IoNode,
        }
    }

    /// A fresh instance of the given kind.
    pub fn build(kind: ModuleKind) -> (r: Module)
        ensures
            r.spec_kind() == kind,
            r.inv(),
            r.staged() == Multiset::<usize>::empty(),
    {
        match kind {
            ModuleKind::UserNode => Module::User(UserNode::new()),
            ModuleKind::EthSender => Module::EthSender(EthSender::new()),
            ModuleKind::EthReceiver => Module::EthReceiver(EthReceiver::new()),
            ModuleKind::Ipv4Sender => Module::Ipv4Sender(Ipv4Sender::new()),
            ModuleKind::Ipv4Receiver => Module::Ipv4Receiver(Ipv4Receiver::new()),
            ModuleKind::UdpSender => Module::UdpSender(UdpSender::new()),
            ModuleKind::UdpReceiver => Module::UdpReceiver(UdpReceiver::new()),
            ModuleKind::IoNode => Module::Io(IoNode::new()),
        }
    }

    /// What every module advertises it can do.
    pub open spec fn spec_capability(&self) -> ModuleCapa {
        match self {
            Module::User(_) => ModuleCapa { process: true, poll: true },
            Module::Io(_) => ModuleCapa { process: true, poll: true },
            _ => ModuleCapa { process: true, poll: false },
        }
    }

    pub fn capability(&self) -> (r: ModuleCapa)
        ensures
            r == self.spec_capability(),
    {
        match self {
            Module::User(_) => ModuleCapa { process: true, poll: true },
            Module::Io(_) => ModuleCapa { process: true, poll: true },
            _ => ModuleCapa { process: true, poll: false },
        }
    }

    /// Brings the module up. The routing module copies the stack's routes;
    /// the I/O node builds and starts one adapter per configured NIC.
    pub fn init(&mut self, ctx: &Context, stack: &StackConfig) -> (r: Result<(), ModuleError>)
        requires
            old(self).inv(),
            old(self).staged() == Multiset::<usize>::empty(),
            forall|i: int| 0 <= i < stack.routes@.len() ==> (#[trigger] stack.routes@[i]).wf(),
        ensures
            final(self).spec_kind() == old(self).spec_kind(),
            final(self).inv(),
            final(self).staged() == Multiset::<usize>::empty(),
            r is Ok ==> final(self).ready(),
            r is Ok <==> (*old(self) matches Module::Io(_) ==> stack.nics@.len()
                <= crate::nio::NUM_ADAPTER_MAX),
            r matches Err(e) ==> e == ModuleError::Unknown,
    {
        match self {
            Module::Ipv4Sender(m) => m.init(&stack.routes),
            Module::Io(io) => io.init(ctx, stack),
            _ => Ok(()),
        }
    }

    /// Whether `init` has prepared the module for traffic.
    pub open spec fn ready(&self) -> bool {
        match self {
            Module::Io(io) => io.ready(),
            _ => true,
        }
    }

    /// When a `process` call forwards the packet, by module kind: each
    /// encapsulating module needs its header's headroom, each decapsulating
    /// module a long enough window, and the two sinks (the user node and
    /// the I/O node) always consume the reference instead.
    pub open spec fn spec_process_ok(&self, p: crate::packet::Packet) -> bool {
        match self {
            Module::User(_) => false,
            Module::EthSender(_) => p.offset >= crate::codec::ETH_HEADER_LEN,
            Module::EthReceiver(_) => p.len - p.offset >= crate::codec::ETH_HEADER_LEN,
            Module::Ipv4Sender(_) => p.offset >= crate::codec::IPV4_HEADER_LEN,
            Module::Ipv4Receiver(_) => ipv4::ipv4_rx_ok(p),
            Module::UdpSender(_) => p.offset >= crate::codec::UDP_HEADER_LEN,
            Module::UdpReceiver(_) => p.len - p.offset >= crate::codec::UDP_HEADER_LEN,
            Module::Io(_) => false,
        }
    }

    /// Advances one packet through the module.
    ///
    /// `Ok` forwards the packet: the pool keeps its shape, only the packet
    /// record at `slot` changes, and its reference count stays. `Dropped`
    /// consumes the worker's reference: the module either freed the packet
    /// or handed it to an adapter (staging it, and flushing a full burst).
    /// Any other error is fatal to the worker.
    pub fn process(&mut self, ctx: &Context, pool: &mut PacketPool, slot: usize) -> (r: (
        Result<(), ModuleError>,
        Ghost<(PacketPool, Seq<usize>)>,
    ))
        requires
            old(self).inv(),
            old(self).ready(),
            old(pool).wf(),
            old(pool).is_live(slot),
            old(pool).spec_packets()[slot as int].wf(),
            old(pool).spec_packets()[slot as int].refcnt >= 1,
            forall|s: usize| old(self).staged().count(s) > 0 ==> old(pool).is_live(s),
            forall|s: usize|
                old(pool).is_live(s) ==> old(pool).spec_packets()[s as int].refcnt >= old(
                    self,
                ).staged().count(s) + (if s == slot {
                    1int
                } else {
                    0int
                }),
        ensures
            final(self).spec_kind() == old(self).spec_kind(),
            final(self).inv(),
            final(self).ready(),
            module_process_post(
                *old(pool),
                *final(pool),
                *old(self),
                *final(self),
                slot,
                r.0,
                r.1@.0,
                r.1@.1,
            ),
            r.0 is Ok <==> old(self).spec_process_ok(old(pool).spec_packets()[slot as int]),
            r.0 matches Err(e) ==> (e == ModuleError::Dropped || (*old(self) matches Module::Io(_)
                && e == ModuleError::Unknown)),
            *old(self) matches Module::Io(io0) ==> (r.0 == Err::<(), ModuleError>(
                ModuleError::Unknown,
            ) <==> !crate::nio::io_tx_accept(
                old(pool).spec_packets()[slot as int],
                io0.spec_adapters().len() as int,
                io0.spec_nic_to_mac(),
            )),
    {
        let ghost op = *pool;
        match self {
            Module::User(m) => {
                let r = m.process(ctx, pool, slot);
                proof {
                    lemma_dealloc_witness(op, *pool, slot);
                    assert(old(self).staged().insert(slot) =~= final(self).staged().add(
                        seq![slot].to_multiset(),
                    ));
                }
                (r, Ghost((op, seq![slot])))
            },
            Module::EthSender(m) => {
                let r = m.process(ctx, pool, slot);
                proof {
                    if r is Err {
                        lemma_dealloc_witness(op, *pool, slot);
                        assert(old(self).staged().insert(slot) =~= final(self).staged().add(
                            seq![slot].to_multiset(),
                        ));
                    }
                }
                let ghost wit = if r is Ok {
                    (*pool, Seq::<usize>::empty())
                } else {
                    (op, seq![slot])
                };
                (r, Ghost(wit))
            },
            Module::EthReceiver(m) => {
                let r = m.process(ctx, pool, slot);
                proof {
                    if r is Err {
                        lemma_dealloc_witness(op, *pool, slot);
                        assert(old(self).staged().insert(slot) =~= final(self).staged().add(
                            seq![slot].to_multiset(),
                        ));
                    }
                }
                let ghost wit = if r is Ok {
                    (*pool, Seq::<usize>::empty())
                } else {
                    (op, seq![slot])
                };
                (r, Ghost(wit))
            },
            Module::Ipv4Sender(m) => {
                let r = m.process(ctx, pool, slot);
                proof {
                    if r is Err {
                        lemma_dealloc_witness(op, *pool, slot);
                        assert(old(self).staged().insert(slot) =~= final(self).staged().add(
                            seq![slot].to_multiset(),
                        ));
                    }
                }
                let ghost wit = if r is Ok {
                    (*pool, Seq::<usize>::empty())
                } else {
                    (op, seq![slot])
                };
                (r, Ghost(wit))
            },
            Module::Ipv4Receiver(m) => {
                let r = m.process(ctx, pool, slot);
                proof {
                    if r is Err {
                        lemma_dealloc_witness(op, *pool, slot);
                        assert(old(self).staged().insert(slot) =~= final(self).staged().add(
                            seq![slot].to_multiset(),
                        ));
                    }
                }
                let ghost wit = if r is Ok {
                    (*pool, Seq::<usize>::empty())
                } else {
                    (op, seq![slot])
                };
                (r, Ghost(wit))
            },
            Module::UdpSender(m) => {
                let r = m.process(ctx, pool, slot);
                proof {
                    if r is Err {
                        lemma_dealloc_witness(op, *pool, slot);
                        assert(old(self).staged().insert(slot) =~= final(self).staged().add(
                            seq![slot].to_multiset(),
                        ));
                    }
                }
                let ghost wit = if r is Ok {
                    (*pool, Seq::<usize>::empty())
                } else {
                    (op, seq![slot])
                };
                (r, Ghost(wit))
            },
            Module::UdpReceiver(m) => {
                let r = m.process(ctx, pool, slot);
                proof {
                    if r is Err {
                        lemma_dealloc_witness(op, *pool, slot);
                        assert(old(self).staged().insert(slot) =~= final(self).staged().add(
                            seq![slot].to_multiset(),
                        ));
                    }
                }
                let ghost wit = if r is Ok {
                    (*pool, Seq::<usize>::empty())
                } else {
                    (op, seq![slot])
                };
                (r, Ghost(wit))
            },
            Module::Io(io) => {
                let (r, w) = io.process(ctx, pool, slot);
                (r, w)
            },
        }
    }

    /// Lets a source module ingest fresh packets.
    ///
    /// `Ok` returns the burst's slots in processing order, each carrying one
    /// reference; `Nop` means nothing arrived. The I/O node first flushes
    /// any NICs queued for a deferred flush.
    pub fn poll(&mut self, ctx: &Context, pool: &mut PacketPool) -> (r: (
        Result<Vec<usize>, ModuleError>,
        Ghost<(PacketPool, Seq<usize>)>,
    ))
        requires
            old(self).inv(),
            old(self).ready(),
            old(pool).wf(),
            forall|s: usize| old(self).staged().count(s) > 0 ==> old(pool).is_live(s),
            forall|s: usize|
                old(pool).is_live(s) ==> old(pool).spec_packets()[s as int].refcnt >= old(
                    self,
                ).staged().count(s),
        ensures
            final(self).spec_kind() == old(self).spec_kind(),
            final(self).inv(),
            final(self).ready(),
            module_poll_post(
                *old(pool),
                *final(pool),
                *old(self),
                *final(self),
                r.0,
                r.1@.0,
                r.1@.1,
            ),
            r.0 matches Err(e) ==> (e == ModuleError::Nop || e matches ModuleError::MemoryError(
                _,
            )),
            !old(self).spec_capability().poll ==> r.0 == Err::<Vec<usize>, ModuleError>(
                ModuleError::Nop,
            ),
            *old(self) matches Module::User(u) ==> (r.0 matches Err(e) ==> (e
                == ModuleError::MemoryError(MemoryError::Exhausted) && old(pool).avail()
                < u.burst)),
            *final(self) matches Module::Io(io1) ==> io1.spec_flush_queue().len() == 0,
    {
        let ghost op = *pool;
        match self {
            Module::User(m) => {
                let r = m.poll(ctx, pool);
                proof {
                    lemma_empty_poll_witness(op, old(self).staged(), final(self).staged());
                }
                (r, Ghost((op, Seq::empty())))
            },
            Module::Io(io) => {
                let (r, w) = io.poll(ctx, pool);
                (r, w)
            },
            _ => {
                proof {
                    lemma_empty_poll_witness(op, old(self).staged(), final(self).staged());
                }
                (Err(ModuleError::Nop), Ghost((op, Seq::empty())))
            },
        }
    }

    /// Tears the module down at shutdown: the I/O node flushes what is
    /// still staged (the witness lists the released references) and stops
    /// its adapters.
    pub fn destroy(&mut self, ctx: &Context, pool: &mut PacketPool) -> (w: Ghost<Seq<usize>>)
        requires
            old(self).inv(),
            old(pool).wf(),
            forall|s: usize| old(self).staged().count(s) > 0 ==> old(pool).is_live(s),
            forall|s: usize|
                old(pool).is_live(s) ==> old(pool).spec_packets()[s as int].refcnt >= old(
                    self,
                ).staged().count(s),
        ensures
            final(self).spec_kind() == old(self).spec_kind(),
            final(self).inv(),
            final(self).ready() == old(self).ready(),
            final(self).staged() =~= Multiset::<usize>::empty(),
            old(self).staged() == w@.to_multiset(),
            spec_drained(*old(pool), *final(pool), w@),
            pool_frame(*old(pool), *final(pool)),
    {
        match self {
            Module::Io(io) => io.destroy(ctx, pool),
            _ => {
                proof {
                    broadcast use vstd::seq_lib::group_to_multiset_ensures;

                    let flushed = Seq::<usize>::empty();
                    assert(flushed.to_multiset() =~= Multiset::<usize>::empty());
                    assert(old(self).staged() =~= flushed.to_multiset());
                    assert(spec_drained(*old(pool), *final(pool), flushed));
                }
                Ghost(Seq::empty())
            },
        }
    }
}

/// The contract every `process` call meets, case by result. The witness
/// `(mid, flushed)` names the pool as the module left the packet record and
/// the references a burst flush then released: a plain free is a drain of
/// the packet's own reference, and plain staging drains nothing.
pub open spec fn module_process_post(
    op: PacketPool,
    np: PacketPool,
    om: Module,
    nm: Module,
    slot: usize,
    r: Result<(), ModuleError>,
    mid: PacketPool,
    flushed: Seq<usize>,
) -> bool {
    &&& pool_frame(op, np)
    &&& match r {
        Ok(_) => {
            &&& pool_mutated_at(op, np, slot)
            &&& np.spec_packets()[slot as int].wf()
            &&& nm.staged() == om.staged()
        },
        Err(ModuleError::Dropped) => {
            &&& pool_mutated_at(op, mid, slot)
            &&& mid.spec_packets()[slot as int].wf()
            &&& (forall|s: usize| flushed.to_multiset().count(s) > 0 ==> mid.is_live(s))
            &&& om.staged().insert(slot) == nm.staged().add(flushed.to_multiset())
            &&& spec_drained(mid, np, flushed)
        },
        Err(_) => nm.staged() == om.staged() && (np == op || pool_mutated_at(op, np, slot)),
    }
}

/// The contract every `poll` call meets: deferred flushes run first (the
/// witness names the drained references and the pool they left), then a
/// burst of fresh packets may arrive.
pub open spec fn module_poll_post(
    op: PacketPool,
    np: PacketPool,
    om: Module,
    nm: Module,
    r: Result<Vec<usize>, ModuleError>,
    mid: PacketPool,
    flushed: Seq<usize>,
) -> bool {
    &&& pool_frame(op, np)
    &&& spec_drained(op, mid, flushed)
    &&& (forall|s: usize| flushed.to_multiset().count(s) > 0 ==> op.is_live(s))
    &&& om.staged() == nm.staged().add(flushed.to_multiset())
    &&& match r {
        Ok(slots) => fresh_burst(mid, np, slots@),
        Err(ModuleError::Nop) => np == mid,
        Err(_) => crate::packet::pool_quiescent(mid, np),
    }
}

/// The witness of a poll that flushes nothing: an empty drain.
pub proof fn lemma_empty_poll_witness(
    op: PacketPool,
    staged0: Multiset<usize>,
    staged1: Multiset<usize>,
)
    requires
        staged0 == staged1,
    ensures
        spec_drained(op, op, Seq::<usize>::empty()),
        forall|s: usize| Seq::<usize>::empty().to_multiset().count(s) > 0 ==> op.is_live(s),
        staged0 == staged1.add(Seq::<usize>::empty().to_multiset()),
{
    broadcast use vstd::seq_lib::group_to_multiset_ensures;

    assert(Seq::<usize>::empty().to_multiset() =~= Multiset::<usize>::empty());
    assert(staged1.add(Seq::<usize>::empty().to_multiset()) =~= staged1);
}

/// A plain free is one drained reference: releasing the packet's own
/// reference drains exactly `[slot]` from the unchanged pool.
pub proof fn lemma_dealloc_witness(op: PacketPool, np: PacketPool, slot: usize)
    requires
        op.wf(),
        op.is_live(slot),
        op.spec_packets()[slot as int].wf(),
        spec_deallocated(op, np, slot),
    ensures
        pool_mutated_at(op, op, slot),
        op.spec_packets()[slot as int].wf(),
        forall|s: usize| seq![slot].to_multiset().count(s) > 0 ==> op.is_live(s),
        spec_drained(op, np, seq![slot]),
        seq![slot].to_multiset() == Multiset::<usize>::empty().insert(slot),
{
    broadcast use vstd::seq_lib::group_to_multiset_ensures, vstd::multiset::group_multiset_axioms;

    assert(op.spec_packets() =~= op.spec_packets().update(
        slot as int,
        op.spec_packets()[slot as int],
    ));
    assert(pool_mutated_at(op, op, slot));
    crate::packet::lemma_drained_one(op, np, slot);
    assert(seq![slot].to_multiset() =~= Multiset::<usize>::empty().insert(slot));
    assert forall|s: usize|
        seq![slot].to_multiset().count(s) > 0 implies op.is_live(s) by {}
}

/// A burst of newly allocated packets: the listed slots were free, are now
/// live with one reference each, and nothing else moved.
pub open spec fn fresh_burst(op: PacketPool, np: PacketPool, slots: Seq<usize>) -> bool {
    &&& pool_frame(op, np)
    &&& (forall|k: int, l: int| 0 <= k < l < slots.len() ==> slots[k] != slots[l])
    &&& (forall|k: int|
        0 <= k < slots.len() ==> {
            &&& (#[trigger] slots[k]) < op.capacity()
            &&& !op.is_live(slots[k])
            &&& np.is_live(slots[k])
            &&& np.spec_packets()[slots[k] as int].refcnt == 1
            &&& np.spec_packets()[slots[k] as int].wf()
        })
    &&& (forall|s: usize| !slots.contains(s) ==> np.is_live(s) == op.is_live(s))
    &&& (forall|s: usize|
        s < op.capacity() && !slots.contains(s) ==> np.spec_packets()[s as int]
            == op.spec_packets()[s as int])
    &&& np.free_len() == op.free_len() - slots.len()
    &&& np.spec_released() == op.spec_released()
    &&& np.spec_double_frees() == op.spec_double_frees()
}

} // verus!
