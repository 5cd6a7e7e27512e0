//! The executable graph, the per-core worker that drives it, and the
//! engine's startup planning.
//!
//! The worker alternates a poll phase (source modules ingest packets, one
//! task per packet) and a process phase (the task stack drains LIFO, each
//! task advancing its packet through one node). Fan-out to `K` successors
//! raises the packet's reference count by `K - 1` before `K` tasks are
//! pushed, so every live packet's reference count equals the number of
//! tasks plus staged frames that point at it - the accounting that makes
//! exactly-once freeing hold.

use vstd::multiset::Multiset;
use vstd::prelude::*;

use crate::config::{ConfigManager, GraphConfig};
use crate::modules::{Context, Module, ModuleError};
use crate::packet::{spec_deallocated, spec_drained, PacketPool};
use crate::registry::Registry;
use crate::TASK_QUEUE_SIZE;

verus! {

broadcast use vstd::seq_lib::group_to_multiset_ensures, vstd::multiset::group_multiset_axioms;

/// One unit of work: advance the packet in pool slot `data` through node
/// `node_id`.
#[derive(Clone, Copy, Debug, PartialEq, Eq, Structural)]
pub struct Task {
    pub node_id: usize,
    pub data: usize,
}

/// A node of an executable graph: its module and the nodes its output
/// feeds, in order.
pub struct Node {
    pub module: Module,
    pub links_to: Vec<usize>,
}

/// One executable replica of a configured graph, bound to one CPU.
pub struct Graph {
    pub id: u32,
    pub cpu: u32,
    pub nodes: Vec<Node>,
}

/// Why a graph or stack could not be built; the carried name appears in
/// the operator-facing message.
#[derive(Clone, Debug)]
pub enum BuildError {
    /// A module name is not in the registry.
    UnknownModule { name: String },
    /// A link endpoint names no module of the graph.
    UnknownLinkEndpoint { name: String },
    /// A repeated edge, or an edge from a node to itself.
    DuplicateEdge,
    /// The named stack or graph config is not loaded.
    UnknownName { name: String },
}

/// The index a link endpoint resolves to: the first module with that name.
pub open spec fn spec_name_idx(names: Seq<String>, name: Seq<char>) -> Option<int>
    decreases names.len(),
{
    if names.len() == 0 {
        None
    } else if names.first()@ == name {
        Some(0int)
    } else {
        match spec_name_idx(names.drop_first(), name) {
            Some(i) => Some(i + 1),
            None => None,
        }
    }
}

fn name_idx(names: &Vec<String>, name: &String) -> (r: Option<usize>)
    ensures
        match r {
            Some(i) => spec_name_idx(names@, name@) == Some(i as int) && i < names@.len()
                && names@[i as int]@ == name@,
            None => spec_name_idx(names@, name@) is None,
        },
{
    let mut i: usize = 0;
    while i < names.len()
        invariant
            0 <= i <= names@.len(),
            forall|j: int| 0 <= j < i ==> names@[j]@ != name@,
        decreases names@.len() - i,
    {
        if names[i] == *name {
            proof {
                assert(names@.skip(i as int).first() == names@[i as int]);
                assert(spec_name_idx(names@.skip(i as int), name@) == Some(0int));
                lemma_name_idx_skip(names@, name@, i as int);
            }
            return Some(i);
        }
        i = i + 1;
    }
    proof {
        assert(names@.skip(i as int).len() == 0);
        assert(spec_name_idx(names@.skip(i as int), name@) is None);
        lemma_name_idx_skip(names@, name@, i as int);
    }
    None
}

/// Relates the resolution of a suffix to the whole list.
proof fn lemma_name_idx_skip(names: Seq<String>, name: Seq<char>, i: int)
    requires
        0 <= i <= names.len(),
        forall|j: int| 0 <= j < i ==> names[j]@ != name,
    ensures
        match spec_name_idx(names.skip(i), name) {
            Some(k) => spec_name_idx(names, name) == Some(k + i),
            None => spec_name_idx(names, name) is None,
        },
    decreases i,
{
    if i > 0 {
        assert(names.first()@ != name);
        assert(names.drop_first().skip(i - 1) =~= names.skip(i));
        assert forall|j: int| 0 <= j < i - 1 implies names.drop_first()[j]@ != name by {
            assert(names[j + 1]@ != name);
        }
        lemma_name_idx_skip(names.drop_first(), name, i - 1);
    } else {
        assert(names.skip(0) =~= names);
    }
}

/// Where a link's source endpoint resolves, if anywhere.
pub open spec fn spec_link_src(
    links: Seq<(String, String)>,
    modules: Seq<String>,
    l: int,
) -> Option<int> {
    spec_name_idx(modules, links[l].0@)
}

/// Where a link's destination endpoint resolves, if anywhere.
pub open spec fn spec_link_dst(
    links: Seq<(String, String)>,
    modules: Seq<String>,
    l: int,
) -> Option<int> {
    spec_name_idx(modules, links[l].1@)
}

/// The node indices that the links with source `src` feed, in link order:
/// the edge list the builder gives node `src`.
pub open spec fn spec_resolved_edges(
    links: Seq<(String, String)>,
    modules: Seq<String>,
    src: int,
) -> Seq<int>
    decreases links.len(),
{
    if links.len() == 0 {
        Seq::empty()
    } else {
        let prefix = spec_resolved_edges(links.drop_last(), modules, src);
        if spec_link_src(links, modules, links.len() - 1) == Some(src) {
            match spec_link_dst(links, modules, links.len() - 1) {
                Some(d) => prefix.push(d),
                None => prefix,
            }
        } else {
            prefix
        }
    }
}

/// The stored edge list equals the resolved destination list, element for
/// element.
pub open spec fn edges_match(stored: Seq<usize>, resolved: Seq<int>) -> bool {
    &&& stored.len() == resolved.len()
    &&& forall|e: int| 0 <= e < stored.len() ==> (#[trigger] stored[e]) as int == resolved[e]
}

/// Exactly the descriptions the builder accepts: every module name
/// registered, every link endpoint resolvable, and no link a self-loop or a
/// repetition of an earlier link's resolved edge.
pub open spec fn graph_cfg_ok(config: GraphConfig, registry: Registry) -> bool {
    &&& (forall|i: int|
        0 <= i < config.modules@.len() ==> registry.spec_module(
            (#[trigger] config.modules@[i])@,
        ) is Some)
    &&& (forall|l: int|
        0 <= l < config.links@.len() ==> (#[trigger] spec_link_src(
            config.links@,
            config.modules@,
            l,
        )) is Some && spec_link_dst(config.links@, config.modules@, l) is Some)
    &&& (forall|l: int|
        0 <= l < config.links@.len() ==> (#[trigger] spec_link_src(
            config.links@,
            config.modules@,
            l,
        )) != spec_link_dst(config.links@, config.modules@, l))
    &&& (forall|a: int, b: int|
        0 <= a < b < config.links@.len() ==> !(#[trigger] spec_link_src(
            config.links@,
            config.modules@,
            a,
        ) == #[trigger] spec_link_src(config.links@, config.modules@, b) && spec_link_dst(
            config.links@,
            config.modules@,
            a,
        ) == spec_link_dst(config.links@, config.modules@, b)))
}

/// An edge recorded by the builder comes from some link of the prefix.
proof fn lemma_resolved_edge_source(
    links: Seq<(String, String)>,
    modules: Seq<String>,
    src: int,
    d: int,
)
    requires
        spec_resolved_edges(links, modules, src).contains(d),
    ensures
        exists|a: int|
            0 <= a < links.len() && #[trigger] spec_link_src(links, modules, a) == Some(src)
                && spec_link_dst(links, modules, a) == Some(d),
    decreases links.len(),
{
    let es = spec_resolved_edges(links, modules, src);
    let prefix = spec_resolved_edges(links.drop_last(), modules, src);
    if links.len() > 0 && es =~= prefix.push(d) && spec_link_src(links, modules, links.len() - 1)
        == Some(src) && spec_link_dst(links, modules, links.len() - 1) == Some(d) {
        assert(spec_link_src(links, modules, links.len() - 1) == Some(src));
    } else {
        assert(prefix.contains(d)) by {
            let e = choose|e: int| 0 <= e < es.len() && es[e] == d;
            if spec_link_src(links, modules, links.len() - 1) == Some(src) && spec_link_dst(
                links,
                modules,
                links.len() - 1,
            ) is Some {
                assert(es == prefix.push(spec_resolved_edges(links, modules, src).last()));
                assert(e < prefix.len());
                assert(prefix[e] == d);
            } else {
                assert(es == prefix);
            }
        }
        lemma_resolved_edge_source(links.drop_last(), modules, src, d);
        let a = choose|a: int|
            0 <= a < links.drop_last().len() && #[trigger] spec_link_src(
                links.drop_last(),
                modules,
                a,
            ) == Some(src) && spec_link_dst(links.drop_last(), modules, a) == Some(d);
        assert(links.drop_last()[a] == links[a]);
        assert(spec_link_src(links, modules, a) == Some(src));
        assert(spec_link_dst(links, modules, a) == Some(d));
    }
}

/// Conversely, every link's resolved edge is recorded for its source.
proof fn lemma_resolved_edge_complete(
    links: Seq<(String, String)>,
    modules: Seq<String>,
    a: int,
    src: int,
    d: int,
)
    requires
        0 <= a < links.len(),
        spec_link_src(links, modules, a) == Some(src),
        spec_link_dst(links, modules, a) == Some(d),
    ensures
        spec_resolved_edges(links, modules, src).contains(d),
    decreases links.len(),
{
    if a == links.len() - 1 {
        let es = spec_resolved_edges(links, modules, src);
        assert(es.last() == d);
        assert(es.contains(d));
    } else {
        assert(links.drop_last()[a] == links[a]);
        assert(spec_link_src(links.drop_last(), modules, a) == Some(src));
        assert(spec_link_dst(links.drop_last(), modules, a) == Some(d));
        lemma_resolved_edge_complete(links.drop_last(), modules, a, src, d);
        let prefix = spec_resolved_edges(links.drop_last(), modules, src);
        let e = choose|e: int| 0 <= e < prefix.len() && prefix[e] == d;
        let es = spec_resolved_edges(links, modules, src);
        assert(es[e] == d) by {
            if spec_link_src(links, modules, links.len() - 1) == Some(src) && spec_link_dst(
                links,
                modules,
                links.len() - 1,
            ) is Some {
                assert(es == prefix.push(es.last()));
            } else {
                assert(es == prefix);
            }
        }
        assert(es.contains(d));
    }
}

impl Node {
    /// Structural validity within a graph of `n` nodes: every edge leads to
    /// a valid node other than this one, and no edge repeats.
    pub open spec fn edges_ok(&self, me: int, n: int) -> bool {
        &&& (forall|e: int|
            0 <= e < self.links_to@.len() ==> (#[trigger] self.links_to@[e]) < n)
        &&& (forall|e: int| 0 <= e < self.links_to@.len() ==> self.links_to@[e] != me)
        &&& (forall|a: int, b: int|
            0 <= a < b < self.links_to@.len() ==> self.links_to@[a] != self.links_to@[b])
    }
}

impl Graph {
    /// What `build` guarantees of every node it produces.
    pub open spec fn wf(&self) -> bool {
        &&& (forall|i: int|
            0 <= i < self.nodes@.len() ==> (#[trigger] self.nodes@[i]).edges_ok(
                i,
                self.nodes@.len() as int,
            ))
        &&& (forall|i: int| 0 <= i < self.nodes@.len() ==> (#[trigger] self.nodes@[i]).module.inv())
        &&& (forall|i: int|
            0 <= i < self.nodes@.len() ==> (#[trigger] self.nodes@[i]).module.staged()
                == Multiset::<usize>::empty())
    }

    /// Builds one executable replica from a graph description.
    ///
    /// Each module name is instantiated through the registry, its position
    /// becoming its node id; each link is resolved by first-match name
    /// lookup and appended to its source's edges, so node `i` feeds exactly
    /// the resolved destinations of the links sourced at `i`, in link
    /// order. The build succeeds exactly when the description is valid
    /// ([`graph_cfg_ok`]); an unregistered module name or an unresolvable
    /// endpoint is reported with the offending name, a repeated edge or a
    /// self-loop as a duplicate edge.
    pub fn build(config: &GraphConfig, registry: &Registry, id: u32, cpu: u32) -> (r: Result<
        Graph,
        BuildError,
    >)
        requires
            registry.wf(),
        ensures
            r is Ok <==> graph_cfg_ok(*config, *registry),
            match r {
                Ok(g) => {
                    &&& g.wf()
                    &&& g.id == id
                    &&& g.cpu == cpu
                    &&& g.nodes@.len() == config.modules@.len()
                    &&& (forall|i: int|
                        0 <= i < g.nodes@.len() ==> registry.spec_module(config.modules@[i]@)
                            == Some((#[trigger] g.nodes@[i]).module.spec_kind()))
                    &&& (forall|i: int|
                        0 <= i < g.nodes@.len() ==> edges_match(
                            (#[trigger] g.nodes@[i]).links_to@,
                            spec_resolved_edges(config.links@, config.modules@, i),
                        ))
                },
                Err(e) => match e {
                    BuildError::UnknownModule { name } => exists|i: int|
                        0 <= i < config.modules@.len() && (#[trigger] config.modules@[i])@
                            == name@ && registry.spec_module(name@) is None,
                    BuildError::UnknownLinkEndpoint { name } => {
                        &&& (forall|i: int|
                            0 <= i < config.modules@.len() ==> registry.spec_module(
                                (#[trigger] config.modules@[i])@,
                            ) is Some)
                        &&& spec_name_idx(config.modules@, name@) is None
                        &&& exists|l: int|
                            0 <= l < config.links@.len() && ((#[trigger] config.links@[l]).0@
                                == name@ || config.links@[l].1@ == name@)
                    },
                    BuildError::DuplicateEdge => {
                        &&& (forall|i: int|
                            0 <= i < config.modules@.len() ==> registry.spec_module(
                                (#[trigger] config.modules@[i])@,
                            ) is Some)
                        &&& exists|l: int|
                            0 <= l < config.links@.len() && ((#[trigger] spec_link_src(
                                config.links@,
                                config.modules@,
                                l,
                            )) == spec_link_dst(config.links@, config.modules@, l) || exists|
                                a: int,
                            |
                                0 <= a < l && #[trigger] spec_link_src(
                                    config.links@,
                                    config.modules@,
                                    a,
                                ) == spec_link_src(config.links@, config.modules@, l)
                                    && spec_link_dst(config.links@, config.modules@, a)
                                    == spec_link_dst(config.links@, config.modules@, l))
                    },
                    BuildError::UnknownName { name } => false,
                },
            },
    {
        let mut nodes: Vec<Node> = Vec::new();
        let mut i: usize = 0;
        let n = config.modules.len();
        while i < n
            invariant
                0 <= i <= n,
                n == config.modules@.len(),
                nodes@.len() == i,
                registry.wf(),
                forall|j: int|
                    0 <= j < i ==> registry.spec_module(config.modules@[j]@) == Some(
                        (#[trigger] nodes@[j]).module.spec_kind(),
                    ),
                forall|j: int| 0 <= j < i ==> (#[trigger] nodes@[j]).module.inv(),
                forall|j: int|
                    0 <= j < i ==> (#[trigger] nodes@[j]).module.staged() == Multiset::<
                        usize,
                    >::empty(),
                forall|j: int| 0 <= j < i ==> (#[trigger] nodes@[j]).links_to@.len() == 0,
            decreases n - i,
        {
            let m = match registry.build_module(config.modules[i].as_str()) {
                Some(m) => m,
                None => {
                    return Err(
                        BuildError::UnknownModule { name: config.modules[i].clone() },
                    );
                },
            };
            let ghost pre = nodes@;
            nodes.push(Node { module: m, links_to: Vec::new() });
            proof {
                assert forall|j: int|
                    0 <= j < i + 1 implies registry.spec_module(config.modules@[j]@) == Some(
                    (#[trigger] nodes@[j]).module.spec_kind(),
                ) && nodes@[j].module.inv() && nodes@[j].module.staged() == Multiset::<
                    usize,
                >::empty() && nodes@[j].links_to@.len() == 0 by {
                    if j < i {
                        assert(nodes@[j] == pre[j]);
                    }
                }
            }
            i = i + 1;
        }
        let mut l: usize = 0;
        let nl = config.links.len();
        proof {
            assert(config.links@.take(0) =~= Seq::<(String, String)>::empty());
            assert forall|x: int|
                0 <= x < n implies edges_match(
                (#[trigger] nodes@[x]).links_to@,
                spec_resolved_edges(config.links@.take(0), config.modules@, x),
            ) by {}
        }
        while l < nl
            invariant
                0 <= l <= nl,
                nl == config.links@.len(),
                nodes@.len() == n,
                n == config.modules@.len(),
                registry.wf(),
                forall|j: int|
                    0 <= j < n ==> registry.spec_module(config.modules@[j]@) == Some(
                        (#[trigger] nodes@[j]).module.spec_kind(),
                    ),
                forall|j: int| 0 <= j < n ==> (#[trigger] nodes@[j]).module.inv(),
                forall|j: int|
                    0 <= j < n ==> (#[trigger] nodes@[j]).module.staged() == Multiset::<
                        usize,
                    >::empty(),
                forall|j: int|
                    0 <= j < n ==> (#[trigger] nodes@[j]).edges_ok(j, n as int),
                forall|j: int|
                    0 <= j < n ==> edges_match(
                        (#[trigger] nodes@[j]).links_to@,
                        spec_resolved_edges(config.links@.take(l as int), config.modules@, j),
                    ),
                forall|a: int|
                    0 <= a < l ==> (#[trigger] spec_link_src(config.links@, config.modules@, a))
                        is Some && spec_link_dst(config.links@, config.modules@, a) is Some,
                forall|a: int|
                    0 <= a < l ==> (#[trigger] spec_link_src(config.links@, config.modules@, a))
                        != spec_link_dst(config.links@, config.modules@, a),
                forall|a: int, b: int|
                    0 <= a < b < l ==> !(#[trigger] spec_link_src(
                        config.links@,
                        config.modules@,
                        a,
                    ) == #[trigger] spec_link_src(config.links@, config.modules@, b)
                        && spec_link_dst(config.links@, config.modules@, a) == spec_link_dst(
                        config.links@,
                        config.modules@,
                        b,
                    )),
            decreases nl - l,
        {
            let src_idx = match name_idx(&config.modules, &config.links[l].0) {
                Some(i) => i,
                None => {
                    proof {
                        assert(spec_link_src(config.links@, config.modules@, l as int) is None);
                        assert(!graph_cfg_ok(*config, *registry));
                    }
                    proof {
                        assert forall|i: int|
                            0 <= i < config.modules@.len() implies registry.spec_module(
                            (#[trigger] config.modules@[i])@,
                        ) is Some by {
                            assert(registry.spec_module(config.modules@[i]@) == Some(
                                nodes@[i].module.spec_kind(),
                            ));
                        }
                    }
                    return Err(
                        BuildError::UnknownLinkEndpoint { name: config.links[l].0.clone() },
                    );
                },
            };
            let dst_idx = match name_idx(&config.modules, &config.links[l].1) {
                Some(i) => i,
                None => {
                    proof {
                        assert(spec_link_dst(config.links@, config.modules@, l as int) is None);
                        assert(!graph_cfg_ok(*config, *registry));
                    }
                    proof {
                        assert forall|i: int|
                            0 <= i < config.modules@.len() implies registry.spec_module(
                            (#[trigger] config.modules@[i])@,
                        ) is Some by {
                            assert(registry.spec_module(config.modules@[i]@) == Some(
                                nodes@[i].module.spec_kind(),
                            ));
                        }
                    }
                    return Err(
                        BuildError::UnknownLinkEndpoint { name: config.links[l].1.clone() },
                    );
                },
            };
            if src_idx == dst_idx {
                // a self-loop is the simplest cycle; the edge rule rejects it
                proof {
                    assert(spec_link_src(config.links@, config.modules@, l as int) == Some(
                        src_idx as int,
                    ));
                    assert(spec_link_dst(config.links@, config.modules@, l as int) == Some(
                        dst_idx as int,
                    ));
                    assert(!graph_cfg_ok(*config, *registry));
                    assert forall|i: int|
                        0 <= i < config.modules@.len() implies registry.spec_module(
                        (#[trigger] config.modules@[i])@,
                    ) is Some by {
                        assert(registry.spec_module(config.modules@[i]@) == Some(
                            nodes@[i].module.spec_kind(),
                        ));
                    }
                }
                return Err(BuildError::DuplicateEdge);
            }
            let mut dup = false;
            {
                let edges = &nodes[src_idx].links_to;
                let mut e: usize = 0;
                while e < edges.len()
                    invariant
                        0 <= e <= edges@.len(),
                        dup == exists|a: int| 0 <= a < e && edges@[a] == dst_idx,
                    decreases edges@.len() - e,
                {
                    if edges[e] == dst_idx {
                        dup = true;
                    }
                    e = e + 1;
                }
            }
            if dup {
                proof {
                    // the repeated destination traces back to an earlier link
                    let edges = nodes@[src_idx as int].links_to@;
                    let prefix = config.links@.take(l as int);
                    let e = choose|a: int| 0 <= a < edges.len() && edges[a] == dst_idx;
                    assert(spec_resolved_edges(prefix, config.modules@, src_idx as int).contains(
                        dst_idx as int,
                    )) by {
                        assert(spec_resolved_edges(prefix, config.modules@, src_idx as int)[e]
                            == dst_idx as int);
                    }
                    lemma_resolved_edge_source(
                        prefix,
                        config.modules@,
                        src_idx as int,
                        dst_idx as int,
                    );
                    let a = choose|a: int|
                        0 <= a < prefix.len() && #[trigger] spec_link_src(
                            prefix,
                            config.modules@,
                            a,
                        ) == Some(src_idx as int) && spec_link_dst(prefix, config.modules@, a)
                            == Some(dst_idx as int);
                    assert(prefix[a] == config.links@[a]);
                    assert(spec_link_src(config.links@, config.modules@, a) == Some(
                        src_idx as int,
                    ));
                    assert(spec_link_dst(config.links@, config.modules@, a) == Some(
                        dst_idx as int,
                    ));
                    assert(spec_link_src(config.links@, config.modules@, l as int) == Some(
                        src_idx as int,
                    ));
                    assert(spec_link_dst(config.links@, config.modules@, l as int) == Some(
                        dst_idx as int,
                    ));
                    assert(!graph_cfg_ok(*config, *registry));
                    assert forall|i: int|
                        0 <= i < config.modules@.len() implies registry.spec_module(
                        (#[trigger] config.modules@[i])@,
                    ) is Some by {
                        assert(registry.spec_module(config.modules@[i]@) == Some(
                            nodes@[i].module.spec_kind(),
                        ));
                    }
                }
                return Err(BuildError::DuplicateEdge);
            }
            let ghost pre = nodes@;
            let node = &mut nodes[src_idx];
            node.links_to.push(dst_idx);
            proof {
                assert(nodes@ == pre.update(src_idx as int, nodes@[src_idx as int]));
                assert(config.links@.take(l + 1).drop_last() =~= config.links@.take(l as int));
                assert(config.links@.take(l + 1).last() == config.links@[l as int]);
                assert forall|lk: int|
                    0 <= lk < l + 1 implies spec_link_src(config.links@.take(l + 1), config.modules@, lk)
                    == spec_link_src(config.links@, config.modules@, lk) && spec_link_dst(
                    config.links@.take(l + 1),
                    config.modules@,
                    lk,
                ) == spec_link_dst(config.links@, config.modules@, lk) by {
                    assert(config.links@.take(l + 1)[lk] == config.links@[lk]);
                }
                assert forall|j: int|
                    0 <= j < n implies registry.spec_module(config.modules@[j]@) == Some(
                    (#[trigger] nodes@[j]).module.spec_kind(),
                ) && nodes@[j].module.inv() && nodes@[j].module.staged() == Multiset::<
                    usize,
                >::empty() && nodes@[j].edges_ok(j, n as int) && edges_match(
                    nodes@[j].links_to@,
                    spec_resolved_edges(config.links@.take(l + 1), config.modules@, j),
                ) by {
                    if j != src_idx {
                        assert(nodes@[j] == pre[j]);
                        assert(spec_resolved_edges(config.links@.take(l + 1), config.modules@, j)
                            == spec_resolved_edges(config.links@.take(l as int), config.modules@, j));
                    } else {
                        assert(nodes@[j].links_to@ == pre[j].links_to@.push(dst_idx));
                        assert(nodes@[j].module == pre[j].module);
                        assert(spec_resolved_edges(config.links@.take(l + 1), config.modules@, j)
                            == spec_resolved_edges(
                            config.links@.take(l as int),
                            config.modules@,
                            j,
                        ).push(dst_idx as int));
                    }
                }
            }
            proof {
                assert(spec_link_src(config.links@, config.modules@, l as int) == Some(
                    src_idx as int,
                ));
                assert(spec_link_dst(config.links@, config.modules@, l as int) == Some(
                    dst_idx as int,
                ));
                assert forall|a: int|
                    0 <= a < l implies !(#[trigger] spec_link_src(
                    config.links@,
                    config.modules@,
                    a,
                ) == spec_link_src(config.links@, config.modules@, l as int) && spec_link_dst(
                    config.links@,
                    config.modules@,
                    a,
                ) == spec_link_dst(config.links@, config.modules@, l as int)) by {
                    if spec_link_src(config.links@, config.modules@, a) == Some(src_idx as int)
                        && spec_link_dst(config.links@, config.modules@, a) == Some(
                        dst_idx as int,
                    ) {
                        let prefix = config.links@.take(l as int);
                        assert(prefix[a] == config.links@[a]);
                        assert(spec_link_src(prefix, config.modules@, a) == Some(src_idx as int));
                        assert(spec_link_dst(prefix, config.modules@, a) == Some(dst_idx as int));
                        lemma_resolved_edge_complete(
                            prefix,
                            config.modules@,
                            a,
                            src_idx as int,
                            dst_idx as int,
                        );
                        let es = spec_resolved_edges(prefix, config.modules@, src_idx as int);
                        let e = choose|e: int| 0 <= e < es.len() && es[e] == dst_idx as int;
                        assert(pre[src_idx as int].links_to@[e] == dst_idx);
                    }
                }
            }
            l = l + 1;
        }
        proof {
            assert(config.links@.take(nl as int) =~= config.links@);
            assert forall|i: int|
                0 <= i < config.modules@.len() implies registry.spec_module(
                (#[trigger] config.modules@[i])@,
            ) is Some by {
                assert(registry.spec_module(config.modules@[i]@) == Some(
                    nodes@[i].module.spec_kind(),
                ));
            }
            assert(graph_cfg_ok(*config, *registry));
        }
        Ok(Graph { id, cpu, nodes })
    }

}


/// Every packet reference staged inside a list of nodes' modules.
pub open spec fn nodes_staged(ns: Seq<Node>) -> Multiset<usize>
    decreases ns.len(),
{
    if ns.len() == 0 {
        Multiset::empty()
    } else {
        nodes_staged(ns.drop_last()).add(ns.last().module.staged())
    }
}

/// Replacing one node replaces exactly its module's contribution.
pub proof fn lemma_nodes_staged_update(ns: Seq<Node>, i: int, nd: Node)
    requires
        0 <= i < ns.len(),
    ensures
        nodes_staged(ns.update(i, nd)).add(ns[i].module.staged()) =~= nodes_staged(ns).add(
            nd.module.staged(),
        ),
    decreases ns.len(),
{
    let ns2 = ns.update(i, nd);
    assert(ns2.len() == ns.len());
    if i == ns.len() - 1 {
        assert(ns2.drop_last() =~= ns.drop_last());
        assert(ns2.last() == nd);
        assert(nodes_staged(ns2) == nodes_staged(ns.drop_last()).add(nd.module.staged()));
        assert(nodes_staged(ns) == nodes_staged(ns.drop_last()).add(ns[i].module.staged()));
    } else {
        assert(ns2.drop_last() =~= ns.drop_last().update(i, nd));
        assert(ns2.last() == ns.last());
        lemma_nodes_staged_update(ns.drop_last(), i, nd);
        assert(nodes_staged(ns2) == nodes_staged(ns.drop_last().update(i, nd)).add(
            ns.last().module.staged(),
        ));
        assert(nodes_staged(ns) == nodes_staged(ns.drop_last()).add(ns.last().module.staged()));
        assert(ns.drop_last()[i] == ns[i]);
    }
    assert forall|x: usize|
        nodes_staged(ns2).add(ns[i].module.staged()).count(x) == nodes_staged(ns).add(
            nd.module.staged(),
        ).count(x) by {
        if i < ns.len() - 1 {
            let dl = ns.drop_last();
            assert(nodes_staged(dl.update(i, nd)).add(dl[i].module.staged()).count(x)
                == nodes_staged(dl).add(nd.module.staged()).count(x));
            assert(nodes_staged(dl.update(i, nd)).add(dl[i].module.staged()).count(x)
                == nodes_staged(dl.update(i, nd)).count(x) + dl[i].module.staged().count(x));
            assert(nodes_staged(dl).add(nd.module.staged()).count(x) == nodes_staged(dl).count(x)
                + nd.module.staged().count(x));
        }
    }
}

/// One node's staging never exceeds the whole list's.
pub proof fn lemma_nodes_staged_component(ns: Seq<Node>, i: int, s: usize)
    requires
        0 <= i < ns.len(),
    ensures
        nodes_staged(ns).count(s) >= ns[i].module.staged().count(s),
    decreases ns.len(),
{
    if i == ns.len() - 1 {
    } else {
        lemma_nodes_staged_component(ns.drop_last(), i, s);
        assert(ns.drop_last()[i] == ns[i]);
    }
}

/// Nodes whose modules stage nothing stage nothing together.
pub proof fn lemma_nodes_staged_empty(ns: Seq<Node>)
    requires
        forall|i: int|
            0 <= i < ns.len() ==> (#[trigger] ns[i]).module.staged() == Multiset::<
                usize,
            >::empty(),
    ensures
        nodes_staged(ns) =~= Multiset::<usize>::empty(),
    decreases ns.len(),
{
    if ns.len() > 0 {
        lemma_nodes_staged_empty(ns.drop_last());
    }
}

/// The packet references the task stack holds, by pool slot.
pub open spec fn tasks_ms(ts: Seq<Task>) -> Multiset<usize> {
    ts.map_values(|t: Task| t.data).to_multiset()
}

proof fn lemma_tasks_ms_push(ts: Seq<Task>, t: Task)
    ensures
        tasks_ms(ts.push(t)) =~= tasks_ms(ts).insert(t.data),
{
    assert(ts.push(t).map_values(|x: Task| x.data) =~= ts.map_values(|x: Task| x.data).push(
        t.data,
    ));
}

proof fn lemma_tasks_ms_pop(ts: Seq<Task>)
    requires
        ts.len() > 0,
    ensures
        tasks_ms(ts) =~= tasks_ms(ts.drop_last()).insert(ts.last().data),
{
    assert(ts.map_values(|x: Task| x.data) =~= ts.drop_last().map_values(
        |x: Task| x.data,
    ).push(ts.last().data));
}

/// The per-core runtime that drives one graph replica.
pub struct Worker {
    pub id: u32,
    pub graph_id: u32,
    pub cpu: u32,
    pub stack_name: String,
    pub thread_id: u32,
    pub nodes: Vec<Node>,
    pub nodes_to_poll: Vec<usize>,
    pub task_queue: Vec<Task>,
    pub pool: PacketPool,
    pub ctx: Context,
    pub destroyed: bool,
}

impl Worker {
    pub open spec fn spec_nodes(&self) -> Seq<Node> {
        self.nodes@
    }

    pub open spec fn spec_tasks(&self) -> Seq<Task> {
        self.task_queue@
    }

    pub open spec fn spec_pool(&self) -> PacketPool {
        self.pool
    }

    pub open spec fn spec_destroyed(&self) -> bool {
        self.destroyed
    }

    pub open spec fn spec_polls(&self) -> Seq<usize> {
        self.nodes_to_poll@
    }

    /// All packet references the worker tracks for a slot: tasks on the
    /// stack plus frames staged in adapters.
    pub open spec fn refs(&self, s: usize) -> nat {
        tasks_ms(self.spec_tasks()).count(s) + nodes_staged(self.spec_nodes()).count(s)
    }

    /// The central accounting: every live packet's reference count equals
    /// the references the worker tracks for it, references point only at
    /// live packets, and live packets are well formed.
    pub open spec fn accounting(&self) -> bool {
        &&& (forall|s: usize|
            #![trigger self.spec_pool().is_live(s)]
            self.spec_pool().is_live(s) ==> self.spec_pool().spec_packets()[s as int].refcnt
                == self.refs(s))
        &&& (forall|s: usize| #[trigger] self.refs(s) > 0 ==> self.spec_pool().is_live(s))
        &&& (forall|s: usize|
            self.spec_pool().is_live(s) ==> (#[trigger] self.spec_pool().spec_packets()[
            s as int]).wf())
    }

    /// The worker's invariant, kept by every phase.
    pub open spec fn inv(&self) -> bool {
        &&& self.spec_pool().wf()
        &&& self.spec_tasks().len() <= TASK_QUEUE_SIZE
        &&& (forall|i: int|
            0 <= i < self.spec_tasks().len() ==> (#[trigger] self.spec_tasks()[i]).node_id
                < self.spec_nodes().len())
        &&& (forall|i: int|
            0 <= i < self.spec_nodes().len() ==> (#[trigger] self.spec_nodes()[i]).edges_ok(
                i,
                self.spec_nodes().len() as int,
            ))
        &&& (forall|i: int|
            0 <= i < self.spec_nodes().len() ==> (#[trigger] self.spec_nodes()[i]).module.inv())
        &&& (forall|i: int|
            0 <= i < self.spec_nodes().len() ==> (#[trigger] self.spec_nodes()[i]).module.ready())
        &&& (forall|i: int|
            0 <= i < self.spec_polls().len() ==> (#[trigger] self.spec_polls()[i])
                < self.spec_nodes().len())
        &&& (forall|i: int|
            0 <= i < self.spec_polls().len() ==> self.spec_nodes()[(
            #[trigger] self.spec_polls()[i]) as int].links_to@.len() <= 1)
        &&& self.accounting()
    }

    /// The worker's packet pool, for inspection at shutdown.
    pub fn pool(&self) -> (r: &PacketPool)
        ensures
            *r == self.spec_pool(),
    {
        &self.pool
    }

    /// Tasks waiting on the stack.
    pub fn task_count(&self) -> (r: usize)
        ensures
            r == self.spec_tasks().len(),
    {
        self.task_queue.len()
    }

    /// Whether shutdown has destroyed the nodes.
    pub fn is_destroyed(&self) -> (r: bool)
        ensures
            r == self.spec_destroyed(),
    {
        self.destroyed
    }
}


impl Worker {
    /// Builds the per-core runtime: initializes every node's module against
    /// the stack configuration, collects the pollable nodes, and takes
    /// ownership of a fresh packet pool. A pollable node may feed at most
    /// one successor, so a polled burst never needs a reference-count
    /// adjustment; more is a configuration error.
    /// When a worker comes up on a graph: the I/O node accepts the stack's
    /// NIC count, and every pollable node feeds at most one successor (a
    /// polled burst cannot fan out).
    pub open spec fn spec_graph_accepted(
        nodes: Seq<Node>,
        stack: crate::config::StackConfig,
    ) -> bool {
        forall|j: int|
            0 <= j < nodes.len() ==> (((#[trigger] nodes[j]).module.spec_kind()
                == crate::modules::ModuleKind::IoNode ==> stack.nics@.len()
                <= crate::nio::NUM_ADAPTER_MAX) && (nodes[j].module.spec_capability().poll
                ==> nodes[j].links_to@.len() <= 1))
    }

    pub fn new(
        id: u32,
        stack_name: String,
        graph: Graph,
        thread_id: u32,
        queue: u16,
        num_queues: u16,
        stack: &crate::config::StackConfig,
        pool: PacketPool,
    ) -> (r: Result<Worker, ModuleError>)
        requires
            graph.wf(),
            pool.wf(),
            forall|s: usize| !pool.is_live(s),
            forall|i: int| 0 <= i < stack.routes@.len() ==> (#[trigger] stack.routes@[i]).wf(),
        ensures
            match r {
                Ok(w) => {
                    &&& w.inv()
                    &&& !w.spec_destroyed()
                    &&& w.spec_tasks().len() == 0
                    &&& w.id == id
                    &&& w.graph_id == graph.id
                    &&& w.cpu == graph.cpu
                    &&& w.spec_pool().capacity() == pool.capacity()
                    &&& w.spec_pool().free_len() == pool.free_len()
                },
                Err(e) => e == ModuleError::Unknown,
            },
            r is Ok <==> Self::spec_graph_accepted(graph.nodes@, *stack),
    {
        let ctx = Context {
            cpu: graph.cpu,
            worker_id: id,
            thread_id,
            graph_id: graph.id,
            stack_name: stack_name.clone(),
            queue,
            num_queues,
        };
        let mut nodes = graph.nodes;
        let n = nodes.len();
        let mut nodes_to_poll: Vec<usize> = Vec::new();
        let mut i: usize = 0;
        while i < n
            invariant
                0 <= i <= n,
                n == nodes@.len(),
                forall|j: int| 0 <= j < stack.routes@.len() ==> (#[trigger] stack.routes@[j]).wf(),
                forall|j: int|
                    0 <= j < n ==> (#[trigger] nodes@[j]).edges_ok(j, n as int),
                forall|j: int| 0 <= j < n ==> (#[trigger] nodes@[j]).module.inv(),
                forall|j: int|
                    0 <= j < n ==> (#[trigger] nodes@[j]).module.staged() == Multiset::<
                        usize,
                    >::empty(),
                forall|j: int| 0 <= j < i ==> (#[trigger] nodes@[j]).module.ready(),
                forall|j: int|
                    0 <= j < nodes_to_poll@.len() ==> (#[trigger] nodes_to_poll@[j]) < n,
                forall|j: int|
                    0 <= j < nodes_to_poll@.len() ==> nodes@[(#[trigger] nodes_to_poll@[
                    j]) as int].links_to@.len() <= 1,
                n == graph.nodes@.len(),
                forall|j: int| i <= j < n ==> nodes@[j] == graph.nodes@[j],
                forall|j: int|
                    0 <= j < i ==> ((#[trigger] graph.nodes@[j]).module.spec_kind()
                        == crate::modules::ModuleKind::IoNode ==> stack.nics@.len()
                        <= crate::nio::NUM_ADAPTER_MAX),
                forall|j: int|
                    0 <= j < i ==> ((#[trigger] graph.nodes@[j]).module.spec_capability().poll
                        ==> graph.nodes@[j].links_to@.len() <= 1),
            decreases n - i,
        {
            let ghost pre = nodes@;
            let can_poll;
            let fanout;
            let ghost m0 = nodes@[i as int].module;
            proof {
                assert(pre[i as int] == graph.nodes@[i as int]);
            }
            {
                let node = &mut nodes[i];
                match node.module.init(&ctx, stack) {
                    Ok(_) => {},
                    Err(e) => {
                        proof {
                            assert(m0 matches Module::Io(_) && stack.nics@.len()
                                > crate::nio::NUM_ADAPTER_MAX);
                            assert(graph.nodes@[i as int].module.spec_kind()
                                == crate::modules::ModuleKind::IoNode);
                            assert(!Self::spec_graph_accepted(graph.nodes@, *stack));
                        }
                        return Err(e);
                    },
                }
                can_poll = node.module.capability().poll;
                fanout = node.links_to.len();
                proof {
                    assert(node.module.spec_kind() == m0.spec_kind());
                    assert(node.module.spec_capability() == m0.spec_capability());
                    assert(node.links_to == graph.nodes@[i as int].links_to);
                }
            }
            proof {
                assert(nodes@ == pre.update(i as int, nodes@[i as int]));
                assert(nodes@[i as int].links_to == pre[i as int].links_to);
                assert forall|j: int|
                    0 <= j < n implies (#[trigger] nodes@[j]).edges_ok(j, n as int)
                    && nodes@[j].module.inv() && nodes@[j].module.staged() == Multiset::<
                    usize,
                >::empty() && (j < i + 1 ==> nodes@[j].module.ready()) by {
                    if j != i {
                        assert(nodes@[j] == pre[j]);
                    }
                }
            }
            if can_poll {
                if fanout > 1 {
                    // a polled burst may feed at most one successor
                    proof {
                        assert(graph.nodes@[i as int].module.spec_capability().poll);
                        assert(graph.nodes@[i as int].links_to@.len() > 1);
                        assert(!Self::spec_graph_accepted(graph.nodes@, *stack));
                    }
                    return Err(ModuleError::Unknown);
                }
                nodes_to_poll.push(i);
            }
            proof {
                assert forall|j: int|
                    0 <= j < i + 1 implies ((#[trigger] graph.nodes@[j]).module.spec_kind()
                    == crate::modules::ModuleKind::IoNode ==> stack.nics@.len()
                    <= crate::nio::NUM_ADAPTER_MAX) && (graph.nodes@[j].module.spec_capability().poll
                    ==> graph.nodes@[j].links_to@.len() <= 1) by {
                    if j == i {
                        assert(graph.nodes@[j].module == m0);
                        assert(m0.spec_capability().poll == can_poll);
                    }
                }
            }
            i = i + 1;
        }
        let w = Worker {
            id,
            graph_id: graph.id,
            cpu: graph.cpu,
            stack_name,
            thread_id,
            nodes,
            nodes_to_poll,
            task_queue: Vec::new(),
            pool,
            ctx,
            destroyed: false,
        };
        proof {
            lemma_nodes_staged_empty(w.nodes@);
            assert(tasks_ms(w.task_queue@) =~= Multiset::<usize>::empty()) by {
                assert(w.task_queue@.map_values(|t: Task| t.data) =~= Seq::<usize>::empty());
            }
            assert forall|s: usize| w.spec_pool().is_live(s) implies w.spec_pool().spec_packets()[
                s as int].refcnt == w.refs(s) by {}
            assert forall|s: usize| w.refs(s) > 0 implies w.spec_pool().is_live(s) by {}
            assert(Self::spec_graph_accepted(graph.nodes@, *stack));
        }
        Ok(w)
    }

    /// Pops and runs one task: the packet advances through its node, and
    /// the node's verdict settles the reference - forwarded to `K`
    /// successors (count raised by `K - 1`, `K` tasks pushed), consumed, or
    /// handed to an adapter. A forwarding node without successors, a full
    /// task stack and a reference count at its ceiling all shed the packet
    /// by releasing the worker's reference.
    fn process_one(&mut self) -> (r: Result<(), ModuleError>)
        requires
            old(self).inv(),
            old(self).spec_tasks().len() > 0,
        ensures
            match r {
                Ok(_) => {
                    &&& final(self).inv()
                    &&& final(self).spec_nodes().len() == old(self).spec_nodes().len()
                    &&& final(self).spec_polls() == old(self).spec_polls()
                    &&& final(self).spec_destroyed() == old(self).spec_destroyed()
                },
                Err(e) => e != ModuleError::Nop && e != ModuleError::Dropped,
            },
    {
        let ghost pre_tasks = self.task_queue@;
        let t = self.task_queue.pop().unwrap();
        let slot = t.data;
        let node_idx = t.node_id;
        let ghost pre_nodes = self.nodes@;
        let ghost pre_pool = self.pool;
        let ghost mid_tasks = self.task_queue@;
        proof {
            lemma_tasks_ms_pop(pre_tasks);
            assert(tasks_ms(pre_tasks) =~= tasks_ms(mid_tasks).insert(slot));
            assert(old(self).refs(slot) > 0) by {
                assert(tasks_ms(pre_tasks).count(slot) >= 1) by {
                    assert(tasks_ms(mid_tasks).insert(slot).count(slot) >= 1);
                }
            }
            assert(old(self).spec_pool().is_live(slot));
            assert(self.pool.is_live(slot));
            // the popped task is the one in-flight reference
            assert forall|s: usize|
                pre_pool.is_live(s) implies pre_pool.spec_packets()[s as int].refcnt == tasks_ms(
                mid_tasks,
            ).count(s) + nodes_staged(pre_nodes).count(s) + (if s == slot {
                1int
            } else {
                0int
            }) by {
                assert(old(self).spec_pool().is_live(s));
                assert(pre_pool.spec_packets()[s as int].refcnt == old(self).refs(s));
                assert(tasks_ms(pre_tasks).count(s) == tasks_ms(mid_tasks).insert(slot).count(s));
            }
            assert forall|s: usize|
                tasks_ms(mid_tasks).count(s) + nodes_staged(pre_nodes).count(s) > 0 implies
                pre_pool.is_live(s) by {
                assert(tasks_ms(pre_tasks).count(s) == tasks_ms(mid_tasks).insert(slot).count(s));
                assert(old(self).refs(s) > 0);
                assert(old(self).spec_pool().is_live(s));
            }
            assert forall|s: usize|
                pre_pool.is_live(s) implies (#[trigger] pre_pool.spec_packets()[
            s as int]).wf() by {
                assert(old(self).spec_pool().is_live(s));
            }
            assert forall|s: usize|
                pre_nodes[node_idx as int].module.staged().count(s) > 0 implies pre_pool.is_live(
                s,
            ) by {
                lemma_nodes_staged_component(pre_nodes, node_idx as int, s);
            }
            assert forall|s: usize|
                pre_pool.is_live(s) implies pre_pool.spec_packets()[s as int].refcnt >= pre_nodes[
                node_idx as int].module.staged().count(s) + (if s == slot {
                    1int
                } else {
                    0int
                }) by {
                lemma_nodes_staged_component(pre_nodes, node_idx as int, s);
            }
        }
        proof {
            assert forall|i: int|
                0 <= i < mid_tasks.len() implies (#[trigger] mid_tasks[i]).node_id
                < pre_nodes.len() by {
                assert(mid_tasks[i] == pre_tasks[i]);
                assert(pre_tasks[i].node_id < pre_nodes.len());
            }
        }
        let r;
        let w;
        {
            let node = &mut self.nodes[node_idx];
            let (r0, w0) = node.module.process(&self.ctx, &mut self.pool, slot);
            r = r0;
            w = w0;
        }
        let ghost new_node = self.nodes@[node_idx as int];
        let ghost post_pool = self.pool;
        proof {
            lemma_nodes_staged_update(pre_nodes, node_idx as int, new_node);
            assert(self.nodes@ == pre_nodes.update(node_idx as int, new_node));
            assert forall|j: int|
                0 <= j < self.nodes@.len() implies (#[trigger] self.nodes@[j]).edges_ok(
                j,
                self.nodes@.len() as int,
            ) && self.nodes@[j].module.inv() && self.nodes@[j].module.ready() && self.nodes@[
                j
            ].links_to == pre_nodes[j].links_to by {
                if j != node_idx {
                    assert(self.nodes@[j] == pre_nodes[j]);
                } else {
                    assert(self.nodes@[j].links_to == pre_nodes[j].links_to);
                }
            }
            assert forall|i: int|
                0 <= i < self.spec_polls().len() implies self.spec_nodes()[(
            #[trigger] self.spec_polls()[i]) as int].links_to@.len() <= 1 by {
                assert(self.nodes@[self.spec_polls()[i] as int].links_to == pre_nodes[
                    self.spec_polls()[i] as int].links_to);
            }
        }
        match r {
            Ok(_) => {
                // the node forwarded the packet to its successors
                proof {
                    assert(nodes_staged(self.nodes@) =~= nodes_staged(pre_nodes)) by {
                        crate::memory::lemma_ms_cancel(
                            nodes_staged(self.nodes@),
                            nodes_staged(pre_nodes),
                            pre_nodes[node_idx as int].module.staged(),
                        );
                    }
                }
                let k = self.nodes[node_idx].links_to.len();
                let rc = self.pool.packet(slot).refcnt;
                if k == 0 || k > TASK_QUEUE_SIZE || self.task_queue.len() > TASK_QUEUE_SIZE - k
                    || rc > usize::MAX - k {
                    // nowhere to go, or no room: shed the packet
                    self.pool.deallocate(slot);
                    proof {
                        lemma_release_accounting(
                            post_pool,
                            self.pool,
                            slot,
                            tasks_ms(mid_tasks),
                            nodes_staged(self.nodes@),
                        );
                        assert(self.task_queue@ == mid_tasks);
                        assert(self.nodes_to_poll@ == old(self).nodes_to_poll@);
                    }
                    return Ok(());
                }
                self.pool.add_refs(slot, k - 1);
                let ghost bump_pool = self.pool;
                let ghost base_count = tasks_ms(mid_tasks).count(slot);
                let mut e: usize = 0;
                let ghost pre_push_tasks = self.task_queue@;
                while e < k
                    invariant
                        0 <= e <= k,
                        k == self.nodes@[node_idx as int].links_to@.len(),
                        node_idx < self.nodes@.len(),
                        self.nodes@[node_idx as int].edges_ok(
                            node_idx as int,
                            self.nodes@.len() as int,
                        ),
                        self.pool == bump_pool,
                        self.nodes@ == pre_nodes.update(node_idx as int, new_node),
                        self.nodes_to_poll@ == old(self).nodes_to_poll@,
                        self.destroyed == old(self).destroyed,
                        pre_push_tasks.len() + k <= TASK_QUEUE_SIZE,
                        self.task_queue@.len() == pre_push_tasks.len() + e,
                        forall|j: int|
                            0 <= j < pre_push_tasks.len() ==> self.task_queue@[j]
                                == pre_push_tasks[j],
                        forall|j: int|
                            pre_push_tasks.len() <= j < self.task_queue@.len() ==> (
                            #[trigger] self.task_queue@[j]).data == slot
                                && self.task_queue@[j].node_id < self.nodes@.len(),
                        forall|x: usize|
                            #[trigger] tasks_ms(self.task_queue@).count(x) == tasks_ms(
                                pre_push_tasks,
                            ).count(x) + (if x == slot {
                                e as nat
                            } else {
                                0nat
                            }),
                    decreases k - e,
                {
                    let dst = self.nodes[node_idx].links_to[e];
                    let ghost before = self.task_queue@;
                    self.task_queue.push(Task { node_id: dst, data: slot });
                    proof {
                        lemma_tasks_ms_push(before, Task { node_id: dst, data: slot });
                        assert forall|x: usize|
                            #[trigger] tasks_ms(self.task_queue@).count(x) == tasks_ms(
                            pre_push_tasks,
                        ).count(x) + (if x == slot {
                            (e + 1) as nat
                        } else {
                            0nat
                        }) by {
                            assert(tasks_ms(self.task_queue@).count(x) == tasks_ms(
                                before,
                            ).insert(slot).count(x));
                        }
                    }
                    e = e + 1;
                }
                proof {
                    lemma_fanout_accounting(
                        post_pool,
                        bump_pool,
                        slot,
                        k as nat,
                        tasks_ms(mid_tasks),
                        tasks_ms(self.task_queue@),
                        nodes_staged(self.nodes@),
                    );
                    assert(self.nodes_to_poll@ == old(self).nodes_to_poll@);
                    assert forall|i: int|
                        0 <= i < self.task_queue@.len() implies (
                    #[trigger] self.task_queue@[i]).node_id < self.nodes@.len() by {
                        if i < mid_tasks.len() {
                            assert(self.task_queue@[i] == mid_tasks[i]);
                        }
                    }
                }
                Ok(())
            },
            Err(ModuleError::Dropped) => {
                // the module consumed the worker's reference: freed it,
                // staged it, or staged it and flushed a burst
                proof {
                    let om = pre_nodes[node_idx as int].module;
                    let nm = new_node.module;
                    assert(nodes_staged(self.nodes@).add(om.staged()) =~= nodes_staged(
                        pre_nodes,
                    ).add(nm.staged()));
                    lemma_flush_accounting(
                        pre_pool,
                        w@.0,
                        self.pool,
                        slot,
                        w@.1,
                        tasks_ms(mid_tasks),
                        nodes_staged(pre_nodes),
                        nodes_staged(self.nodes@),
                        om.staged(),
                        nm.staged(),
                    );
                    assert(self.task_queue@ == mid_tasks);
                    assert(self.nodes_to_poll@ == old(self).nodes_to_poll@);
                }
                Ok(())
            },
            Err(e) => Err(e),
        }
    }
}

/// Releasing the one in-flight reference restores the accounting: with the
/// task popped and `extra` references remaining, a deallocate leaves every
/// live packet's count equal to its references.
proof fn lemma_release_accounting(
    o: PacketPool,
    n: PacketPool,
    slot: usize,
    tasks: Multiset<usize>,
    staged: Multiset<usize>,
)
    requires
        o.wf(),
        o.is_live(slot),
        spec_deallocated(o, n, slot),
        forall|s: usize|
            o.is_live(s) ==> o.spec_packets()[s as int].refcnt == tasks.count(s) + staged.count(s)
                + (if s == slot {
                1int
            } else {
                0int
            }),
        forall|s: usize| tasks.count(s) + staged.count(s) > 0 ==> o.is_live(s),
        forall|s: usize| o.is_live(s) ==> (#[trigger] o.spec_packets()[s as int]).wf(),
    ensures
        n.wf(),
        forall|s: usize|
            n.is_live(s) ==> n.spec_packets()[s as int].refcnt == tasks.count(s) + staged.count(
                s,
            ),
        forall|s: usize| tasks.count(s) + staged.count(s) > 0 ==> n.is_live(s),
        forall|s: usize| n.is_live(s) ==> (#[trigger] n.spec_packets()[s as int]).wf(),
        crate::packet::pool_frame(o, n),
{
    crate::packet::lemma_drained_one(o, n, slot);
    assert(seq![slot].to_multiset() =~= Multiset::<usize>::empty().insert(slot)) by {
        broadcast use vstd::seq_lib::group_to_multiset_ensures;

    }
    assert forall|s: usize|
        seq![slot].to_multiset().count(s) + tasks.add(staged).count(s) > 0 implies o.is_live(
        s,
    ) by {}
    assert forall|s: usize|
        o.is_live(s) implies o.spec_packets()[s as int].refcnt >= seq![slot].to_multiset().count(
        s,
    ) + tasks.add(staged).count(s) by {}
    crate::packet::lemma_drained_effect(o, n, seq![slot], tasks.add(staged));
    assert forall|s: usize|
        n.is_live(s) implies n.spec_packets()[s as int].refcnt == tasks.count(s) + staged.count(
        s,
    ) by {
        assert(n.spec_packets()[s as int].refcnt == o.spec_packets()[s as int].refcnt - seq![
            slot,
        ].to_multiset().count(s));
    }
    assert forall|s: usize| n.is_live(s) implies (#[trigger] n.spec_packets()[s as int]).wf() by {
        assert(crate::packet::packet_same_but_refcnt(
            o.spec_packets()[s as int],
            n.spec_packets()[s as int],
        ));
    }
}

/// Fan-out accounting: raising the count by `K - 1` and pushing `K` tasks
/// for the popped packet keeps every live packet balanced.
proof fn lemma_fanout_accounting(
    o: PacketPool,
    n: PacketPool,
    slot: usize,
    k: nat,
    tasks0: Multiset<usize>,
    tasks1: Multiset<usize>,
    staged: Multiset<usize>,
)
    requires
        k >= 1,
        o.wf(),
        o.is_live(slot),
        n.wf(),
        forall|s: usize| n.is_live(s) == o.is_live(s),
        n.spec_packets() == o.spec_packets().update(slot as int, n.spec_packets()[slot as int]),
        n.spec_packets()[slot as int].refcnt == o.spec_packets()[slot as int].refcnt + k - 1,
        crate::packet::packet_same_but_refcnt(
            o.spec_packets()[slot as int],
            n.spec_packets()[slot as int],
        ),
        forall|x: usize|
            #[trigger] tasks1.count(x) == tasks0.count(x) + (if x == slot {
                k
            } else {
                0nat
            }),
        forall|s: usize|
            o.is_live(s) ==> o.spec_packets()[s as int].refcnt == tasks0.count(s) + staged.count(s)
                + (if s == slot {
                1int
            } else {
                0int
            }),
        forall|s: usize| tasks0.count(s) + staged.count(s) > 0 ==> o.is_live(s),
        forall|s: usize| o.is_live(s) ==> (#[trigger] o.spec_packets()[s as int]).wf(),
    ensures
        forall|s: usize|
            n.is_live(s) ==> n.spec_packets()[s as int].refcnt == tasks1.count(s) + staged.count(
                s,
            ),
        forall|s: usize| tasks1.count(s) + staged.count(s) > 0 ==> n.is_live(s),
        forall|s: usize| n.is_live(s) ==> (#[trigger] n.spec_packets()[s as int]).wf(),
{
    broadcast use vstd::multiset::group_multiset_axioms;

    assert forall|s: usize|
        n.is_live(s) implies n.spec_packets()[s as int].refcnt == tasks1.count(s) + staged.count(
        s,
    ) by {
        if s != slot {
            assert(n.spec_packets()[s as int] == o.spec_packets()[s as int]);
        }
    }
    assert forall|s: usize| tasks1.count(s) + staged.count(s) > 0 implies n.is_live(s) by {
        if tasks0.count(s) + staged.count(s) > 0 {
            assert(o.is_live(s));
        } else {
            assert(s == slot);
        }
    }
    assert forall|s: usize| n.is_live(s) implies (#[trigger] n.spec_packets()[s as int]).wf() by {
        if s != slot {
            assert(n.spec_packets()[s as int] == o.spec_packets()[s as int]);
        }
    }
}

/// Staging followed by a burst flush keeps the accounting: the staged
/// reference replaces the in-flight one, and the drain releases exactly the
/// flushed references.
proof fn lemma_flush_accounting(
    o: PacketPool,
    mid: PacketPool,
    n: PacketPool,
    slot: usize,
    flushed: Seq<usize>,
    tasks: Multiset<usize>,
    staged0: Multiset<usize>,
    staged1: Multiset<usize>,
    om: Multiset<usize>,
    nm: Multiset<usize>,
)
    requires
        o.wf(),
        o.is_live(slot),
        crate::packet::pool_mutated_at(o, mid, slot),
        mid.spec_packets()[slot as int].wf(),
        forall|s: usize| flushed.to_multiset().count(s) > 0 ==> mid.is_live(s),
        om.insert(slot) == nm.add(flushed.to_multiset()),
        spec_drained(mid, n, flushed),
        staged1.add(om) == staged0.add(nm),
        forall|s: usize|
            o.is_live(s) ==> o.spec_packets()[s as int].refcnt == tasks.count(s) + staged0.count(s)
                + (if s == slot {
                1int
            } else {
                0int
            }),
        forall|s: usize| tasks.count(s) + staged0.count(s) > 0 ==> o.is_live(s),
        forall|s: usize| o.is_live(s) ==> (#[trigger] o.spec_packets()[s as int]).wf(),
    ensures
        n.wf(),
        forall|s: usize|
            n.is_live(s) ==> n.spec_packets()[s as int].refcnt == tasks.count(s) + staged1.count(
                s,
            ),
        forall|s: usize| tasks.count(s) + staged1.count(s) > 0 ==> n.is_live(s),
        forall|s: usize| n.is_live(s) ==> (#[trigger] n.spec_packets()[s as int]).wf(),
{
    // accounting in the staged state: the in-flight reference became staged
    assert forall|s: usize|
        staged1.count(s) + flushed.to_multiset().count(s) == staged0.count(s) + (if s == slot {
            1int
        } else {
            0int
        }) by {
        assert(staged1.add(om).count(s) == staged0.add(nm).count(s));
        assert(staged1.add(om).count(s) == staged1.count(s) + om.count(s));
        assert(staged0.add(nm).count(s) == staged0.count(s) + nm.count(s));
        assert(staged1.count(s) + om.count(s) == staged0.count(s) + nm.count(s));
        assert(om.insert(slot).count(s) == nm.add(flushed.to_multiset()).count(s));
        assert(om.insert(slot).count(s) == om.count(s) + (if s == slot {
            1int
        } else {
            0int
        }));
        assert(nm.add(flushed.to_multiset()).count(s) == nm.count(s)
            + flushed.to_multiset().count(s));
        assert(om.count(s) + (if s == slot {
            1int
        } else {
            0int
        }) == nm.count(s) + flushed.to_multiset().count(s));
    }
    assert forall|s: usize|
        mid.is_live(s) implies mid.spec_packets()[s as int].refcnt == tasks.count(s)
        + staged1.count(s) + flushed.to_multiset().count(s) by {
        assert(o.is_live(s));
        if s != slot {
            assert(mid.spec_packets()[s as int] == o.spec_packets()[s as int]);
        }
    }
    assert forall|s: usize|
        flushed.to_multiset().count(s) + tasks.add(staged1).count(s) > 0 implies mid.is_live(
        s,
    ) by {
        if flushed.to_multiset().count(s) == 0 {
            assert(tasks.count(s) + staged0.count(s) + (if s == slot {
                1int
            } else {
                0int
            }) > 0);
            if tasks.count(s) + staged0.count(s) > 0 {
                assert(o.is_live(s));
            } else {
                assert(s == slot);
            }
            assert(mid.is_live(s) == o.is_live(s));
        }
    }
    assert forall|s: usize|
        mid.is_live(s) implies mid.spec_packets()[s as int].refcnt >= flushed.to_multiset().count(
        s,
    ) + tasks.add(staged1).count(s) by {}
    crate::packet::lemma_drained_effect(mid, n, flushed, tasks.add(staged1));
    assert forall|s: usize|
        n.is_live(s) implies n.spec_packets()[s as int].refcnt == tasks.count(s) + staged1.count(
        s,
    ) by {
        assert(mid.is_live(s));
        assert(n.spec_packets()[s as int].refcnt == mid.spec_packets()[s as int].refcnt
            - flushed.to_multiset().count(s));
    }
    assert forall|s: usize| n.is_live(s) implies (#[trigger] n.spec_packets()[s as int]).wf() by {
        assert(mid.is_live(s));
        assert(o.is_live(s));
        if s != slot {
            assert(mid.spec_packets()[s as int] == o.spec_packets()[s as int]);
        }
        assert(mid.spec_packets()[s as int].wf());
        assert(crate::packet::packet_same_but_refcnt(
            mid.spec_packets()[s as int],
            n.spec_packets()[s as int],
        ));
    }
}


impl Worker {
    /// Runs one source node's poll: deferred flushes drain first, then each
    /// packet of the burst becomes one task for the node's successor (the
    /// burst is pushed in reverse so its head runs first). With no
    /// successor, or no room on the stack, a polled packet is released.
    fn poll_node(&mut self, pi: usize) -> (r: Result<(), ModuleError>)
        requires
            old(self).inv(),
            pi < old(self).spec_polls().len(),
        ensures
            match r {
                Ok(_) => {
                    &&& final(self).inv()
                    &&& final(self).spec_nodes().len() == old(self).spec_nodes().len()
                    &&& final(self).spec_polls() == old(self).spec_polls()
                    &&& final(self).spec_destroyed() == old(self).spec_destroyed()
                },
                Err(e) => e != ModuleError::Nop && e != ModuleError::Dropped,
            },
    {
        let node_idx = self.nodes_to_poll[pi];
        let ghost pre_nodes = self.nodes@;
        let ghost pre_pool = self.pool;
        let ghost pre_tasks = self.task_queue@;
        proof {
            assert forall|s: usize|
                pre_nodes[node_idx as int].module.staged().count(s) > 0 implies pre_pool.is_live(
                s,
            ) by {
                lemma_nodes_staged_component(pre_nodes, node_idx as int, s);
                assert(old(self).refs(s) > 0);
            }
            assert forall|s: usize|
                pre_pool.is_live(s) implies pre_pool.spec_packets()[s as int].refcnt >= pre_nodes[
                node_idx as int].module.staged().count(s) by {
                lemma_nodes_staged_component(pre_nodes, node_idx as int, s);
            }
        }
        let r;
        let w;
        {
            let node = &mut self.nodes[node_idx];
            let (r0, w0) = node.module.poll(&self.ctx, &mut self.pool);
            r = r0;
            w = w0;
        }
        let ghost new_node = self.nodes@[node_idx as int];
        let ghost mid = w@.0;
        let ghost flushed = w@.1;
        proof {
            lemma_nodes_staged_update(pre_nodes, node_idx as int, new_node);
            assert(self.nodes@ == pre_nodes.update(node_idx as int, new_node));
            assert forall|j: int|
                0 <= j < self.nodes@.len() implies (#[trigger] self.nodes@[j]).edges_ok(
                j,
                self.nodes@.len() as int,
            ) && self.nodes@[j].module.inv() && self.nodes@[j].module.ready() && self.nodes@[
                j
            ].links_to == pre_nodes[j].links_to by {
                if j != node_idx {
                    assert(self.nodes@[j] == pre_nodes[j]);
                } else {
                    assert(self.nodes@[j].links_to == pre_nodes[j].links_to);
                }
            }
            assert forall|i: int|
                0 <= i < self.spec_polls().len() implies self.spec_nodes()[(
            #[trigger] self.spec_polls()[i]) as int].links_to@.len() <= 1 by {
                assert(self.nodes@[self.spec_polls()[i] as int].links_to == pre_nodes[
                    self.spec_polls()[i] as int].links_to);
            }
            // the drained references leave the staged accounting
            let om = pre_nodes[node_idx as int].module;
            let nm = new_node.module;
            assert(nodes_staged(self.nodes@).add(om.staged()) =~= nodes_staged(pre_nodes).add(
                nm.staged(),
            ));
            assert forall|x: usize|
                nodes_staged(pre_nodes).count(x) == nodes_staged(self.nodes@).count(x)
                    + flushed.to_multiset().count(x) by {
                assert(nodes_staged(self.nodes@).add(om.staged()).count(x) == nodes_staged(
                    pre_nodes,
                ).add(nm.staged()).count(x));
                assert(om.staged().count(x) == nm.staged().count(x)
                    + flushed.to_multiset().count(x)) by {
                    assert(om.staged() == nm.staged().add(flushed.to_multiset()));
                }
            }
            assert forall|s: usize|
                flushed.to_multiset().count(s) + tasks_ms(pre_tasks).add(
                    nodes_staged(self.nodes@),
                ).count(s) > 0 implies pre_pool.is_live(s) by {
                if flushed.to_multiset().count(s) == 0 {
                    assert(old(self).refs(s) > 0);
                }
            }
            assert forall|s: usize|
                pre_pool.is_live(s) implies pre_pool.spec_packets()[s as int].refcnt
                >= flushed.to_multiset().count(s) + tasks_ms(pre_tasks).add(
                nodes_staged(self.nodes@),
            ).count(s) by {
                assert(pre_pool.spec_packets()[s as int].refcnt == old(self).refs(s));
            }
            crate::packet::lemma_drained_effect(
                pre_pool,
                mid,
                flushed,
                tasks_ms(pre_tasks).add(nodes_staged(self.nodes@)),
            );
            assert forall|s: usize|
                mid.is_live(s) implies mid.spec_packets()[s as int].refcnt == tasks_ms(
                pre_tasks,
            ).count(s) + nodes_staged(self.nodes@).count(s) by {
                assert(pre_pool.is_live(s));
                assert(mid.spec_packets()[s as int].refcnt == pre_pool.spec_packets()[
                    s as int].refcnt - flushed.to_multiset().count(s));
            }
            assert forall|s: usize|
                tasks_ms(pre_tasks).count(s) + nodes_staged(self.nodes@).count(s) > 0 implies
                mid.is_live(s) by {
                assert(tasks_ms(pre_tasks).add(nodes_staged(self.nodes@)).count(s) > 0);
            }
        }
        match r {
            Ok(slots) => {
                // one task per polled packet, pushed in reverse
                let has_link = self.nodes[node_idx].links_to.len() == 1;
                let dst = if has_link {
                    self.nodes[node_idx].links_to[0]
                } else {
                    0
                };
                let ghost post_nodes = self.nodes@;
                let n = slots.len();
                proof {
                    assert forall|s: usize|
                        (forall|a: int| 0 <= a < n ==> s != (#[trigger] slots@[a])) implies {
                        &&& (self.pool.is_live(s) ==> self.pool.spec_packets()[s as int].refcnt
                            == tasks_ms(self.task_queue@).count(s) + nodes_staged(
                            self.nodes@,
                        ).count(s))
                        &&& (tasks_ms(self.task_queue@).count(s) + nodes_staged(
                            self.nodes@,
                        ).count(s) > 0 ==> self.pool.is_live(s))
                        &&& (self.pool.is_live(s) ==> (#[trigger] self.pool.spec_packets()[
                        s as int]).wf())
                    } by {
                        assert(!slots@.contains(s)) by {
                            if slots@.contains(s) {
                                let a = choose|a: int|
                                    0 <= a < slots@.len() && slots@[a] == s;
                                assert(s == slots@[a]);
                            }
                        }
                        assert(self.pool.is_live(s) == mid.is_live(s));
                        if mid.is_live(s) {
                            assert(self.pool.spec_packets()[s as int] == mid.spec_packets()[
                                s as int]);
                        }
                    }
                    assert forall|a: int|
                        0 <= a < n implies {
                        &&& self.pool.is_live(#[trigger] slots@[a])
                        &&& self.pool.spec_packets()[slots@[a] as int].refcnt == 1
                        &&& self.pool.spec_packets()[slots@[a] as int].wf()
                        &&& tasks_ms(self.task_queue@).count(slots@[a]) + nodes_staged(
                            self.nodes@,
                        ).count(slots@[a]) == 0
                    } by {
                        assert(!mid.is_live(slots@[a]));
                        if tasks_ms(self.task_queue@).count(slots@[a]) + nodes_staged(
                            self.nodes@,
                        ).count(slots@[a]) > 0 {
                            assert(mid.is_live(slots@[a]));
                        }
                    }
                }
                let mut j: usize = n;
                while j > 0
                    invariant
                        0 < n ==> j <= n,
                        n == slots@.len(),
                        j <= n,
                        self.pool.wf(),
                        self.nodes@ == post_nodes,
                        self.nodes_to_poll@ == old(self).nodes_to_poll@,
                        self.destroyed == old(self).destroyed,
                        node_idx < self.nodes@.len(),
                        has_link ==> self.nodes@[node_idx as int].links_to@.len() == 1 && dst
                            == self.nodes@[node_idx as int].links_to@[0] && dst
                            < self.nodes@.len(),
                        !has_link ==> self.nodes@[node_idx as int].links_to@.len() != 1,
                        self.task_queue@.len() <= TASK_QUEUE_SIZE,
                        forall|i: int|
                            0 <= i < self.task_queue@.len() ==> (
                            #[trigger] self.task_queue@[i]).node_id < self.nodes@.len(),
                        forall|a: int, b: int| 0 <= a < b < n ==> slots@[a] != slots@[b],
                        forall|a: int|
                            0 <= a < j ==> {
                                &&& self.pool.is_live(#[trigger] slots@[a])
                                &&& self.pool.spec_packets()[slots@[a] as int].refcnt == 1
                                &&& self.pool.spec_packets()[slots@[a] as int].wf()
                                &&& tasks_ms(self.task_queue@).count(slots@[a]) + nodes_staged(
                                    self.nodes@,
                                ).count(slots@[a]) == 0
                            },
                        forall|s: usize|
                            (forall|a: int| 0 <= a < j ==> s != (#[trigger] slots@[a])) ==> {
                                &&& (self.pool.is_live(s)
                                    ==> self.pool.spec_packets()[s as int].refcnt == tasks_ms(
                                    self.task_queue@,
                                ).count(s) + nodes_staged(self.nodes@).count(s))
                                &&& (tasks_ms(self.task_queue@).count(s) + nodes_staged(
                                    self.nodes@,
                                ).count(s) > 0 ==> self.pool.is_live(s))
                                &&& (self.pool.is_live(s) ==> (
                                #[trigger] self.pool.spec_packets()[s as int]).wf())
                            },
                    decreases j,
                {
                    j = j - 1;
                    let slot = slots[j];
                    let ghost pre_q = self.task_queue@;
                    let ghost pre_p = self.pool;
                    if has_link && self.task_queue.len() < TASK_QUEUE_SIZE {
                        self.task_queue.push(Task { node_id: dst, data: slot });
                        proof {
                            lemma_tasks_ms_push(pre_q, Task { node_id: dst, data: slot });
                            assert forall|s: usize|
                                (forall|a: int|
                                    0 <= a < j ==> s != (#[trigger] slots@[a])) implies {
                                &&& (self.pool.is_live(s)
                                    ==> self.pool.spec_packets()[s as int].refcnt == tasks_ms(
                                    self.task_queue@,
                                ).count(s) + nodes_staged(self.nodes@).count(s))
                                &&& (tasks_ms(self.task_queue@).count(s) + nodes_staged(
                                    self.nodes@,
                                ).count(s) > 0 ==> self.pool.is_live(s))
                                &&& (self.pool.is_live(s) ==> (
                                #[trigger] self.pool.spec_packets()[s as int]).wf())
                            } by {
                                assert(tasks_ms(self.task_queue@).count(s) == tasks_ms(
                                    pre_q,
                                ).insert(slot).count(s));
                                if s == slot {
                                } else {
                                    assert(forall|a: int|
                                        0 <= a < j + 1 ==> s != (#[trigger] slots@[a]));
                                }
                            }
                        }
                    } else {
                        self.pool.deallocate(slot);
                        proof {
                            assert(spec_deallocated(pre_p, self.pool, slot));
                            assert forall|s: usize|
                                (forall|a: int|
                                    0 <= a < j ==> s != (#[trigger] slots@[a])) implies {
                                &&& (self.pool.is_live(s)
                                    ==> self.pool.spec_packets()[s as int].refcnt == tasks_ms(
                                    self.task_queue@,
                                ).count(s) + nodes_staged(self.nodes@).count(s))
                                &&& (tasks_ms(self.task_queue@).count(s) + nodes_staged(
                                    self.nodes@,
                                ).count(s) > 0 ==> self.pool.is_live(s))
                                &&& (self.pool.is_live(s) ==> (
                                #[trigger] self.pool.spec_packets()[s as int]).wf())
                            } by {
                                if s == slot {
                                    assert(!self.pool.is_live(s));
                                } else {
                                    assert(self.pool.is_live(s) == pre_p.is_live(s));
                                    assert(forall|a: int|
                                        0 <= a < j + 1 ==> s != (#[trigger] slots@[a]));
                                    if pre_p.is_live(s) {
                                        assert(self.pool.spec_packets()[s as int]
                                            == pre_p.spec_packets()[s as int]);
                                    }
                                }
                            }
                            assert forall|a: int|
                                0 <= a < j implies {
                                &&& self.pool.is_live(#[trigger] slots@[a])
                                &&& self.pool.spec_packets()[slots@[a] as int].refcnt == 1
                                &&& self.pool.spec_packets()[slots@[a] as int].wf()
                                &&& tasks_ms(self.task_queue@).count(slots@[a]) + nodes_staged(
                                    self.nodes@,
                                ).count(slots@[a]) == 0
                            } by {
                                assert(slots@[a] != slot);
                                assert(self.pool.is_live(slots@[a]) == pre_p.is_live(slots@[a]));
                                assert(self.pool.spec_packets()[slots@[a] as int]
                                    == pre_p.spec_packets()[slots@[a] as int]);
                            }
                        }
                    }
                }
                proof {
                    assert forall|s: usize|
                        self.pool.is_live(s) implies self.pool.spec_packets()[s as int].refcnt
                        == self.refs(s) by {}
                    assert forall|s: usize| self.refs(s) > 0 implies self.pool.is_live(s) by {
                        assert(tasks_ms(self.task_queue@).count(s) + nodes_staged(
                            self.nodes@,
                        ).count(s) > 0);
                    }
                }
                Ok(())
            },
            Err(ModuleError::Nop) => {
                proof {
                    assert(self.pool == mid);
                    assert forall|s: usize|
                        self.pool.is_live(s) implies self.pool.spec_packets()[
                    s as int].refcnt == self.refs(s) by {}
                    assert forall|s: usize| self.refs(s) > 0 implies self.pool.is_live(s) by {
                        assert(tasks_ms(self.task_queue@).count(s) + nodes_staged(
                            self.nodes@,
                        ).count(s) > 0);
                        assert(mid.is_live(s));
                    }
                }
                Ok(())
            },
            Err(e) => Err(e),
        }
    }
}


impl Worker {
    /// One outer loop turn: every source node polls (deferred flushes run
    /// first), then the task stack drains LIFO. `drain_limit` bounds the
    /// drain so a cyclic operator graph cannot spin the worker forever; a
    /// limit of at least the stack capacity drains everything the iteration
    /// produced in an acyclic graph.
    pub fn run_iteration(&mut self, drain_limit: usize) -> (r: Result<(), ModuleError>)
        requires
            old(self).inv(),
        ensures
            match r {
                Ok(_) => {
                    &&& final(self).inv()
                    &&& final(self).spec_nodes().len() == old(self).spec_nodes().len()
                    &&& final(self).spec_polls() == old(self).spec_polls()
                    &&& final(self).spec_destroyed() == old(self).spec_destroyed()
                },
                Err(e) => e != ModuleError::Nop && e != ModuleError::Dropped,
            },
    {
        let np = self.nodes_to_poll.len();
        let mut pi: usize = 0;
        while pi < np
            invariant
                self.inv(),
                0 <= pi <= np,
                np == self.spec_polls().len(),
                self.spec_nodes().len() == old(self).spec_nodes().len(),
                self.spec_polls() == old(self).spec_polls(),
                self.spec_destroyed() == old(self).spec_destroyed(),
            decreases np - pi,
        {
            match self.poll_node(pi) {
                Ok(_) => {},
                Err(e) => {
                    return Err(e);
                },
            }
            pi = pi + 1;
        }
        let mut steps: usize = 0;
        while self.task_queue.len() > 0 && steps < drain_limit
            invariant
                self.inv(),
                steps <= drain_limit,
                self.spec_nodes().len() == old(self).spec_nodes().len(),
                self.spec_polls() == old(self).spec_polls(),
                self.spec_destroyed() == old(self).spec_destroyed(),
            decreases drain_limit - steps,
        {
            match self.process_one() {
                Ok(_) => {},
                Err(e) => {
                    return Err(e);
                },
            }
            steps = steps + 1;
        }
        Ok(())
    }

    /// Shutdown: destroys every node exactly once, in insertion order. Each
    /// destroyed module releases whatever it still held staged, so
    /// afterwards the only references left are the tasks on the stack.
    pub fn shutdown(&mut self)
        requires
            old(self).inv(),
            !old(self).spec_destroyed(),
        ensures
            final(self).inv(),
            final(self).spec_destroyed(),
            nodes_staged(final(self).spec_nodes()) =~= Multiset::<usize>::empty(),
            final(self).spec_tasks() == old(self).spec_tasks(),
    {
        let n = self.nodes.len();
        let mut i: usize = 0;
        while i < n
            invariant
                self.inv(),
                0 <= i <= n,
                n == self.spec_nodes().len(),
                !self.destroyed,
                self.task_queue@ == old(self).task_queue@,
                forall|j: int|
                    0 <= j < i ==> (#[trigger] self.nodes@[j]).module.staged() == Multiset::<
                        usize,
                    >::empty(),
            decreases n - i,
        {
            let ghost w0 = *self;
            let ghost pre_nodes = self.nodes@;
            let ghost pre_pool = self.pool;
            proof {
                assert forall|s: usize|
                    pre_nodes[i as int].module.staged().count(s) > 0 implies pre_pool.is_live(
                    s,
                ) by {
                    lemma_nodes_staged_component(pre_nodes, i as int, s);
                    assert(w0.refs(s) > 0);
                    assert(w0.spec_pool().is_live(s));
                }
                assert forall|s: usize|
                    pre_pool.is_live(s) implies pre_pool.spec_packets()[s as int].refcnt
                    >= pre_nodes[i as int].module.staged().count(s) by {
                    lemma_nodes_staged_component(pre_nodes, i as int, s);
                }
            }
            let w;
            {
                let node = &mut self.nodes[i];
                w = node.module.destroy(&self.ctx, &mut self.pool);
            }
            let ghost new_node = self.nodes@[i as int];
            let ghost flushed = w@;
            proof {
                lemma_nodes_staged_update(pre_nodes, i as int, new_node);
                assert(self.nodes@ == pre_nodes.update(i as int, new_node));
                let om = pre_nodes[i as int].module;
                let nm = new_node.module;
                assert(nm.staged() =~= Multiset::<usize>::empty());
                assert(om.staged() == flushed.to_multiset());
                assert forall|x: usize|
                    nodes_staged(pre_nodes).count(x) == nodes_staged(self.nodes@).count(x)
                        + flushed.to_multiset().count(x) by {
                    assert(nodes_staged(self.nodes@).add(om.staged()).count(x) == nodes_staged(
                        pre_nodes,
                    ).add(nm.staged()).count(x));
                }
                assert forall|s: usize|
                    flushed.to_multiset().count(s) + tasks_ms(self.task_queue@).add(
                        nodes_staged(self.nodes@),
                    ).count(s) > 0 implies pre_pool.is_live(s) by {
                    if flushed.to_multiset().count(s) == 0 {
                        assert(tasks_ms(self.task_queue@).count(s) + nodes_staged(
                            pre_nodes,
                        ).count(s) > 0);
                        assert(w0.refs(s) > 0);
                        assert(w0.spec_pool().is_live(s));
                    } else {
                        assert(w0.refs(s) > 0);
                        assert(w0.spec_pool().is_live(s));
                    }
                }
                assert forall|s: usize|
                    pre_pool.is_live(s) implies pre_pool.spec_packets()[s as int].refcnt
                    >= flushed.to_multiset().count(s) + tasks_ms(self.task_queue@).add(
                    nodes_staged(self.nodes@),
                ).count(s) by {
                    assert(w0.spec_pool().is_live(s));
                    assert(pre_pool.spec_packets()[s as int].refcnt == w0.refs(s));
                    assert(pre_pool.spec_packets()[s as int].refcnt == tasks_ms(
                        self.task_queue@,
                    ).count(s) + nodes_staged(pre_nodes).count(s));
                }
                crate::packet::lemma_drained_effect(
                    pre_pool,
                    self.pool,
                    flushed,
                    tasks_ms(self.task_queue@).add(nodes_staged(self.nodes@)),
                );
                assert forall|s: usize|
                    self.pool.is_live(s) implies self.pool.spec_packets()[s as int].refcnt
                    == self.refs(s) by {
                    assert(pre_pool.is_live(s));
                    assert(pre_pool.spec_packets()[s as int].refcnt == w0.refs(s));
                    assert(self.pool.spec_packets()[s as int].refcnt == pre_pool.spec_packets()[
                        s as int].refcnt - flushed.to_multiset().count(s));
                }
                assert forall|s: usize| self.refs(s) > 0 implies self.pool.is_live(s) by {
                    assert(tasks_ms(self.task_queue@).add(nodes_staged(self.nodes@)).count(s)
                        > 0);
                }
                assert forall|j: int|
                    0 <= j < self.nodes@.len() implies (#[trigger] self.nodes@[j]).edges_ok(
                    j,
                    self.nodes@.len() as int,
                ) && self.nodes@[j].module.inv() && self.nodes@[j].module.ready()
                    && self.nodes@[j].links_to == pre_nodes[j].links_to && (j < i + 1
                    ==> self.nodes@[j].module.staged() == Multiset::<usize>::empty()) by {
                    if j != i {
                        assert(self.nodes@[j] == pre_nodes[j]);
                    } else {
                        assert(self.nodes@[j].links_to == pre_nodes[j].links_to);
                    }
                }
                assert forall|k: int|
                    0 <= k < self.spec_polls().len() implies self.spec_nodes()[(
                #[trigger] self.spec_polls()[k]) as int].links_to@.len() <= 1 by {
                    assert(self.nodes@[self.spec_polls()[k] as int].links_to == pre_nodes[
                        self.spec_polls()[k] as int].links_to);
                }
            }
            i = i + 1;
        }
        let ghost wend = *self;
        self.destroyed = true;
        proof {
            lemma_nodes_staged_empty(self.nodes@);
            assert forall|s: usize| self.refs(s) > 0 implies self.pool.is_live(s) by {
                assert(wend.refs(s) > 0);
                assert(wend.spec_pool().is_live(s));
            }
            assert forall|s: usize|
                self.pool.is_live(s) implies self.pool.spec_packets()[s as int].refcnt
                == self.refs(s) by {
                assert(wend.spec_pool().is_live(s));
                assert(wend.spec_pool().spec_packets()[s as int].refcnt == wend.refs(s));
            }
            assert forall|s: usize|
                self.pool.is_live(s) implies (#[trigger] self.pool.spec_packets()[
            s as int]).wf() by {
                assert(wend.spec_pool().is_live(s));
            }
        }
    }

    /// The worker's main loop: `iterations` outer turns of poll and drain,
    /// then shutdown. On a clean run the nodes are destroyed exactly once
    /// and nothing remains staged.
    pub fn run(&mut self, iterations: usize, drain_limit: usize) -> (r: Result<(), ModuleError>)
        requires
            old(self).inv(),
            !old(self).spec_destroyed(),
        ensures
            match r {
                Ok(_) => {
                    &&& final(self).inv()
                    &&& final(self).spec_destroyed()
                    &&& nodes_staged(final(self).spec_nodes()) =~= Multiset::<usize>::empty()
                },
                Err(e) => e != ModuleError::Nop && e != ModuleError::Dropped,
            },
    {
        let mut it: usize = 0;
        while it < iterations
            invariant
                self.inv(),
                !self.spec_destroyed(),
            decreases iterations - it,
        {
            match self.run_iteration(drain_limit) {
                Ok(_) => {},
                Err(e) => {
                    return Err(e);
                },
            }
            it = it + 1;
        }
        self.shutdown();
        Ok(())
    }
}

/// The replicas a list of graph entries asks for: one per listed CPU.
pub open spec fn spec_total_cpus(entries: Seq<crate::config::GraphEntry>) -> nat
    decreases entries.len(),
{
    if entries.len() == 0 {
        0
    } else {
        spec_total_cpus(entries.drop_last()) + entries.last().cpus@.len()
    }
}

/// Replica `c` of entry `g` sits at the slot that counts every CPU of the
/// earlier entries, and carries that entry's listed CPU.
pub open spec fn plan_slot_ok(
    graphs: Seq<Graph>,
    entries: Seq<crate::config::GraphEntry>,
    g: int,
    c: int,
) -> bool {
    &&& spec_total_cpus(entries.take(g)) + c < graphs.len()
    &&& graphs[spec_total_cpus(entries.take(g)) + c].cpu == entries[g].cpus@[c]
}

/// Exactly when planning a stack succeeds: the stack is loaded, every graph
/// entry names a loaded graph config, and each of those configs builds.
pub open spec fn plan_ok(config: ConfigManager, registry: Registry, name: Seq<char>) -> bool {
    config.spec_stack_of(name) matches Some(st) && forall|g: int|
        0 <= g < st.graphs@.len() ==> ((#[trigger] config.spec_graph_of(st.graphs@[g].name@))
            matches Some(gc) && (st.graphs@[g].cpus@.len() > 0 ==> graph_cfg_ok(gc, registry)))
}

/// How the engine turns a stack name into worker plans: one graph replica
/// per (entry, CPU), in entry order, each replica carrying its entry's
/// index as its id and the listed CPU. Planning succeeds exactly when the
/// stack and all its graph configs are loaded and valid; an unknown stack
/// or graph name is reported with that name.
pub fn plan_graphs(
    config: &ConfigManager,
    registry: &Registry,
    stack_name: &str,
) -> (r: Result<Vec<Graph>, BuildError>)
    requires
        registry.wf(),
    ensures
        r is Ok <==> plan_ok(*config, *registry, stack_name@),
        match r {
            Ok(graphs) => config.spec_stack_of(stack_name@) matches Some(st) && {
                &&& graphs@.len() == spec_total_cpus(st.graphs@)
                &&& (forall|g: int| 0 <= g < graphs@.len() ==> (#[trigger] graphs@[g]).wf())
                &&& (forall|g: int, c: int|
                    0 <= g < st.graphs@.len() && 0 <= c < st.graphs@[g].cpus@.len()
                        ==> #[trigger] plan_slot_ok(graphs@, st.graphs@, g, c))
            },
            Err(e) => match e {
                BuildError::UnknownName { name } => {
                    ||| (name@ == stack_name@ && config.spec_stack_of(stack_name@) is None)
                    ||| (config.spec_stack_of(stack_name@) matches Some(st) && exists|g: int|
                        0 <= g < st.graphs@.len() && (#[trigger] st.graphs@[g].name)@ == name@
                            && config.spec_graph_of(name@) is None)
                },
                _ => config.spec_stack_of(stack_name@) matches Some(st) && exists|g: int|
                    0 <= g < st.graphs@.len() && st.graphs@[g].cpus@.len() > 0 && ((
                    #[trigger] config.spec_graph_of(st.graphs@[g].name@)) matches Some(gc)
                        && !graph_cfg_ok(gc, *registry)),
            },
        },
{
    let stack = match config.get_stack_config(stack_name) {
        Some(s) => s,
        None => {
            return Err(BuildError::UnknownName { name: stack_name.to_string() });
        },
    };
    let ghost entries = stack.graphs@;
    let mut graphs: Vec<Graph> = Vec::new();
    let mut gi: usize = 0;
    let ne = stack.graphs.len();
    proof {
        assert(entries.take(0) =~= Seq::<crate::config::GraphEntry>::empty());
    }
    while gi < ne
        invariant
            registry.wf(),
            ne == entries.len(),
            0 <= gi <= ne,
            config.spec_stack_of(stack_name@) == Some(*stack),
            entries == stack.graphs@,
            graphs@.len() == spec_total_cpus(entries.take(gi as int)),
            forall|g: int| 0 <= g < graphs@.len() ==> (#[trigger] graphs@[g]).wf(),
            forall|g: int|
                0 <= g < gi ==> ((#[trigger] config.spec_graph_of(entries[g].name@))
                    matches Some(gc) && (entries[g].cpus@.len() > 0 ==> graph_cfg_ok(
                        gc,
                        *registry,
                    ))),
            forall|g: int, c: int|
                0 <= g < gi && 0 <= c < entries[g].cpus@.len() ==> #[trigger] plan_slot_ok(
                    graphs@,
                    entries,
                    g,
                    c,
                ),
        decreases ne - gi,
    {
        let entry = &stack.graphs[gi];
        let gc = match config.get_graph_config(entry.name.as_str()) {
            Some(gc) => gc,
            None => {
                proof {
                    assert(config.spec_graph_of(entries[gi as int].name@) is None);
                }
                return Err(BuildError::UnknownName { name: entry.name.clone() });
            },
        };
        let nc = entry.cpus.len();
        let mut ci: usize = 0;
        proof {
            assert(entries.take(gi + 1).drop_last() =~= entries.take(gi as int));
            assert(entries.take(gi + 1).last() == entries[gi as int]);
        }
        while ci < nc
            invariant
                registry.wf(),
                ne == entries.len(),
                0 <= gi < ne,
                0 <= ci <= nc,
                nc == entries[gi as int].cpus@.len(),
                *entry == entries[gi as int],
                config.spec_stack_of(stack_name@) == Some(*stack),
                entries == stack.graphs@,
                config.spec_graph_of(entries[gi as int].name@) == Some(*gc),
                ci > 0 ==> graph_cfg_ok(*gc, *registry),
                graphs@.len() == spec_total_cpus(entries.take(gi as int)) + ci,
                forall|g: int| 0 <= g < graphs@.len() ==> (#[trigger] graphs@[g]).wf(),
                forall|g: int|
                    0 <= g < gi ==> ((#[trigger] config.spec_graph_of(entries[g].name@))
                        matches Some(gc0) && (entries[g].cpus@.len() > 0 ==> graph_cfg_ok(
                            gc0,
                            *registry,
                        ))),
                forall|g: int, c: int|
                    0 <= g < gi && 0 <= c < entries[g].cpus@.len() ==> #[trigger] plan_slot_ok(
                        graphs@,
                        entries,
                        g,
                        c,
                    ),
                forall|c: int|
                    0 <= c < ci ==> #[trigger] plan_slot_ok(graphs@, entries, gi as int, c),
            decreases nc - ci,
        {
            let g = match Graph::build(
                gc,
                registry,
                #[verifier::truncate] (gi as u32),
                entry.cpus[ci],
            ) {
                Ok(g) => g,
                Err(e) => {
                    proof {
                        assert(!graph_cfg_ok(*gc, *registry));
                        assert(entries[gi as int].cpus@.len() > 0);
                        assert(config.spec_graph_of(entries[gi as int].name@) == Some(*gc));
                    }
                    return Err(e);
                },
            };
            let ghost pre = graphs@;
            graphs.push(g);
            proof {
                assert forall|x: int|
                    0 <= x < graphs@.len() implies (#[trigger] graphs@[x]).wf() by {
                    if x < pre.len() {
                        assert(graphs@[x] == pre[x]);
                    }
                }
                assert forall|g0: int, c: int|
                    0 <= g0 < gi && 0 <= c < entries[g0].cpus@.len() implies #[trigger] plan_slot_ok(
                    graphs@,
                    entries,
                    g0,
                    c,
                ) by {
                    assert(plan_slot_ok(pre, entries, g0, c));
                    let k = spec_total_cpus(entries.take(g0)) + c;
                    assert(graphs@ == pre.push(g));
                    assert(graphs@[k] == pre[k]);
                }
                assert forall|c: int| 0 <= c < ci + 1 implies #[trigger] plan_slot_ok(
                    graphs@,
                    entries,
                    gi as int,
                    c,
                ) by {
                    let k = spec_total_cpus(entries.take(gi as int)) + c;
                    if c < ci {
                        assert(plan_slot_ok(pre, entries, gi as int, c));
                        assert(graphs@ == pre.push(g));
                        assert(graphs@[k] == pre[k]);
                    } else {
                        assert(k == pre.len());
                    }
                }
            }
            ci = ci + 1;
        }
        proof {
            assert(entries.take(gi + 1).drop_last() =~= entries.take(gi as int));
            assert(entries.take(gi + 1).last() == entries[gi as int]);
            assert(spec_total_cpus(entries.take(gi + 1)) == spec_total_cpus(
                entries.take(gi as int),
            ) + entries[gi as int].cpus@.len());
            assert forall|g: int, c: int|
                0 <= g < gi + 1 && 0 <= c < entries[g].cpus@.len() implies #[trigger] plan_slot_ok(
                graphs@,
                entries,
                g,
                c,
            ) by {
                if g == gi {
                    assert(plan_slot_ok(graphs@, entries, gi as int, c));
                }
            }
        }
        gi = gi + 1;
    }
    proof {
        assert(entries.take(ne as int) =~= entries);
        assert(plan_ok(*config, *registry, stack_name@));
    }
    Ok(graphs)
}

/// The reference-count law the worker maintains: at every reachable worker
/// state, a live packet's reference count equals the number of stack tasks
/// plus staged frames that point at it, every tracked reference points at a
/// live packet, and the task stack never outgrows its bound.
pub proof fn lemma_worker_accounting(w: &Worker)
    requires
        w.inv(),
    ensures
        forall|s: usize|
            w.spec_pool().is_live(s) ==> w.spec_pool().spec_packets()[s as int].refcnt == w.refs(
                s,
            ),
        forall|s: usize| w.refs(s) > 0 ==> w.spec_pool().is_live(s),
        w.spec_tasks().len() <= TASK_QUEUE_SIZE,
{
}

/// A packet fanned out to one successor keeps its reference count: the
/// worker adds `K - 1` references, which is none for `K = 1`.
pub proof fn lemma_single_fanout_keeps_refcnt(refcnt: nat, k: nat)
    requires
        k == 1,
    ensures
        refcnt + k - 1 == refcnt,
{
}

} // verus!
