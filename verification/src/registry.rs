//! The module and adapter registries.
//!
//! Both are name-indexed maps filled once at process start and read-only
//! while packets move. A second registration under one name overwrites the
//! first and is reported, so double registration is detectable.

use vstd::prelude::*;

use crate::modules::{Module, ModuleKind};
use crate::nio::AdapterKind;

verus! {

/// The process-wide registries: module names and adapter names each map to
/// the kind a lookup builds.
pub struct Registry {
    modules: Vec<(String, ModuleKind)>,
    adapters: Vec<(String, AdapterKind)>,
}

/// First value bound to `key`, searching from the front.
pub open spec fn spec_lookup<K>(entries: Seq<(String, K)>, key: Seq<char>) -> Option<K>
    decreases entries.len(),
{
    if entries.len() == 0 {
        None
    } else if entries.first().0@ == key {
        Some(entries.first().1)
    } else {
        spec_lookup(entries.drop_first(), key)
    }
}

/// With unique names, looking up after overwriting entry `i` finds the new
/// value for its name and the old value for every other.
proof fn lemma_lookup_update<K>(entries: Seq<(String, K)>, i: int, v: (String, K), key: Seq<char>)
    requires
        0 <= i < entries.len(),
        v.0@ == entries[i].0@,
        forall|a: int, b: int| 0 <= a < b < entries.len() ==> entries[a].0@ != entries[b].0@,
    ensures
        key == v.0@ ==> spec_lookup(entries.update(i, v), key) == Some(v.1),
        key != v.0@ ==> spec_lookup(entries.update(i, v), key) == spec_lookup(entries, key),
    decreases entries.len(),
{
    let e2 = entries.update(i, v);
    if i == 0 {
        assert(e2.first() == v);
        assert(e2.drop_first() =~= entries.drop_first());
    } else {
        assert(e2.first() == entries.first());
        assert(e2.drop_first() =~= entries.drop_first().update(i - 1, v));
        assert(entries.drop_first()[i - 1] == entries[i]);
        assert forall|a: int, b: int|
            0 <= a < b < entries.drop_first().len() implies entries.drop_first()[a].0@
            != entries.drop_first()[b].0@ by {
            assert(entries[a + 1].0@ != entries[b + 1].0@);
        }
        lemma_lookup_update(entries.drop_first(), i - 1, v, key);
        assert(entries.first().0@ != entries[i].0@);
    }
}

proof fn lemma_lookup_push<K>(entries: Seq<(String, K)>, v: (String, K), key: Seq<char>)
    requires
        forall|j: int| 0 <= j < entries.len() ==> entries[j].0@ != v.0@,
    ensures
        key == v.0@ ==> spec_lookup(entries.push(v), key) == Some(v.1),
        key != v.0@ ==> spec_lookup(entries.push(v), key) == spec_lookup(entries, key),
    decreases entries.len(),
{
    let p = entries.push(v);
    if entries.len() == 0 {
        assert(p.first() == v);
        assert(p.drop_first() =~= Seq::<(String, K)>::empty());
        if key != v.0@ {
            assert(spec_lookup(p, key) == spec_lookup(p.drop_first(), key));
            assert(spec_lookup(p.drop_first(), key) is None);
        }
    } else {
        assert(p.first() == entries.first());
        assert(p.drop_first() =~= entries.drop_first().push(v));
        assert forall|j: int|
            0 <= j < entries.drop_first().len() implies entries.drop_first()[j].0@ != v.0@ by {
            assert(entries[j + 1].0@ != v.0@);
        }
        lemma_lookup_push(entries.drop_first(), v, key);
        if entries.first().0@ == key {
            assert(spec_lookup(p, key) == Some(entries.first().1));
            assert(spec_lookup(entries, key) == Some(entries.first().1));
        } else {
            assert(spec_lookup(p, key) == spec_lookup(entries.drop_first().push(v), key));
            assert(spec_lookup(entries, key) == spec_lookup(entries.drop_first(), key));
        }
    }
}

fn find_entry<K: Copy>(entries: &Vec<(String, K)>, key: &String) -> (r: Option<usize>)
    ensures
        match r {
            Some(i) => i < entries@.len() && entries@[i as int].0@ == key@,
            None => forall|j: int| 0 <= j < entries@.len() ==> entries@[j].0@ != key@,
        },
{
    let mut i: usize = 0;
    while i < entries.len()
        invariant
            0 <= i <= entries@.len(),
            forall|j: int| 0 <= j < i ==> entries@[j].0@ != key@,
        decreases entries@.len() - i,
    {
        if entries[i].0 == *key {
            return Some(i);
        }
        i = i + 1;
    }
    None
}

fn register_entry<K: Copy>(entries: &mut Vec<(String, K)>, name: &str, kind: K) -> (dup: bool)
    requires
        forall|a: int, b: int|
            0 <= a < b < old(entries)@.len() ==> old(entries)@[a].0@ != old(entries)@[b].0@,
    ensures
        forall|a: int, b: int|
            0 <= a < b < final(entries)@.len() ==> final(entries)@[a].0@ != final(entries)@[b].0@,
        spec_lookup(final(entries)@, name@) == Some(kind),
        forall|k: Seq<char>|
            k != name@ ==> spec_lookup(final(entries)@, k) == spec_lookup(old(entries)@, k),
        dup == (spec_lookup(old(entries)@, name@) is Some),
{
    let key: String = name.to_string();
    let ghost pre = entries@;
    match find_entry(entries, &key) {
        Some(i) => {
            proof {
                lemma_lookup_some(pre, name@, i as int);
            }
            let e = &mut entries[i];
            *e = (key, kind);
            proof {
                assert(entries@ == pre.update(i as int, entries@[i as int]));
                assert(entries@[i as int].0@ == name@);
                assert forall|a: int, b: int|
                    0 <= a < b < entries@.len() implies entries@[a].0@ != entries@[b].0@ by {
                    assert(pre[a].0@ != pre[b].0@);
                }
                assert forall|k: Seq<char>|
                    k != name@ implies spec_lookup(entries@, k) == spec_lookup(pre, k) by {
                    lemma_lookup_update(pre, i as int, entries@[i as int], k);
                }
                lemma_lookup_update(pre, i as int, entries@[i as int], name@);
            }
            true
        },
        None => {
            entries.push((key, kind));
            proof {
                assert(entries@ =~= pre.push(entries@.last()));
                assert(entries@.last().0@ == name@);
                assert forall|a: int, b: int|
                    0 <= a < b < entries@.len() implies entries@[a].0@ != entries@[b].0@ by {
                    if b < pre.len() {
                        assert(pre[a].0@ != pre[b].0@);
                    }
                }
                assert forall|k: Seq<char>|
                    k != name@ implies spec_lookup(entries@, k) == spec_lookup(pre, k) by {
                    lemma_lookup_push(pre, entries@.last(), k);
                }
                lemma_lookup_push(pre, entries@.last(), name@);
                lemma_lookup_none(pre, name@);
            }
            false
        },
    }
}

/// A name bound at index `i` is found by lookup (names unique).
proof fn lemma_lookup_some<K>(entries: Seq<(String, K)>, key: Seq<char>, i: int)
    requires
        0 <= i < entries.len(),
        entries[i].0@ == key,
    ensures
        spec_lookup(entries, key) is Some,
    decreases entries.len(),
{
    if entries.first().0@ == key {
    } else {
        assert(i != 0);
        assert(entries.drop_first()[i - 1] == entries[i]);
        lemma_lookup_some(entries.drop_first(), key, i - 1);
    }
}

/// A name bound nowhere is not found.
proof fn lemma_lookup_none<K>(entries: Seq<(String, K)>, key: Seq<char>)
    requires
        forall|j: int| 0 <= j < entries.len() ==> entries[j].0@ != key,
    ensures
        spec_lookup(entries, key) is None,
    decreases entries.len(),
{
    if entries.len() > 0 {
        lemma_lookup_none(entries.drop_first(), key);
    }
}

impl Registry {
    /// What the module map binds.
    pub closed spec fn spec_module(&self, name: Seq<char>) -> Option<ModuleKind> {
        spec_lookup(self.modules@, name)
    }

    /// What the adapter map binds.
    pub closed spec fn spec_adapter(&self, name: Seq<char>) -> Option<AdapterKind> {
        spec_lookup(self.adapters@, name)
    }

    pub closed spec fn wf(&self) -> bool {
        &&& forall|a: int, b: int|
            0 <= a < b < self.modules@.len() ==> self.modules@[a].0@ != self.modules@[b].0@
        &&& forall|a: int, b: int|
            0 <= a < b < self.adapters@.len() ==> self.adapters@[a].0@ != self.adapters@[b].0@
    }

    /// Empty registries.
    pub fn new() -> (r: Self)
        ensures
            r.wf(),
            forall|n: Seq<char>| r.spec_module(n) is None,
            forall|n: Seq<char>| r.spec_adapter(n) is None,
    {
        Registry { modules: Vec::new(), adapters: Vec::new() }
    }

    /// Binds `name` to a module kind; a repeated registration overwrites
    /// and is reported so callers can warn.
    pub fn register(&mut self, name: &str, kind: ModuleKind) -> (dup: bool)
        requires
            old(self).wf(),
        ensures
            final(self).wf(),
            final(self).spec_module(name@) == Some(kind),
            forall|n: Seq<char>|
                n != name@ ==> final(self).spec_module(n) == old(self).spec_module(n),
            forall|n: Seq<char>| final(self).spec_adapter(n) == old(self).spec_adapter(n),
            dup == (old(self).spec_module(name@) is Some),
    {
        register_entry(&mut self.modules, name, kind)
    }

    /// Binds `name` to an adapter kind, overwriting as `register` does.
    pub fn register_adapter(&mut self, name: &str, kind: AdapterKind) -> (dup: bool)
        requires
            old(self).wf(),
        ensures
            final(self).wf(),
            final(self).spec_adapter(name@) == Some(kind),
            forall|n: Seq<char>|
                n != name@ ==> final(self).spec_adapter(n) == old(self).spec_adapter(n),
            forall|n: Seq<char>| final(self).spec_module(n) == old(self).spec_module(n),
            dup == (old(self).spec_adapter(name@) is Some),
    {
        register_entry(&mut self.adapters, name, kind)
    }

    /// Whether a module is registered under `name`.
    pub fn contains_name(&self, name: &str) -> (r: bool)
        ensures
            r == (self.spec_module(name@) is Some),
    {
        let key: String = name.to_string();
        match find_entry(&self.modules, &key) {
            Some(i) => {
                proof {
                    lemma_lookup_some(self.modules@, name@, i as int);
                }
                true
            },
            None => {
                proof {
                    lemma_lookup_none(self.modules@, name@);
                }
                false
            },
        }
    }

    /// Builds a fresh instance of the module registered under `name`:
    /// exactly the registered kind, or `None` for an unregistered name.
    pub fn build_module(&self, name: &str) -> (r: Option<Module>)
        requires
            self.wf(),
        ensures
            match r {
                Some(m) => self.spec_module(name@) == Some(m.spec_kind()) && m.inv() && m.staged()
                    == vstd::multiset::Multiset::<usize>::empty(),
                None => self.spec_module(name@) is None,
            },
    {
        let key: String = name.to_string();
        match find_entry(&self.modules, &key) {
            Some(i) => {
                proof {
                    lemma_lookup_at(self.modules@, name@, i as int);
                }
                Some(Module::build(self.modules[i].1))
            },
            None => {
                proof {
                    lemma_lookup_none(self.modules@, name@);
                }
                None
            },
        }
    }

    /// The adapter kind registered under `name`, if any.
    pub fn build_adapter(&self, name: &str) -> (r: Option<AdapterKind>)
        requires
            self.wf(),
        ensures
            r == self.spec_adapter(name@),
    {
        let key: String = name.to_string();
        match find_entry(&self.adapters, &key) {
            Some(i) => {
                proof {
                    lemma_lookup_at(self.adapters@, name@, i as int);
                }
                Some(self.adapters[i].1)
            },
            None => {
                proof {
                    lemma_lookup_none(self.adapters@, name@);
                }
                None
            },
        }
    }
}

/// With unique names, the bound value is the one at the binding index.
proof fn lemma_lookup_at<K>(entries: Seq<(String, K)>, key: Seq<char>, i: int)
    requires
        0 <= i < entries.len(),
        entries[i].0@ == key,
        forall|a: int, b: int| 0 <= a < b < entries.len() ==> entries[a].0@ != entries[b].0@,
    ensures
        spec_lookup(entries, key) == Some(entries[i].1),
    decreases entries.len(),
{
    if entries.first().0@ == key {
        assert(i == 0) by {
            if i != 0 {
                assert(entries[0].0@ != entries[i].0@);
            }
        }
    } else {
        assert(i != 0);
        assert(entries.drop_first()[i - 1] == entries[i]);
        assert forall|a: int, b: int|
            0 <= a < b < entries.drop_first().len() implies entries.drop_first()[a].0@
            != entries.drop_first()[b].0@ by {
            assert(entries[a + 1].0@ != entries[b + 1].0@);
        }
        lemma_lookup_at(entries.drop_first(), key, i - 1);
    }
}

} // verus!
