//! Memoization for exclusive, single-threaded use.
use crate::{saturated, FnMemo, Lookup, RecurFn, Step};
use std::collections::HashMap;
use vstd::multiset::Multiset;
use vstd::prelude::*;

verus! {

broadcast use vstd::std_specs::hash::group_hash_axioms;

/// Storage of results for single-threaded memoization.
pub trait Cache<Output>: Lookup<Output> + Sized {
    /// Creates an empty cache.
    fn new() -> (r: Self)
        ensures
            r.entries() == Map::<usize, Output>::empty(),
    ;

    /// Stores `result` as the result of `arg`, replacing any earlier one.
    fn cache(&mut self, arg: usize, result: Output)
        ensures
            final(self).entries() == old(self).entries().insert(arg, result),
    ;

    /// Drops every entry.
    fn clear(&mut self)
        ensures
            final(self).entries() == Map::<usize, Output>::empty(),
    ;
}

impl<Output> Lookup<Output> for HashMap<usize, Output> {
    open spec fn entries(&self) -> Map<usize, Output> {
        self@
    }

    fn get(&self, arg: usize) -> (r: Option<&Output>) {
        HashMap::get(self, &arg)
    }
}

/// A hash map as cache: any argument, no space for the ones never asked.
impl<Output> Cache<Output> for HashMap<usize, Output> {
    fn new() -> (r: Self) {
        HashMap::new()
    }

    fn cache(&mut self, arg: usize, result: Output) {
        self.insert(arg, result);
    }

    fn clear(&mut self) {
        HashMap::clear(self);
    }
}

/// The results that a vector of optional results holds, by index.
pub open spec fn slots_entries<Output>(v: Seq<Option<Output>>) -> Map<usize, Output> {
    Map::new(|k: usize| k < v.len() && v[k as int] is Some, |k: usize| v[k as int]->0)
}

impl<Output> Lookup<Output> for Vec<Option<Output>> {
    open spec fn entries(&self) -> Map<usize, Output> {
        slots_entries(self@)
    }

    fn get(&self, arg: usize) -> (r: Option<&Output>) {
        if arg < self.len() {
            match &self[arg] {
                Some(v) => Some(v),
                None => None,
            }
        } else {
            None
        }
    }
}

/// A vector as cache, for arguments that are small sequence indices: it
/// grows to one past the largest argument stored.
impl<Output> Cache<Output> for Vec<Option<Output>> {
    fn new() -> (r: Self) {
        let r: Vec<Option<Output>> = Vec::new();
        assert(r.entries() =~= Map::<usize, Output>::empty());
        r
    }

    fn cache(&mut self, arg: usize, result: Output)
        ensures
            final(self)@.len() == if arg < old(self)@.len() {
                old(self)@.len() as int
            } else {
                arg + 1
            },
            final(self)@[arg as int] == Some(result),
            forall|i: int|
                0 <= i < final(self)@.len() && i != arg ==> #[trigger] final(self)@[i] == if i
                    < old(self)@.len() {
                    old(self)@[i]
                } else {
                    None
                },
    {
        let ghost before = self@;
        if arg >= self.len() {
            while self.len() <= arg
                invariant
                    self@.len() >= before.len(),
                    self@.len() <= arg as int + 1,
                    forall|i: int| 0 <= i < before.len() ==> #[trigger] self@[i] == before[i],
                    forall|i: int| before.len() <= i < self@.len() ==> #[trigger] self@[i] is None,
                decreases arg as int + 1 - self@.len(),
            {
                self.push(None);
            }
        }
        self.set(arg, Some(result));
        assert(self.entries() =~= old(self).entries().insert(arg, result));
    }

    fn clear(&mut self)
        ensures
            final(self)@.len() == 0,
    {
        Vec::clear(self);
        assert(self.entries() =~= Map::<usize, Output>::empty());
    }
}

/// The single-threaded memo: one cache and one computation.
pub struct Memo<C, F> {
    cache: C,
    f: F,
    evaluations: u64,
    evaluated: Ghost<Multiset<usize>>,
}

/// Removing more known arguments from a finite set of dependencies, one of
/// them among the new ones, leaves fewer of them unknown.
pub(crate) proof fn lemma_fewer_unknown(deps: Set<usize>, before: Set<usize>, after: Set<usize>, a: usize)
    requires
        deps.finite(),
        before.subset_of(after),
        deps.contains(a),
        !before.contains(a),
        after.contains(a),
    ensures
        deps.difference(after).len() < deps.difference(before).len(),
{
    let s0 = deps.difference(before);
    let s1 = deps.difference(after);
    vstd::set_lib::lemma_len_subset(s0, deps);
    assert(s1.subset_of(s0.remove(a)));
    vstd::set_lib::lemma_len_subset(s1, s0.remove(a));
}

impl<C, F> Memo<C, F> {
    /// Creates a memo of `f` with an empty cache.
    pub fn new<Output: Clone>(f: F) -> (r: Self) where C: Cache<Output>, F: RecurFn<Output>
        ensures
            r.wf(),
            forall|a: usize| #[trigger] r.denotes(a) == f.value(a),
            forall|a: usize| #[trigger] r.needs(a) == f.deps(a),
            r.cached() == Map::<usize, Output>::empty(),
            r.evaluated() == Multiset::<usize>::empty(),
    {
        Memo { cache: C::new(), f, evaluations: 0, evaluated: Ghost(Multiset::empty()) }
    }

    /// Makes sure the cache holds the result for `arg`, computing it and
    /// the dependencies it needs if it does not.
    fn fill<Output: Clone>(&mut self, arg: usize) where C: Cache<Output>, F: RecurFn<Output>
        requires
            old(self).wf(),
        ensures
            final(self).wf(),
            final(self).f == old(self).f,
            final(self).cached().contains_key(arg),
            old(self).cached().submap_of(final(self).cached()),
            old(self).cached().contains_key(arg) ==> final(self).cached() == old(self).cached()
                && final(self).evaluated() == old(self).evaluated(),
            forall|a: usize| #[trigger]
                final(self).evaluated().count(a) == old(self).evaluated().count(a) + if !old(
                    self,
                ).cached().contains_key(a) && final(self).cached().contains_key(a) {
                    1int
                } else {
                    0int
                },
            forall|a: usize| #[trigger]
                final(self).cached().contains_key(a) && !old(self).cached().contains_key(a)
                    ==> final(self).f.rank(a) <= final(self).f.rank(arg),
            forall|k: usize| #[trigger]
                final(self).cached().contains_key(k) && !old(self).cached().contains_key(k) ==> k
                    == arg || exists|j: usize|
                    final(self).cached().contains_key(j) && !old(self).cached().contains_key(j)
                        && #[trigger] final(self).f.deps(j).contains(k),
        decreases old(self).f.rank(arg),
    {
        if self.cache.get(arg).is_some() {
            return;
        }
        let mut step = self.f.body(&self.cache, arg);
        loop
            invariant
                self.wf(),
                self.f == old(self).f,
                self.f.deps(arg).finite(),
                forall|a: usize| #[trigger]
                    self.f.deps(arg).contains(a) ==> self.f.rank(a) < self.f.rank(arg),
                !self.cached().contains_key(arg),
                old(self).cached().submap_of(self.cached()),
                !old(self).cached().contains_key(arg),
                match step {
                    Step::Done(v) => v == self.f.value(arg),
                    Step::Need(a) => self.f.deps(arg).contains(a) && !self.cached().contains_key(a),
                },
                forall|a: usize| #[trigger]
                    self.cached().contains_key(a) && !old(self).cached().contains_key(a)
                        ==> self.f.rank(a) < self.f.rank(arg),
                forall|k: usize| #[trigger]
                    self.cached().contains_key(k) && !old(self).cached().contains_key(k)
                        ==> self.f.deps(arg).contains(k) || exists|j: usize|
                        self.cached().contains_key(j) && !old(self).cached().contains_key(j)
                            && #[trigger] self.f.deps(j).contains(k),
                forall|a: usize| #[trigger]
                    self.evaluated().count(a) == old(self).evaluated().count(a) + if !old(
                        self,
                    ).cached().contains_key(a) && self.cached().contains_key(a) {
                        1int
                    } else {
                        0int
                    },
            decreases self.f.deps(arg).difference(self.cached().dom()).len(),
        {
            match step {
                Step::Done(v) => {
                    let ghost mid_count = self.evaluated();
                    let ghost mid = self.cached();
                    self.cache.cache(arg, v);
                    proof {
                        vstd::multiset::lemma_insert_len(self.evaluated@, arg);
                    }
                    self.evaluated = Ghost(self.evaluated@.insert(arg));
                    self.evaluations = self.evaluations.saturating_add(1);
                    assert forall|a: usize| #[trigger]
                        self.evaluated().count(a) == mid_count.count(a) + if a == arg {
                            1int
                        } else {
                            0int
                        } by {}
                    assert forall|a: usize| #[trigger]
                        self.evaluated().count(a) == old(self).evaluated().count(a) + if !old(
                            self,
                        ).cached().contains_key(a) && self.cached().contains_key(a) {
                            1int
                        } else {
                            0int
                        } by {
                        assert(self.cached().contains_key(a) == (a == arg || mid.contains_key(a)));
                        assert(mid_count.count(a) == old(self).evaluated().count(a) + if !old(
                            self,
                        ).cached().contains_key(a) && mid.contains_key(a) {
                            1int
                        } else {
                            0int
                        });
                    }
                    assert forall|k: usize| #[trigger]
                        self.cached().contains_key(k) && !old(self).cached().contains_key(k)
                            implies k == arg || exists|j: usize|
                        self.cached().contains_key(j) && !old(self).cached().contains_key(j)
                            && #[trigger] self.f.deps(j).contains(k) by {
                        if k != arg {
                            assert(mid.contains_key(k));
                            if self.f.deps(arg).contains(k) {
                                assert(self.cached().contains_key(arg));
                            } else {
                                let j = choose|j: usize|
                                    mid.contains_key(j) && !old(self).cached().contains_key(j)
                                        && #[trigger] self.f.deps(j).contains(k);
                                assert(self.cached().contains_key(j));
                            }
                        }
                    }
                    return;
                },
                Step::Need(a) => {
                    let ghost before = self.cached().dom();
                    let ghost mid = self.cached();
                    self.fill(a);
                    proof {
                        vstd::map_lib::lemma_submap_of_trans(old(self).cached(), mid, self.cached());
                        assert forall|k: usize| #[trigger]
                            self.cached().contains_key(k) && !old(self).cached().contains_key(k)
                                implies self.f.deps(arg).contains(k) || exists|j: usize|
                            self.cached().contains_key(j) && !old(self).cached().contains_key(j)
                                && #[trigger] self.f.deps(j).contains(k) by {
                            if mid.contains_key(k) {
                                if !self.f.deps(arg).contains(k) {
                                    let j = choose|j: usize|
                                        mid.contains_key(j) && !old(self).cached().contains_key(j)
                                            && #[trigger] self.f.deps(j).contains(k);
                                    assert(self.cached().contains_key(j));
                                }
                            } else if k != a {
                                let j = choose|j: usize|
                                    self.cached().contains_key(j) && !mid.contains_key(j)
                                        && #[trigger] self.f.deps(j).contains(k);
                                assert(!old(self).cached().contains_key(j));
                            }
                        }
                        lemma_fewer_unknown(self.f.deps(arg), before, self.cached().dom(), a);
                    }
                    step = self.f.body(&self.cache, arg);
                },
            }
        }
    }
}

impl<Output: Clone, C: Cache<Output>, F: RecurFn<Output>> FnMemo<Output> for Memo<C, F> {
    closed spec fn denotes(&self, arg: usize) -> Output {
        self.f.value(arg)
    }

    closed spec fn cached(&self) -> Map<usize, Output> {
        self.cache.entries()
    }

    closed spec fn needs(&self, arg: usize) -> Set<usize> {
        self.f.deps(arg)
    }

    closed spec fn evaluated(&self) -> Multiset<usize> {
        self.evaluated@
    }

    closed spec fn wf(&self) -> bool {
        &&& forall|a: usize| #[trigger]
            self.cache.entries().contains_key(a) ==> self.cache.entries()[a] == self.f.value(a)
        &&& self.evaluations as int == saturated(self.evaluated@.len())
    }

    fn evaluations(&self) -> (r: u64) {
        self.evaluations
    }

    fn call(&mut self, arg: usize) -> (r: Output) {
        self.fill(arg);
        assert forall|k: usize| #[trigger]
            self.cached().contains_key(k) && !old(self).cached().contains_key(k) implies k == arg
            || exists|j: usize|
            self.cached().contains_key(j) && !old(self).cached().contains_key(j)
                && #[trigger] self.needs(j).contains(k) by {
            if k != arg {
                let j = choose|j: usize|
                    self.cached().contains_key(j) && !old(self).cached().contains_key(j)
                        && #[trigger] self.f.deps(j).contains(k);
                assert(self.needs(j).contains(k));
            }
        }
        let v = self.cache.get(arg).unwrap();
        v.clone()
    }

    fn clear_cache(&mut self) {
        self.cache.clear();
    }
}

/// Creates a memo of `f` that caches in a hash map.
pub fn hash_memo<Output: Clone, F: RecurFn<Output>>(f: F) -> (r: Memo<HashMap<usize, Output>, F>)
    ensures
        r.wf(),
        forall|a: usize| #[trigger] r.denotes(a) == f.value(a),
        forall|a: usize| #[trigger] r.needs(a) == f.deps(a),
        r.cached() == Map::<usize, Output>::empty(),
        r.evaluated() == Multiset::<usize>::empty(),
{
    Memo::new(f)
}

/// Creates a memo of the sequence `f` that caches in a vector.
pub fn seq_memo<Output: Clone, F: RecurFn<Output>>(f: F) -> (r: Memo<Vec<Option<Output>>, F>)
    ensures
        r.wf(),
        forall|a: usize| #[trigger] r.denotes(a) == f.value(a),
        forall|a: usize| #[trigger] r.needs(a) == f.deps(a),
        r.cached() == Map::<usize, Output>::empty(),
        r.evaluated() == Multiset::<usize>::empty(),
{
    Memo::new(f)
}

} // verus!
