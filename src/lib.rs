//! Memoization of pure, possibly self-recursive computations.
//!
//! A computation implements [`RecurFn`]. Instead of calling itself, its
//! `body` reads the results known so far and either finishes or names one
//! argument whose result it still needs; the memo evaluates that argument,
//! stores it, and runs `body` again. Each argument is therefore computed at
//! most once per cache generation, and every sub-result is cached too.
use vstd::multiset::Multiset;
use vstd::prelude::*;

pub mod funcs;
pub mod hash_map;
pub mod sync;
pub mod unsync;

verus! {

/// What one run of a computation's `body` produced.
pub enum Step<Output> {
    /// The result for the argument.
    Done(Output),
    /// The argument whose result is needed before `body` can finish.
    Need(usize),
}

/// Read access to results that are already known.
pub trait Lookup<Output> {
    /// The known results, by argument.
    spec fn entries(&self) -> Map<usize, Output>;

    /// Returns the known result for `arg`, if there is one.
    fn get(&self, arg: usize) -> (r: Option<&Output>)
        ensures
            match r {
                Some(v) => self.entries().contains_key(arg) && self.entries()[arg] == *v,
                None => !self.entries().contains_key(arg),
            },
    ;
}

/// A pure computation that may depend on its own results at other arguments.
pub trait RecurFn<Output> {
    /// The value the computation denotes at `arg`.
    spec fn value(&self, arg: usize) -> Output;

    /// The arguments whose results `body` may ask for while computing `arg`.
    spec fn deps(&self, arg: usize) -> Set<usize>;

    /// A measure that every dependency of an argument lies strictly below.
    spec fn rank(&self, arg: usize) -> nat;

    /// Computes the value at `arg` from the results in `known`, or names a
    /// dependency that `known` does not hold yet.
    fn body<K: Lookup<Output>>(&self, known: &K, arg: usize) -> (r: Step<Output>)
        requires
            forall|a: usize| #[trigger]
                known.entries().contains_key(a) ==> known.entries()[a] == self.value(a),
        ensures
            self.deps(arg).finite(),
            forall|a: usize| #[trigger] self.deps(arg).contains(a) ==> self.rank(a) < self.rank(arg),
            match r {
                Step::Done(v) => v == self.value(arg),
                Step::Need(a) => self.deps(arg).contains(a) && !known.entries().contains_key(a),
            },
    ;
}

/// A count as a `u64`, saturating at the largest one.
pub open spec fn saturated(n: nat) -> int {
    if n < u64::MAX {
        n as int
    } else {
        u64::MAX as int
    }
}

/// A memoized function.
pub trait FnMemo<Output: Clone> {
    /// The value the memoized function denotes at `arg`.
    spec fn denotes(&self, arg: usize) -> Output;

    /// The results currently cached, by argument.
    spec fn cached(&self) -> Map<usize, Output>;

    /// The arguments whose results the computation may ask for while
    /// computing `arg`.
    spec fn needs(&self, arg: usize) -> Set<usize>;

    /// How many times the computation has produced a result for each argument.
    spec fn evaluated(&self) -> Multiset<usize>;

    /// The memo's internal invariant.
    spec fn wf(&self) -> bool;

    /// How many results the computation has produced, saturating at the
    /// largest `u64`.
    fn evaluations(&self) -> (r: u64)
        requires
            self.wf(),
        ensures
            r as int == saturated(self.evaluated().len()),
    ;

    /// Returns the value at `arg`: a clone of the cached result when there is
    /// one; otherwise the result is computed, cached and a clone returned.
    /// Dependencies that are not cached are computed and cached on the way.
    fn call(&mut self, arg: usize) -> (r: Output)
        requires
            old(self).wf(),
        ensures
            final(self).wf(),
            cloned(old(self).denotes(arg), r),
            forall|a: usize| #[trigger] final(self).denotes(a) == old(self).denotes(a),
            forall|a: usize| #[trigger] final(self).needs(a) == old(self).needs(a),
            forall|a: usize|
                final(self).cached().contains_key(a) ==> #[trigger] final(self).cached()[a]
                    == final(self).denotes(a),
            forall|k: usize| #[trigger]
                final(self).cached().contains_key(k) && !old(self).cached().contains_key(k) ==> k
                    == arg || exists|j: usize|
                    final(self).cached().contains_key(j) && !old(self).cached().contains_key(j)
                        && #[trigger] final(self).needs(j).contains(k),
            final(self).cached().contains_key(arg),
            old(self).cached().submap_of(final(self).cached()),
            old(self).cached().contains_key(arg) ==> final(self).cached() == old(self).cached()
                && final(self).evaluated() == old(self).evaluated(),
            forall|a: usize| #[trigger]
                final(self).evaluated().count(a) == old(self).evaluated().count(a) + if !old(
                    self,
                ).cached().contains_key(a) && final(self).cached().contains_key(a) {
                    1int
                } else {
                    0int
                },
    ;

    /// Drops every cached result.
    fn clear_cache(&mut self)
        requires
            old(self).wf(),
        ensures
            final(self).wf(),
            forall|a: usize| #[trigger] final(self).denotes(a) == old(self).denotes(a),
            forall|a: usize| #[trigger] final(self).needs(a) == old(self).needs(a),
            final(self).cached() == Map::<usize, Output>::empty(),
            final(self).evaluated() == old(self).evaluated(),
    ;
}

/// The contract of `call`, as a relation: `after` and `r` are what
/// `call(arg)` leaves and returns from `before`. `r` is a clone of the value
/// at `arg`; every cached entry is the value at its argument; `arg` is cached
/// afterwards; no entry is lost; a cached `arg` changes nothing; the newly
/// cached arguments are `arg` and arguments needed by other newly cached
/// ones; and exactly the newly cached arguments are evaluated, once each.
pub open spec fn called<Output: Clone, M: FnMemo<Output>>(
    before: M,
    after: M,
    arg: usize,
    r: Output,
) -> bool {
    &&& after.wf()
    &&& cloned(before.denotes(arg), r)
    &&& forall|a: usize| #[trigger] after.denotes(a) == before.denotes(a)
    &&& forall|a: usize| #[trigger] after.needs(a) == before.needs(a)
    &&& forall|a: usize|
        after.cached().contains_key(a) ==> #[trigger] after.cached()[a] == after.denotes(a)
    &&& forall|k: usize| #[trigger]
        after.cached().contains_key(k) && !before.cached().contains_key(k) ==> k == arg
            || exists|j: usize|
            after.cached().contains_key(j) && !before.cached().contains_key(j)
                && #[trigger] after.needs(j).contains(k)
    &&& after.cached().contains_key(arg)
    &&& before.cached().submap_of(after.cached())
    &&& before.cached().contains_key(arg) ==> after.cached() == before.cached()
        && after.evaluated() == before.evaluated()
    &&& forall|a: usize| #[trigger]
        after.evaluated().count(a) == before.evaluated().count(a) + if !before.cached().contains_key(
            a,
        ) && after.cached().contains_key(a) {
            1int
        } else {
            0int
        }
}

/// The contract of `clear_cache`, as a relation: `after` is what it leaves from `before`: nothing cached, the
/// same function, the same evaluations so far.
pub open spec fn cleared<Output: Clone, M: FnMemo<Output>>(before: M, after: M) -> bool {
    &&& after.wf()
    &&& forall|a: usize| #[trigger] after.denotes(a) == before.denotes(a)
    &&& forall|a: usize| #[trigger] after.needs(a) == before.needs(a)
    &&& after.cached() == Map::<usize, Output>::empty()
    &&& after.evaluated() == before.evaluated()
}

/// Two calls with the same argument return clones of the same value, so
/// equal results where cloning copies exactly; the second one computes
/// nothing and changes nothing, so across both the argument is evaluated at
/// most once.
pub proof fn lemma_call_twice<Output: Clone, M: FnMemo<Output>>(
    m0: M,
    m1: M,
    m2: M,
    arg: usize,
    r1: Output,
    r2: Output,
)
    requires
        called(m0, m1, arg, r1),
        called(m1, m2, arg, r2),
    ensures
        cloned(m0.denotes(arg), r1),
        cloned(m0.denotes(arg), r2),
        m2.cached() == m1.cached(),
        m2.evaluated() == m1.evaluated(),
        m2.evaluated().count(arg) <= m0.evaluated().count(arg) + 1,
        (forall|a: Output, b: Output| #[trigger] cloned(a, b) ==> a == b) ==> r1 == r2,
{
    assert(m1.evaluated().count(arg) == m0.evaluated().count(arg) + if !m0.cached().contains_key(
        arg,
    ) && m1.cached().contains_key(arg) {
        1int
    } else {
        0int
    });
}

/// After the cache is cleared, calling with an argument evaluates it once
/// more, whether or not it was cached before.
pub proof fn lemma_clear_recomputes<Output: Clone, M: FnMemo<Output>>(
    m0: M,
    m1: M,
    m2: M,
    arg: usize,
    r: Output,
)
    requires
        cleared(m0, m1),
        called(m1, m2, arg, r),
    ensures
        m2.evaluated().count(arg) == m0.evaluated().count(arg) + 1,
        cloned(m0.denotes(arg), r),
{
    assert(m2.evaluated().count(arg) == m1.evaluated().count(arg) + if !m1.cached().contains_key(
        arg,
    ) && m2.cached().contains_key(arg) {
        1int
    } else {
        0int
    });
}

/// Along calls from a fresh memo, each argument has been evaluated once if
/// it is cached and never otherwise: a call keeps that so.
pub proof fn lemma_once_per_argument<Output: Clone, M: FnMemo<Output>>(
    m0: M,
    m1: M,
    arg: usize,
    r: Output,
)
    requires
        forall|a: usize| #[trigger]
            m0.evaluated().count(a) == if m0.cached().contains_key(a) {
                1nat
            } else {
                0nat
            },
        called(m0, m1, arg, r),
    ensures
        forall|a: usize| #[trigger]
            m1.evaluated().count(a) == if m1.cached().contains_key(a) {
                1nat
            } else {
                0nat
            },
{
    assert forall|a: usize| #[trigger]
        m1.evaluated().count(a) == if m1.cached().contains_key(a) {
            1nat
        } else {
            0nat
        } by {
        assert(m0.evaluated().count(a) == if m0.cached().contains_key(a) {
            1nat
        } else {
            0nat
        });
        if m0.cached().contains_key(a) {
            assert(m1.cached().contains_key(a));
        }
    }
}

/// Two memos of the same function, whatever their caches, answer the same
/// call with clones of the same value (equal ones where cloning copies
/// exactly) and still denote the same function
/// afterwards; so they agree along any sequence of calls.
pub proof fn lemma_same_answers<Output: Clone, M: FnMemo<Output>, N: FnMemo<Output>>(
    m0: M,
    m1: M,
    n0: N,
    n1: N,
    arg: usize,
    r: Output,
    s: Output,
)
    requires
        forall|a: usize| #[trigger] m0.denotes(a) == n0.denotes(a),
        called(m0, m1, arg, r),
        called(n0, n1, arg, s),
    ensures
        cloned(m0.denotes(arg), r),
        cloned(m0.denotes(arg), s),
        forall|a: usize| #[trigger] m1.denotes(a) == n1.denotes(a),
        (forall|a: Output, b: Output| #[trigger] cloned(a, b) ==> a == b) ==> r == s,
{
    assert forall|a: usize| #[trigger] m1.denotes(a) == n1.denotes(a) by {
        assert(m1.denotes(a) == m0.denotes(a));
        assert(n1.denotes(a) == n0.denotes(a));
    }
}

} // verus!
