//! A memo that caches in a hash map.
use crate::unsync::Memo;
use crate::{FnMemo, RecurFn};
use std::collections::HashMap;
use vstd::multiset::Multiset;
use vstd::prelude::*;

verus! {

/// A memo whose cache is a hash map from argument to result.
pub struct HashMapMemo<Output, F> {
    memo: Memo<HashMap<usize, Output>, F>,
}

impl<Output: Clone, F: RecurFn<Output>> HashMapMemo<Output, F> {
    /// Creates a memo of `f` with an empty cache.
    pub fn new(f: F) -> (r: Self)
        ensures
            r.wf(),
            forall|a: usize| #[trigger] r.denotes(a) == f.value(a),
            forall|a: usize| #[trigger] r.needs(a) == f.deps(a),
            r.cached() == Map::<usize, Output>::empty(),
            r.evaluated() == Multiset::<usize>::empty(),
    {
        HashMapMemo { memo: Memo::new(f) }
    }
}

impl<Output: Clone, F: RecurFn<Output>> FnMemo<Output> for HashMapMemo<Output, F> {
    closed spec fn denotes(&self, arg: usize) -> Output {
        self.memo.denotes(arg)
    }

    closed spec fn cached(&self) -> Map<usize, Output> {
        self.memo.cached()
    }

    closed spec fn needs(&self, arg: usize) -> Set<usize> {
        self.memo.needs(arg)
    }

    closed spec fn evaluated(&self) -> Multiset<usize> {
        self.memo.evaluated()
    }

    closed spec fn wf(&self) -> bool {
        self.memo.wf()
    }

    fn evaluations(&self) -> (r: u64) {
        self.memo.evaluations()
    }

    fn call(&mut self, arg: usize) -> (r: Output) {
        let r = self.memo.call(arg);
        assert forall|k: usize| #[trigger]
            self.cached().contains_key(k) && !old(self).cached().contains_key(k) implies k == arg
            || exists|j: usize|
            self.cached().contains_key(j) && !old(self).cached().contains_key(j)
                && #[trigger] self.needs(j).contains(k) by {
            if k != arg {
                let j = choose|j: usize|
                    self.memo.cached().contains_key(j) && !old(self).memo.cached().contains_key(j)
                        && #[trigger] self.memo.needs(j).contains(k);
                assert(self.needs(j).contains(k));
            }
        }
        r
    }

    fn clear_cache(&mut self) {
        self.memo.clear_cache();
    }
}

} // verus!
