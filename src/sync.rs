//! The decisions of memoization shared between threads.
//!
//! Each argument has a slot that moves from empty to computing once per
//! cache generation, and from computing to done (or failed) once. The
//! shared memo is the state machine over those slots: a caller holding the
//! memo's lock asks [`Memo::begin`] what to do, computes when told to (by
//! [`Memo::resume`], which runs one step of the computation and stores the
//! result), waits when another caller computes, and takes the value when it
//! is there. The computation of one argument is started at most once per
//! generation, however many callers race on it. A caller that holds the
//! memo alone can let [`Memo::call`] run those decisions for it.
use crate::{saturated, Lookup, RecurFn, Step};
use std::collections::HashMap;
use vstd::multiset::Multiset;
use vstd::prelude::*;

verus! {

broadcast use vstd::std_specs::hash::group_hash_axioms;

/// The state of the slot of one argument.
pub enum Slot<Output> {
    /// No computation has started.
    Empty,
    /// One caller is computing the result.
    Computing,
    /// The result is known.
    Done(Output),
    /// The computing caller ended abnormally; waiters learn of it.
    Failed,
}

/// What a caller must do next for an argument.
pub enum Begin<Output> {
    /// The caller has been chosen to compute the result, in the generation
    /// given.
    Compute(u64),
    /// Another caller computes the result, in the generation given: wait,
    /// then ask again with that generation.
    Wait(u64),
    /// The result.
    Ready(Output),
    /// The computation of this argument failed.
    Failed,
}

/// Storage of slots for shared memoization. Arguments without a stored
/// slot, or with an empty one, are empty.
pub trait Cache: Sized {
    /// The type of the results.
    type Output;

    /// The slots that are not empty, by argument.
    spec fn slots(&self) -> Map<usize, Slot<Self::Output>>;

    /// Creates a cache whose slots are all empty.
    fn new() -> (r: Self)
        ensures
            r.slots() == Map::<usize, Slot<Self::Output>>::empty(),
    ;

    /// Returns the slot of `arg` if it is not empty.
    fn slot(&self, arg: usize) -> (r: Option<&Slot<Self::Output>>)
        ensures
            match r {
                Some(s) => self.slots().contains_key(arg) && self.slots()[arg] == *s,
                None => !self.slots().contains_key(arg),
            },
    ;

    /// Sets the slot of `arg`.
    fn put(&mut self, arg: usize, slot: Slot<Self::Output>)
        requires
            !(slot is Empty),
        ensures
            final(self).slots() == old(self).slots().insert(arg, slot),
    ;

    /// Empties every slot.
    fn clear(&mut self)
        ensures
            final(self).slots() == Map::<usize, Slot<Self::Output>>::empty(),
    ;
}

/// The slots of a map that are not empty.
pub open spec fn filled<Output>(m: Map<usize, Slot<Output>>) -> Map<usize, Slot<Output>> {
    Map::new(|k: usize| m.contains_key(k) && !(m[k] is Empty), |k: usize| m[k])
}

/// A hash map of slots.
impl<Output> Cache for HashMap<usize, Slot<Output>> {
    type Output = Output;

    open spec fn slots(&self) -> Map<usize, Slot<Output>> {
        filled(self@)
    }

    fn new() -> (r: Self) {
        let r: HashMap<usize, Slot<Output>> = HashMap::new();
        assert(filled(r@) =~= Map::<usize, Slot<Output>>::empty());
        r
    }

    fn slot(&self, arg: usize) -> (r: Option<&Slot<Output>>) {
        match HashMap::get(self, &arg) {
            Some(Slot::Empty) => None,
            Some(s) => Some(s),
            None => None,
        }
    }

    fn put(&mut self, arg: usize, slot: Slot<Output>) {
        self.insert(arg, slot);
        assert(filled(self@) =~= filled(old(self)@).insert(arg, slot));
    }

    fn clear(&mut self) {
        HashMap::clear(self);
        assert(filled(self@) =~= Map::<usize, Slot<Output>>::empty());
    }
}

/// The slots of a vector that are not empty, by index.
pub open spec fn filled_seq<Output>(v: Seq<Slot<Output>>) -> Map<usize, Slot<Output>> {
    Map::new(|k: usize| k < v.len() && !(v[k as int] is Empty), |k: usize| v[k as int])
}

/// A vector of slots, for arguments that are small sequence indices. It
/// grows to one past the largest argument set, with a slot at every index.
impl<Output> Cache for Vec<Slot<Output>> {
    type Output = Output;

    open spec fn slots(&self) -> Map<usize, Slot<Output>> {
        filled_seq(self@)
    }

    fn new() -> (r: Self) {
        let r: Vec<Slot<Output>> = Vec::new();
        assert(filled_seq(r@) =~= Map::<usize, Slot<Output>>::empty());
        r
    }

    fn slot(&self, arg: usize) -> (r: Option<&Slot<Output>>) {
        if arg < self.len() {
            match &self[arg] {
                Slot::Empty => None,
                s => Some(s),
            }
        } else {
            None
        }
    }

    fn put(&mut self, arg: usize, slot: Slot<Output>)
        ensures
            final(self)@.len() == if arg < old(self)@.len() {
                old(self)@.len() as int
            } else {
                arg + 1
            },
            final(self)@[arg as int] == slot,
            forall|i: int|
                0 <= i < final(self)@.len() && i != arg ==> #[trigger] final(self)@[i] == if i
                    < old(self)@.len() {
                    old(self)@[i]
                } else {
                    Slot::Empty
                },
    {
        let ghost before = self@;
        if arg >= self.len() {
            while self.len() <= arg
                invariant
                    self@.len() >= before.len(),
                    self@.len() <= arg as int + 1,
                    forall|i: int| 0 <= i < before.len() ==> #[trigger] self@[i] == before[i],
                    forall|i: int| before.len() <= i < self@.len() ==> #[trigger] self@[i] is Empty,
                decreases arg as int + 1 - self@.len(),
            {
                self.push(Slot::Empty);
            }
        }
        self.set(arg, slot);
        assert(filled_seq(self@) =~= filled_seq(old(self)@).insert(arg, slot));
    }

    fn clear(&mut self)
        ensures
            final(self)@.len() == 0,
    {
        Vec::clear(self);
        assert(filled_seq(self@) =~= Map::<usize, Slot<Output>>::empty());
    }
}

/// The results of the slots that are done, by argument.
pub open spec fn done_results<Output>(m: Map<usize, Slot<Output>>) -> Map<usize, Output> {
    Map::new(|k: usize| m.contains_key(k) && m[k] is Done, |k: usize| m[k]->Done_0)
}

/// The results that a cache of slots knows: those of its done slots.
pub struct Results<'a, C> {
    pub cache: &'a C,
}

impl<'a, C: Cache> Lookup<C::Output> for Results<'a, C> {
    open spec fn entries(&self) -> Map<usize, C::Output> {
        done_results(self.cache.slots())
    }

    fn get(&self, arg: usize) -> (r: Option<&C::Output>) {
        match self.cache.slot(arg) {
            Some(Slot::Done(v)) => Some(v),
            _ => None,
        }
    }
}

/// The key under which the slot of `arg` in generation `g` is kept after
/// that generation is cleared.
pub open spec fn ticket(g: u64, arg: usize) -> u128 {
    (g as int * 0x1_0000_0000_0000_0000 + arg as int) as u128
}

fn ticket_of(g: u64, arg: usize) -> (r: u128)
    ensures
        r == ticket(g, arg),
{
    assert(arg as int <= u64::MAX);
    assert(g as int * 0x1_0000_0000_0000_0000 + arg as int <= u128::MAX) by (nonlinear_arith)
        requires
            g as int <= u64::MAX,
            arg as int <= u64::MAX,
    ;
    g as u128 * 0x1_0000_0000_0000_0000u128 + arg as u128
}

proof fn lemma_tickets_differ(g: u64, a: usize, b: usize)
    requires
        a != b,
    ensures
        ticket(g, a) != ticket(g, b),
{
    assert(a as int <= u64::MAX && b as int <= u64::MAX);
    assert(g as int * 0x1_0000_0000_0000_0000 + a as int <= u128::MAX) by (nonlinear_arith)
        requires
            g as int <= u64::MAX,
            a as int <= u64::MAX,
    ;
    assert(g as int * 0x1_0000_0000_0000_0000 + b as int <= u128::MAX) by (nonlinear_arith)
        requires
            g as int <= u64::MAX,
            b as int <= u64::MAX,
    ;
    assert(0 <= g as int * 0x1_0000_0000_0000_0000) by (nonlinear_arith)
        requires
            0 <= g as int,
    ;
}

/// The shared memo: the slots of one cache and the computation that fills
/// them. Clearing starts a new generation; the slots that were computing
/// are retired under their generation, so that the callers waiting on them
/// still get their result.
pub struct Memo<C: Cache, F> {
    cache: C,
    f: F,
    generation: u64,
    computing: Vec<usize>,
    retired: HashMap<u128, (usize, Slot<C::Output>)>,
    computations: u64,
    started: Ghost<Multiset<usize>>,
    total: Ghost<nat>,
}

impl<C: Cache, F: RecurFn<C::Output>> Memo<C, F> where C::Output: Clone {
    /// The slots of the current generation that are not empty, by argument.
    pub closed spec fn slots(&self) -> Map<usize, Slot<C::Output>> {
        self.cache.slots()
    }

    /// The current generation.
    pub closed spec fn generation(&self) -> u64 {
        self.generation
    }

    /// The retired slots, by ticket, each with its argument.
    pub closed spec fn retired(&self) -> Map<u128, (usize, Slot<C::Output>)> {
        self.retired@
    }

    /// How many times, in the current generation, a caller was chosen to
    /// compute each argument.
    pub closed spec fn started(&self) -> Multiset<usize> {
        self.started@
    }

    /// How many times, over all generations, a caller was chosen to compute.
    pub closed spec fn total(&self) -> nat {
        self.total@
    }

    /// The computation that fills the slots.
    pub closed spec fn function(&self) -> F {
        self.f
    }

    /// The value the memoized function denotes at `arg`.
    pub closed spec fn denotes(&self, arg: usize) -> C::Output {
        self.f.value(arg)
    }

    /// Done slots, current or retired, hold the value of their argument;
    /// exactly the arguments with a current slot were started, once each;
    /// every computing slot is listed.
    pub closed spec fn wf(&self) -> bool {
        &&& forall|k: usize| #[trigger]
            self.cache.slots().contains_key(k) && self.cache.slots()[k] is Done
                ==> self.cache.slots()[k]->Done_0 == self.f.value(k)
        &&& forall|k: usize| #[trigger]
            self.started@.count(k) == if self.cache.slots().contains_key(k) {
                1nat
            } else {
                0nat
            }
        &&& self.computations as int == saturated(self.total@)
        &&& forall|k: usize| #[trigger]
            self.cache.slots().contains_key(k) && self.cache.slots()[k] is Computing
                ==> self.computing@.contains(k)
        &&& forall|t: u128| #[trigger]
            self.retired@.contains_key(t) ==> !(self.retired@[t].1 is Empty) && (
            self.retired@[t].1 is Done ==> self.retired@[t].1->Done_0 == self.f.value(
                self.retired@[t].0,
            ))
    }

    /// `after` and `r` are what asking for `arg` in the current generation
    /// gives from `before`: compute it when its slot is empty (the slot
    /// becomes computing), wait while it is computing, take a clone of the
    /// result when it is done.
    pub open spec fn began(before: &Self, after: &Self, arg: usize, r: Begin<C::Output>) -> bool {
        &&& !before.slots().contains_key(arg) ==> r is Compute && r->Compute_0
            == before.generation() && after.slots() == before.slots().insert(arg, Slot::Computing)
            && after.started() == before.started().insert(arg) && after.total() == before.total()
            + 1
        &&& before.slots().contains_key(arg) ==> after.slots() == before.slots() && after.started()
            == before.started() && after.total() == before.total() && match before.slots()[arg] {
            Slot::Computing => r is Wait && r->Wait_0 == before.generation(),
            Slot::Done(v) => r is Ready && v == before.denotes(arg) && cloned(v, r->Ready_0),
            _ => r is Failed,
        }
    }

    /// The slot of `arg` in the past generation `g` is retired here.
    pub open spec fn holds(&self, g: u64, arg: usize) -> bool {
        &&& g != self.generation()
        &&& self.retired().contains_key(ticket(g, arg))
        &&& self.retired()[ticket(g, arg)].0 == arg
    }

    /// How many times a caller was chosen to compute, saturating at the
    /// largest `u64`.
    pub fn computations(&self) -> (r: u64)
        requires
            self.wf(),
        ensures
            r as int == saturated(self.total()),
    {
        self.computations
    }

    /// Creates a shared memo of `f` whose slots are all empty.
    pub fn new(f: F) -> (r: Self)
        ensures
            r.wf(),
            forall|a: usize| #[trigger] r.denotes(a) == f.value(a),
            r.slots() == Map::<usize, Slot<C::Output>>::empty(),
            r.retired() == Map::<u128, (usize, Slot<C::Output>)>::empty(),
            r.started() == Multiset::<usize>::empty(),
            r.total() == 0,
            r.function() == f,
    {
        let r = Memo {
            cache: C::new(),
            f,
            generation: 0,
            computing: Vec::new(),
            retired: HashMap::new(),
            computations: 0,
            started: Ghost(Multiset::empty()),
            total: Ghost(0),
        };
        r
    }

    /// Decides what a caller asking for `arg` in the current generation does.
    pub fn begin(&mut self, arg: usize) -> (r: Begin<C::Output>)
        requires
            old(self).wf(),
        ensures
            final(self).wf(),
            forall|a: usize| #[trigger] final(self).denotes(a) == old(self).denotes(a),
            final(self).function() == old(self).function(),
            final(self).generation() == old(self).generation(),
            final(self).retired() == old(self).retired(),
            Self::began(&*old(self), &*final(self), arg, r),
    {
        match self.cache.slot(arg) {
            Some(Slot::Computing) => Begin::Wait(self.generation),
            Some(Slot::Done(v)) => Begin::Ready(v.clone()),
            Some(_) => Begin::Failed,
            None => {
                let ghost listed = self.computing@;
                self.cache.put(arg, Slot::Computing);
                self.computing.push(arg);
                assert forall|k: usize| #[trigger]
                    self.cache.slots().contains_key(k) && self.cache.slots()[k] is Computing
                        implies self.computing@.contains(k) by {
                    if k == arg {
                        assert(self.computing@[listed.len() as int] == arg);
                    } else {
                        assert(listed.contains(k));
                        let j = choose|j: int| 0 <= j < listed.len() && listed[j] == k;
                        assert(self.computing@[j] == k);
                    }
                }
                self.started = Ghost(self.started@.insert(arg));
                self.total = Ghost(self.total@ + 1);
                self.computations = self.computations.saturating_add(1);
                Begin::Compute(self.generation)
            },
        }
    }

    /// Decides what a caller that waited on `arg` in generation `g` does
    /// when it asks again. If that generation was cleared meanwhile, the
    /// caller keeps to the slot it waited on: it waits while the slot is
    /// computing and takes a clone of its result once done, and nothing is
    /// started. Otherwise it asks as `begin` does.
    pub fn rejoin(&mut self, arg: usize, g: u64) -> (r: Begin<C::Output>)
        requires
            old(self).wf(),
        ensures
            final(self).wf(),
            forall|a: usize| #[trigger] final(self).denotes(a) == old(self).denotes(a),
            final(self).function() == old(self).function(),
            final(self).generation() == old(self).generation(),
            final(self).retired() == old(self).retired(),
            old(self).holds(g, arg) ==> final(self).slots() == old(self).slots()
                && final(self).started() == old(self).started() && final(self).total() == old(
                self,
            ).total() && match old(self).retired()[ticket(g, arg)].1 {
                Slot::Computing => r is Wait && r->Wait_0 == g,
                Slot::Done(v) => r is Ready && v == old(self).denotes(arg) && cloned(v, r->Ready_0),
                _ => r is Failed,
            },
            !old(self).holds(g, arg) ==> Self::began(&*old(self), &*final(self), arg, r),
    {
        if g != self.generation {
            let t = ticket_of(g, arg);
            match self.retired.get(&t) {
                Some(entry) => {
                    if entry.0 == arg {
                        return match &entry.1 {
                            Slot::Computing => Begin::Wait(g),
                            Slot::Done(v) => Begin::Ready(v.clone()),
                            _ => Begin::Failed,
                        };
                    }
                },
                None => {},
            }
        }
        self.begin(arg)
    }

    /// Runs one step of the computation of `arg` that was started in
    /// generation `g`, on the results known so far. A result is stored in
    /// the slot it was computed for when that slot is still computing,
    /// current or retired, and a clone is returned; otherwise the step
    /// names a dependency whose result is not known yet.
    pub fn resume(&mut self, arg: usize, g: u64) -> (r: Step<C::Output>)
        requires
            old(self).wf(),
        ensures
            final(self).wf(),
            forall|a: usize| #[trigger] final(self).denotes(a) == old(self).denotes(a),
            final(self).function() == old(self).function(),
            final(self).generation() == old(self).generation(),
            final(self).started() == old(self).started(),
            final(self).total() == old(self).total(),
            old(self).function().deps(arg).finite(),
            forall|a: usize| #[trigger]
                old(self).function().deps(arg).contains(a) ==> old(self).function().rank(a) < old(
                    self,
                ).function().rank(arg),
            match r {
                Step::Done(v) => cloned(old(self).denotes(arg), v) && if g == old(
                    self,
                ).generation() && old(self).slots().contains_key(arg) && old(
                    self,
                ).slots()[arg] is Computing {
                    final(self).slots() == old(self).slots().insert(
                        arg,
                        Slot::Done(old(self).denotes(arg)),
                    ) && final(self).retired() == old(self).retired()
                } else if old(self).holds(g, arg) && old(self).retired()[ticket(
                    g,
                    arg,
                )].1 is Computing {
                    final(self).slots() == old(self).slots() && final(self).retired() == old(
                        self,
                    ).retired().insert(ticket(g, arg), (arg, Slot::Done(old(self).denotes(arg))))
                } else {
                    final(self).slots() == old(self).slots() && final(self).retired() == old(
                        self,
                    ).retired()
                },
                Step::Need(a) => final(self).slots() == old(self).slots() && final(self).retired()
                    == old(self).retired() && !(old(self).slots().contains_key(a) && old(
                    self,
                ).slots()[a] is Done) && old(self).function().deps(arg).contains(a),
            },
    {
        let step = self.f.body(&Results { cache: &self.cache }, arg);
        match step {
            Step::Done(v) => {
                let out = v.clone();
                self.settle(arg, g, Slot::Done(v));
                Step::Done(out)
            },
            Step::Need(a) => Step::Need(a),
        }
    }

    /// Puts `slot` in place of the computing slot of `arg` of generation
    /// `g`, current or retired, if there is one.
    fn settle(&mut self, arg: usize, g: u64, slot: Slot<C::Output>)
        requires
            old(self).wf(),
            !(slot is Empty) && !(slot is Computing),
            slot is Done ==> slot->Done_0 == old(self).f.value(arg),
        ensures
            final(self).wf(),
            final(self).f == old(self).f,
            final(self).generation == old(self).generation,
            final(self).started == old(self).started,
            final(self).total == old(self).total,
            if g == old(self).generation() && old(self).slots().contains_key(arg) && old(
                self,
            ).slots()[arg] is Computing {
                final(self).slots() == old(self).slots().insert(arg, slot) && final(self).retired()
                    == old(self).retired()
            } else if old(self).holds(g, arg) && old(self).retired()[ticket(g, arg)].1 is Computing {
                final(self).slots() == old(self).slots() && final(self).retired() == old(
                    self,
                ).retired().insert(ticket(g, arg), (arg, slot))
            } else {
                final(self).slots() == old(self).slots() && final(self).retired() == old(
                    self,
                ).retired()
            },
    {
        if g == self.generation {
            let computing = match self.cache.slot(arg) {
                Some(Slot::Computing) => true,
                _ => false,
            };
            if computing {
                self.cache.put(arg, slot);
            }
        } else {
            let t = ticket_of(g, arg);
            let held = match self.retired.get(&t) {
                Some(entry) => entry.0 == arg && match entry.1 {
                    Slot::Computing => true,
                    _ => false,
                },
                None => false,
            };
            if held {
                self.retired.insert(t, (arg, slot));
            }
        }
    }

    /// Records that the caller computing `arg`, started in generation `g`,
    /// ended abnormally: that slot, current or retired, becomes failed if
    /// it is still computing, so that its waiters stop waiting.
    pub fn abandon(&mut self, arg: usize, g: u64)
        requires
            old(self).wf(),
        ensures
            final(self).wf(),
            forall|a: usize| #[trigger] final(self).denotes(a) == old(self).denotes(a),
            final(self).function() == old(self).function(),
            final(self).generation() == old(self).generation(),
            final(self).started() == old(self).started(),
            final(self).total() == old(self).total(),
            if g == old(self).generation() && old(self).slots().contains_key(arg) && old(
                self,
            ).slots()[arg] is Computing {
                final(self).slots() == old(self).slots().insert(arg, Slot::Failed) && final(self).retired() == old(self).retired()
            } else if old(self).holds(g, arg) && old(self).retired()[ticket(g, arg)].1 is Computing {
                final(self).slots() == old(self).slots() && final(self).retired() == old(
                    self,
                ).retired().insert(ticket(g, arg), (arg, Slot::Failed))
            } else {
                final(self).slots() == old(self).slots() && final(self).retired() == old(
                    self,
                ).retired()
            },
    {
        self.settle(arg, g, Slot::Failed);
    }

    /// Empties every slot and starts a new generation. The slots that were
    /// computing are retired under the old generation: their computations
    /// run to completion and their waiters get the result, while the next
    /// caller asking for such an argument computes it afresh.
    pub fn clear_cache(&mut self)
        requires
            old(self).wf(),
        ensures
            final(self).wf(),
            forall|a: usize| #[trigger] final(self).denotes(a) == old(self).denotes(a),
            final(self).function() == old(self).function(),
            final(self).slots() == Map::<usize, Slot<C::Output>>::empty(),
            final(self).started() == Multiset::<usize>::empty(),
            final(self).total() == old(self).total(),
            final(self).generation() != old(self).generation(),
            forall|k: usize| #[trigger]
                old(self).slots().contains_key(k) && old(self).slots()[k] is Computing
                    ==> final(self).holds(old(self).generation(), k) && final(self).retired()[ticket(old(self).generation(), k)].1 is Computing,
    {
        let g = self.generation;
        let mut i: usize = 0;
        while i < self.computing.len()
            invariant
                self.wf(),
                self.f == old(self).f,
                self.generation == g,
                g == old(self).generation,
                self.cache.slots() == old(self).cache.slots(),
                self.computing == old(self).computing,
                self.started == old(self).started,
                self.total == old(self).total,
                i <= self.computing@.len(),
                forall|j: int|
                    0 <= j < i && self.cache.slots().contains_key(#[trigger] self.computing@[j])
                        && self.cache.slots()[self.computing@[j]] is Computing
                        ==> self.retired@.contains_key(ticket(g, self.computing@[j]))
                        && self.retired@[ticket(g, self.computing@[j])] == (
                    self.computing@[j],
                    Slot::<C::Output>::Computing,
                ),
            decreases self.computing@.len() - i,
        {
            let k = self.computing[i];
            let computing = match self.cache.slot(k) {
                Some(Slot::Computing) => true,
                _ => false,
            };
            if computing {
                let t = ticket_of(g, k);
                let ghost before = self.retired@;
                self.retired.insert(t, (k, Slot::Computing));
                proof {
                    assert forall|j: int|
                        0 <= j < i + 1 && self.cache.slots().contains_key(
                            #[trigger] self.computing@[j],
                        ) && self.cache.slots()[self.computing@[j]] is Computing implies self.retired@.contains_key(
                    ticket(g, self.computing@[j])) && self.retired@[ticket(g, self.computing@[j])]
                        == (self.computing@[j], Slot::<C::Output>::Computing) by {
                        if self.computing@[j] != k {
                            lemma_tickets_differ(g, self.computing@[j], k);
                        }
                    }
                }
            }
            i = i + 1;
        }
        proof {
            assert forall|k: usize| #[trigger]
                old(self).slots().contains_key(k) && old(self).slots()[k] is Computing
                    implies self.retired@.contains_key(ticket(g, k)) && self.retired@[ticket(g, k)]
                    == (k, Slot::<C::Output>::Computing) by {
                let j = choose|j: int| 0 <= j < self.computing@.len() && self.computing@[j] == k;
                assert(self.computing@[j] == k);
            }
        }
        self.cache.clear();
        self.computing = Vec::new();
        self.started = Ghost(Multiset::empty());
        self.generation = self.generation.wrapping_add(1);
    }

    /// Evaluates `arg` for a caller that holds the memo alone, computing
    /// and storing what is missing. Returns `None`, marking its own slot
    /// failed, when it meets a slot that another caller is computing or
    /// that failed; when every slot is done, that cannot happen.
    pub fn call(&mut self, arg: usize) -> (r: Option<C::Output>)
        requires
            old(self).wf(),
        ensures
            final(self).wf(),
            forall|a: usize| #[trigger] final(self).denotes(a) == old(self).denotes(a),
            final(self).function() == old(self).function(),
            final(self).generation() == old(self).generation(),
            old(self).slots().dom().subset_of(final(self).slots().dom()),
            forall|k: usize| #[trigger]
                old(self).slots().contains_key(k) && old(self).slots()[k] is Done
                    ==> final(self).slots()[k] == old(self).slots()[k],
            match r {
                Some(v) => cloned(old(self).denotes(arg), v) && final(self).slots().contains_key(arg)
                    && final(self).slots()[arg] is Done,
                None => true,
            },
            (forall|k: usize| #[trigger]
                old(self).slots().contains_key(k) ==> old(self).slots()[k] is Done) ==> r is Some,
    {
        proof {
            if forall|k: usize| #[trigger]
                self.slots().contains_key(k) ==> self.slots()[k] is Done {
                assert(self.orderly(arg));
            }
        }
        self.run(arg)
    }

    /// Every slot that is not done is computing, for an argument ranked
    /// above `arg`: the state of a single caller's chain of computations
    /// below which `arg` is asked for.
    closed spec fn orderly(&self, arg: usize) -> bool {
        forall|k: usize| #[trigger]
            self.cache.slots().contains_key(k) && !(self.cache.slots()[k] is Done)
                ==> self.cache.slots()[k] is Computing && self.f.rank(k) > self.f.rank(arg)
    }

    fn run(&mut self, arg: usize) -> (r: Option<C::Output>)
        requires
            old(self).wf(),
        ensures
            final(self).wf(),
            final(self).f == old(self).f,
            final(self).generation == old(self).generation,
            old(self).cache.slots().dom().subset_of(final(self).cache.slots().dom()),
            forall|k: usize| #[trigger]
                old(self).cache.slots().contains_key(k) && old(self).cache.slots()[k] is Done
                    ==> final(self).cache.slots()[k] == old(self).cache.slots()[k],
            forall|k: usize| #[trigger]
                final(self).cache.slots().contains_key(k) && (!old(
                    self,
                ).cache.slots().contains_key(k) || final(self).cache.slots()[k] != old(
                    self,
                ).cache.slots()[k]) ==> final(self).f.rank(k) <= final(self).f.rank(arg),
            r is Some ==> forall|k: usize| #[trigger]
                final(self).cache.slots().contains_key(k) && !(final(self).cache.slots()[k] is Done)
                    ==> old(self).cache.slots().contains_key(k) && old(self).cache.slots()[k]
                    == final(self).cache.slots()[k],
            match r {
                Some(v) => cloned(old(self).f.value(arg), v) && final(self).cache.slots().contains_key(arg) && final(self).cache.slots()[arg] is Done,
                None => true,
            },
            old(self).orderly(arg) ==> r is Some,
        decreases old(self).f.rank(arg),
    {
        match self.begin(arg) {
            Begin::Ready(v) => Some(v),
            Begin::Wait(_) => None,
            Begin::Failed => None,
            Begin::Compute(g) => {
                let mut step = self.resume(arg, g);
                loop
                    invariant
                        self.wf(),
                        self.f == old(self).f,
                        self.generation == g,
                        g == old(self).generation,
                        !old(self).cache.slots().contains_key(arg),
                        self.f.deps(arg).finite(),
                        forall|a: usize| #[trigger]
                            self.f.deps(arg).contains(a) ==> self.f.rank(a) < self.f.rank(arg),
                        old(self).cache.slots().dom().subset_of(self.cache.slots().dom()),
                        forall|k: usize| #[trigger]
                            old(self).cache.slots().contains_key(k) && old(self).cache.slots()[k] is Done
                                ==> self.cache.slots()[k] == old(self).cache.slots()[k],
                        forall|k: usize| #[trigger]
                            self.cache.slots().contains_key(k) && (!old(
                                self,
                            ).cache.slots().contains_key(k) || self.cache.slots()[k] != old(
                                self,
                            ).cache.slots()[k]) ==> self.f.rank(k) <= self.f.rank(arg),
                        forall|k: usize| #[trigger]
                            self.cache.slots().contains_key(k) && !(self.cache.slots()[k] is Done)
                                && k != arg ==> old(self).cache.slots().contains_key(k) && old(
                                self,
                            ).cache.slots()[k] == self.cache.slots()[k],
                        self.cache.slots().contains_key(arg),
                        match step {
                            Step::Done(v) => cloned(self.f.value(arg), v)
                                && self.cache.slots()[arg] is Done,
                            Step::Need(a) => self.cache.slots()[arg] is Computing
                                && self.f.deps(arg).contains(a) && !(
                            self.cache.slots().contains_key(a) && self.cache.slots()[a] is Done),
                        },
                    decreases self.f.deps(arg).difference(done_results(self.cache.slots()).dom()).len(),
                {
                    match step {
                        Step::Done(v) => {
                            return Some(v);
                        },
                        Step::Need(a) => {
                            let ghost before = self.cache.slots();
                            let sub = self.run(a);
                            if sub.is_none() {
                                self.abandon(arg, g);
                                return None;
                            }
                            let ghost d0 = done_results(before).dom();
                            let ghost d1 = done_results(self.cache.slots()).dom();
                            proof {
                                assert forall|k: usize| d0.contains(k) implies #[trigger] d1.contains(
                                    k,
                                ) by {
                                    assert(before.contains_key(k) && before[k] is Done);
                                }
                                crate::unsync::lemma_fewer_unknown(self.f.deps(arg), d0, d1, a);
                            }
                            step = self.resume(arg, g);
                            proof {
                                let d2 = done_results(self.cache.slots()).dom();
                                assert(!self.f.deps(arg).contains(arg));
                                assert(self.f.deps(arg).difference(d2) =~= self.f.deps(
                                    arg,
                                ).difference(d1));
                            }
                        },
                    }
                }
            },
        }
    }
}

/// Creates a shared memo of `f` whose slots live in a hash map.
pub fn hash_memo<Output: Clone, F: RecurFn<Output>>(f: F) -> (r: Memo<HashMap<usize, Slot<Output>>, F>)
    ensures
        r.wf(),
        forall|a: usize| #[trigger] r.denotes(a) == f.value(a),
        r.slots() == Map::<usize, Slot<Output>>::empty(),
        r.started() == Multiset::<usize>::empty(),
        r.total() == 0,
{
    Memo::new(f)
}

/// Creates a shared memo of the sequence `f` whose slots live in a vector.
pub fn seq_memo<Output: Clone, F: RecurFn<Output>>(f: F) -> (r: Memo<Vec<Slot<Output>>, F>)
    ensures
        r.wf(),
        forall|a: usize| #[trigger] r.denotes(a) == f.value(a),
        r.slots() == Map::<usize, Slot<Output>>::empty(),
        r.started() == Multiset::<usize>::empty(),
        r.total() == 0,
{
    Memo::new(f)
}

/// However many callers race on an argument, in one generation at most one
/// of them is chosen to compute it.
pub proof fn lemma_single_flight<C: Cache, F: RecurFn<C::Output>>(m: &Memo<C, F>, arg: usize)
    where C::Output: Clone
    requires
        m.wf(),
    ensures
        m.started().count(arg) <= 1,
        m.started().count(arg) == 1 <==> m.slots().contains_key(arg),
{
}

} // verus!
