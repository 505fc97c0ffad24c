//! Computations ready to be memoized.
use crate::{Lookup, RecurFn, Step};
use vstd::prelude::*;

verus! {

/// The Fibonacci numbers modulo 2^64.
pub open spec fn fib(n: nat) -> u64
    decreases n,
{
    if n <= 1 {
        n as u64
    } else {
        ((fib((n - 1) as nat) + fib((n - 2) as nat)) % 0x1_0000_0000_0000_0000) as u64
    }
}

/// The Fibonacci sequence, `fib(n) = fib(n - 1) + fib(n - 2)` wrapping on
/// overflow, which asks for its own results at `n - 1` and `n - 2`.
pub struct Fibonacci;

impl RecurFn<u64> for Fibonacci {
    open spec fn value(&self, arg: usize) -> u64 {
        fib(arg as nat)
    }

    open spec fn deps(&self, arg: usize) -> Set<usize> {
        if arg <= 1 {
            Set::empty()
        } else {
            set![(arg - 1) as usize, (arg - 2) as usize]
        }
    }

    open spec fn rank(&self, arg: usize) -> nat {
        arg as nat
    }

    fn body<K: Lookup<u64>>(&self, known: &K, arg: usize) -> (r: Step<u64>) {
        if arg <= 1 {
            return Step::Done(arg as u64);
        }
        match known.get(arg - 1) {
            None => Step::Need(arg - 1),
            Some(a) => match known.get(arg - 2) {
                None => Step::Need(arg - 2),
                Some(b) => Step::Done(a.wrapping_add(*b)),
            },
        }
    }
}

/// The function `n * 2`, which needs no other results.
pub struct Doubling;

impl RecurFn<u128> for Doubling {
    open spec fn value(&self, arg: usize) -> u128 {
        (2 * arg) as u128
    }

    open spec fn deps(&self, arg: usize) -> Set<usize> {
        Set::empty()
    }

    open spec fn rank(&self, arg: usize) -> nat {
        0
    }

    fn body<K: Lookup<u128>>(&self, known: &K, arg: usize) -> (r: Step<u128>) {
        Step::Done(arg as u128 * 2)
    }
}

} // verus!
