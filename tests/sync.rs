use fn_memo::sync::{Begin, Cache, Memo, Slot};
use fn_memo::funcs::{Doubling, Fibonacci};
use fn_memo::Step;
use std::collections::HashMap;

fn call_one<C: Cache<Output = u64>>(m: &mut Memo<C, Fibonacci>, arg: usize) -> u64 {
    m.call(arg).unwrap()
}

fn run_shared_fib<C: Cache<Output = u64>>(mut fib: Memo<C, Fibonacci>) {
    assert_eq!(5, call_one(&mut fib, 5));
    assert_eq!(6, fib.computations());
    assert_eq!(1, call_one(&mut fib, 2));
    assert_eq!(6, fib.computations());

    fib.clear_cache();

    let expects = [0, 1, 1, 2, 3, 5];
    for arg in 0..=5 {
        for _ in 0..10 {
            assert_eq!(expects[arg], call_one(&mut fib, arg));
        }
    }
    assert_eq!(12, fib.computations());
}

#[test]
fn rw_lock_memoize_works() {
    let fib: Memo<HashMap<usize, Slot<u64>>, Fibonacci> = Memo::new(Fibonacci);
    run_shared_fib(fib);
}

#[test]
fn memoize_seq_works() {
    let fib: Memo<Vec<Slot<u64>>, Fibonacci> = Memo::new(Fibonacci);
    run_shared_fib(fib);
}

#[test]
fn racing_callers_compute_once() {
    let mut m: Memo<HashMap<usize, Slot<u128>>, Doubling> = Memo::new(Doubling);
    assert!(matches!(m.begin(3), Begin::Compute(_)));
    for _ in 0..9 {
        assert!(matches!(m.begin(3), Begin::Wait(_)));
    }
    assert!(matches!(m.resume(3, 0), Step::Done(6)));
    assert_eq!(1, m.computations());
    for _ in 0..10 {
        assert!(matches!(m.begin(3), Begin::Ready(6)));
    }
    assert_eq!(1, m.computations());
}

#[test]
fn four_callers_interleaved_get_doubles() {
    let mut m: Memo<Vec<Slot<u128>>, Doubling> = Memo::new(Doubling);
    for n in 0..10 {
        let mut computing = 0;
        for _ in 0..4 {
            match m.begin(n) {
                Begin::Compute(_) => computing += 1,
                Begin::Wait(_) => {}
                _ => panic!("the slot is neither empty nor computing"),
            }
        }
        assert_eq!(1, computing);
        assert!(matches!(m.resume(n, 0), Step::Done(v) if v == 2 * n as u128));
        for _ in 0..4 {
            assert!(matches!(m.begin(n), Begin::Ready(v) if v == 2 * n as u128));
        }
    }
    assert_eq!(10, m.computations());
}

#[test]
fn abandoned_computation_fails_waiters() {
    let mut m: Memo<HashMap<usize, Slot<u128>>, Doubling> = Memo::new(Doubling);
    assert!(matches!(m.begin(1), Begin::Compute(_)));
    assert!(matches!(m.begin(1), Begin::Wait(_)));
    m.abandon(1, 0);
    assert!(matches!(m.begin(1), Begin::Failed));
    m.clear_cache();
    assert!(matches!(m.begin(1), Begin::Compute(_)));
}

#[test]
fn clear_during_computation_keeps_result() {
    let mut m: Memo<Vec<Slot<u128>>, Doubling> = Memo::new(Doubling);
    assert!(matches!(m.begin(4), Begin::Compute(0)));
    m.clear_cache();
    assert!(matches!(m.resume(4, 0), Step::Done(8)));
    assert!(matches!(m.begin(4), Begin::Compute(1)));
}

#[test]
fn vector_slots_have_no_gaps() {
    let mut v: Vec<Slot<u8>> = Cache::new();
    Cache::put(&mut v, 3, Slot::Computing);
    assert_eq!(4, v.len());
    assert!(Cache::slot(&v, 1).is_none());
    assert!(matches!(Cache::slot(&v, 3), Some(Slot::Computing)));
    Cache::put(&mut v, 3, Slot::Done(7));
    assert!(matches!(Cache::slot(&v, 3), Some(Slot::Done(7))));
}

#[test]
fn shared_call_gives_up_on_a_slot_held_elsewhere() {
    let mut m: Memo<HashMap<usize, Slot<u64>>, Fibonacci> = Memo::new(Fibonacci);
    assert!(matches!(m.begin(3), Begin::Compute(_)));
    assert!(m.call(5).is_none());
    assert!(matches!(m.begin(5), Begin::Failed));
    assert_eq!(Some(1), m.call(2));
    m.clear_cache();
    assert_eq!(Some(5), m.call(5));
}

#[test]
fn shared_constructors_agree() {
    let mut by_map = fn_memo::sync::hash_memo(Fibonacci);
    let mut by_vec = fn_memo::sync::seq_memo(Fibonacci);
    for arg in [9usize, 2, 30, 9] {
        assert_eq!(by_map.call(arg), by_vec.call(arg));
    }
    assert_eq!(Some(832040), by_vec.call(30));
    assert_eq!(31, by_map.computations());
}

#[test]
fn waiter_keeps_in_flight_result_across_clear() {
    let mut m: Memo<HashMap<usize, Slot<u128>>, Doubling> = Memo::new(Doubling);
    assert!(matches!(m.begin(3), Begin::Compute(0)));
    assert!(matches!(m.begin(3), Begin::Wait(0)));
    m.clear_cache();
    assert!(matches!(m.rejoin(3, 0), Begin::Wait(0)));
    assert_eq!(1, m.computations());
    assert!(matches!(m.resume(3, 0), Step::Done(6)));
    assert!(matches!(m.rejoin(3, 0), Begin::Ready(6)));
    assert_eq!(1, m.computations());
    assert!(matches!(m.begin(3), Begin::Compute(1)));
    assert_eq!(2, m.computations());
}

#[test]
fn abandoned_old_generation_fails_its_waiters() {
    let mut m: Memo<Vec<Slot<u128>>, Doubling> = Memo::new(Doubling);
    assert!(matches!(m.begin(2), Begin::Compute(0)));
    m.clear_cache();
    m.abandon(2, 0);
    assert!(matches!(m.rejoin(2, 0), Begin::Failed));
    assert!(matches!(m.rejoin(2, 1), Begin::Compute(1)));
}
