use fn_memo::hash_map::HashMapMemo;
use fn_memo::unsync::{hash_memo, seq_memo, Cache, Memo};
use fn_memo::funcs::{Doubling, Fibonacci};
use fn_memo::{FnMemo, Lookup};
use std::collections::HashMap;

fn expect_fib_sequence<M: FnMemo<u64>>(fib: &mut M) {
    assert_eq!(5, fib.call(5));
    assert_eq!(6, fib.evaluations());
    assert_eq!(0, fib.call(0));
    assert_eq!(1, fib.call(1));
    assert_eq!(1, fib.call(2));
    assert_eq!(2, fib.call(3));
    assert_eq!(3, fib.call(4));
    assert_eq!(5, fib.call(5));
    assert_eq!(6, fib.evaluations());
}

#[test]
fn unsync_memoize_works() {
    let mut fib = hash_memo(Fibonacci);
    expect_fib_sequence(&mut fib);
}

#[test]
fn emoize_seq_works() {
    let mut fib = seq_memo(Fibonacci);
    expect_fib_sequence(&mut fib);
}

#[test]
fn hash_map_memo_works() {
    let mut fib = HashMapMemo::new(Fibonacci);
    expect_fib_sequence(&mut fib);
}

#[test]
fn direct_function_scenario() {
    let mut mul_2 = hash_memo(Doubling);
    assert_eq!(0, mul_2.call(0));
    assert_eq!(4, mul_2.call(2));
    assert_eq!(10, mul_2.call(5));
    assert_eq!(3, mul_2.evaluations());
    assert_eq!(4, mul_2.call(2));
    assert_eq!(3, mul_2.evaluations());
    mul_2.clear_cache();
    assert_eq!(4, mul_2.call(2));
    assert_eq!(4, mul_2.evaluations());
}

#[test]
fn call_twice_evaluates_once() {
    let mut mul_2 = seq_memo(Doubling);
    let a = mul_2.call(7);
    let b = mul_2.call(7);
    assert_eq!(a, b);
    assert_eq!(14, a);
    assert_eq!(1, mul_2.evaluations());
}

#[test]
fn clear_recomputes_every_argument() {
    let mut fib = seq_memo(Fibonacci);
    assert_eq!(55, fib.call(10));
    assert_eq!(11, fib.evaluations());
    fib.clear_cache();
    assert_eq!(55, fib.call(10));
    assert_eq!(22, fib.evaluations());
}

#[test]
fn fib_ten_evaluates_each_argument_once() {
    let mut fib = hash_memo(Fibonacci);
    assert_eq!(55, fib.call(10));
    assert_eq!(5, fib.call(5));
    assert_eq!(11, fib.evaluations());
}

#[test]
fn backends_agree() {
    let mut by_map = hash_memo(Fibonacci);
    let mut by_vec = seq_memo(Fibonacci);
    for arg in [3usize, 0, 12, 7, 12, 1, 20, 2] {
        assert_eq!(by_map.call(arg), by_vec.call(arg));
    }
    assert_eq!(by_map.evaluations(), by_vec.evaluations());
    assert_eq!(6765, by_vec.call(20));
}

#[test]
fn memo_new_with_vector_cache() {
    let mut fib: Memo<Vec<Option<u64>>, Fibonacci> = Memo::new(Fibonacci);
    assert_eq!(8, fib.call(6));
    assert_eq!(7, fib.evaluations());
}

#[test]
fn vector_cache_grows_with_gaps_empty() {
    let mut v: Vec<Option<u32>> = Cache::new();
    Cache::cache(&mut v, 4, 9);
    assert_eq!(5, v.len());
    assert_eq!(Some(&9), Lookup::get(&v, 4));
    assert_eq!(None, Lookup::get(&v, 2));
    assert_eq!(None, Lookup::get(&v, 7));
    Cache::cache(&mut v, 1, 3);
    assert_eq!(5, v.len());
    assert_eq!(Some(&3), Lookup::get(&v, 1));
    Cache::clear(&mut v);
    assert_eq!(None, Lookup::get(&v, 4));
}

#[test]
fn hash_cache_put_overwrites() {
    let mut m: HashMap<usize, u32> = Cache::new();
    Cache::cache(&mut m, 8, 1);
    Cache::cache(&mut m, 8, 2);
    assert_eq!(Some(&2), Lookup::get(&m, 8));
    assert_eq!(None, Lookup::get(&m, 9));
}

#[test]
fn fibonacci_wraps_past_u64() {
    let mut fib = seq_memo(Fibonacci);
    assert_eq!(12200160415121876738, fib.call(93));
    assert_eq!(1293530146158671551, fib.call(94));
    assert_eq!(95, fib.evaluations());
}

#[test]
fn doubling_is_exact_for_large_arguments() {
    let mut mul_2 = hash_memo(Doubling);
    assert_eq!(2 * (usize::MAX as u128), mul_2.call(usize::MAX));
    assert_eq!(1, mul_2.evaluations());
}
