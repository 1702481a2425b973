use itertools::Itertools;
use orx_priority_queue::{DaryHeap, PriorityQueue};
use rand::Rng;
use std::cmp::Ordering;

fn order_pairs(x: &(usize, f64), y: &(usize, f64)) -> Ordering {
    if x.1 <= y.1 {
        Ordering::Less
    } else {
        Ordering::Greater
    }
}

fn order_refs(x: &&(usize, f64), y: &&(usize, f64)) -> Ordering {
    order_pairs(x, y)
}

fn test_len<P: PriorityQueue<usize, f64>>(mut pq: P) {
    pq.clear();
    assert_eq!(0, pq.len());
    for i in 0..10 {
        pq.push(i, 0f64);
        assert_eq!(i + 1, pq.len());
    }
    for i in 0..6 {
        pq.pop();
        assert_eq!(10 - i - 1, pq.len());
    }
    assert_eq!(4, pq.len());
    pq.clear();
    assert_eq!(0, pq.len());
}

fn test_is_empty<P: PriorityQueue<usize, f64>>(mut pq: P) {
    pq.clear();
    assert!(pq.is_empty());
    pq.push(0, 0f64);
    assert!(!pq.is_empty());
    pq.pop();
    assert!(pq.is_empty());
}

fn test_as_slice<const D: usize>(mut pq: DaryHeap<usize, f64, D>) {
    const N: usize = 50;
    pq.clear();
    assert!(pq.is_empty());
    let mut vec = vec![];
    let mut rng = rand::rng();
    for node in 0..N {
        let priority = rng.random();
        pq.push(node, priority);
        vec.push((node, priority));
    }
    assert_eq!(
        vec.iter().sorted_by(order_refs).collect_vec(),
        pq.as_slice().iter().sorted_by(order_refs).collect_vec()
    );
    for _ in 0..N / 2 {
        pq.pop();
        let argmin = vec
            .iter()
            .enumerate()
            .min_by(|x, y| order_pairs(x.1, y.1))
            .unwrap()
            .0;
        vec.remove(argmin);
    }
    assert_eq!(
        vec.iter().sorted_by(order_refs).collect_vec(),
        pq.as_slice().iter().sorted_by(order_refs).collect_vec()
    );
}

fn test_peek<P: PriorityQueue<usize, f64>>(mut pq: P) {
    pq.clear();
    assert_eq!(None, pq.peek());
    pq.push(1, 2.0);
    assert_eq!(Some(&(1, 2.0)), pq.peek());
    pq.push(2, 3.0);
    assert_eq!(Some(&(1, 2.0)), pq.peek());
    pq.push(3, 1.0);
    assert_eq!(Some(&(3, 1.0)), pq.peek());
    pq.pop();
    assert_eq!(Some(&(1, 2.0)), pq.peek());
    pq.pop();
    assert_eq!(Some(&(2, 3.0)), pq.peek());
    pq.pop();
    assert_eq!(None, pq.peek());
}

fn test_clear<P: PriorityQueue<usize, f64>>(mut pq: P) {
    pq.clear();
    assert!(pq.is_empty());
    for i in 0..10 {
        pq.push(i, 0f64);
        assert_eq!(i + 1, pq.len());
    }
    pq.clear();
    assert_eq!(0, pq.len());
    pq.clear();
    assert!(pq.is_empty());
}

fn test_push_pop<P: PriorityQueue<usize, f64>>(mut pq: P) {
    const N: usize = 3;
    const M: usize = 3;
    pq.clear();
    assert_eq!(0, pq.len());
    for i in 0..N {
        pq.push(i, i as f64);
    }
    assert_eq!(N, pq.len());
    for i in 0..M {
        pq.push(N + i, (N + M - i) as f64);
    }
    assert_eq!(N + M, pq.len());
    for i in 0..N {
        assert_eq!(i, pq.pop_node().unwrap());
    }
    assert_eq!(M, pq.len());
    for i in 0..M {
        assert_eq!(N + M - 1 - i, pq.pop_node().unwrap());
    }
    assert!(pq.is_empty());
}

fn test_push_pop_randomized<P: PriorityQueue<usize, f64>>(mut pq: P) {
    let mut rng = rand::rng();
    pq.clear();
    assert!(pq.is_empty());
    let mut vec = Vec::new();
    for node in 0..100 {
        let priority = rng.random();
        pq.push(node, priority);
        vec.push((node, priority));
    }
    assert_eq!(100, pq.len());
    let mut vec_popped60 = vec.into_iter().sorted_by(order_pairs).collect_vec();
    let mut vec_remaining40 = vec_popped60.split_off(60);
    assert_eq!(40, vec_remaining40.len());
    assert_eq!(60, vec_popped60.len());
    for vec_popped in vec_popped60 {
        let pq_popped = pq.pop();
        assert_eq!(Some(vec_popped), pq_popped);
    }
    assert_eq!(40, pq.len());
    for node in 100..125 {
        let priority = rng.random();
        pq.push(node, priority);
        vec_remaining40.push((node, priority));
    }
    let vec_remaining65 = vec_remaining40.into_iter().sorted_by(order_pairs).collect_vec();
    assert_eq!(65, vec_remaining65.len());
    assert_eq!(65, pq.len());
    for vec_popped in vec_remaining65 {
        let pq_popped = pq.pop();
        assert_eq!(Some(vec_popped), pq_popped);
    }
    assert!(pq.is_empty());
}

fn test_push_then_pop<P: PriorityQueue<usize, f64>>(mut pq: P) {
    pq.clear();
    assert_eq!(0, pq.len());
    let popped = pq.push_then_pop(0, 10.0);
    assert_eq!((0, 10.0), popped);
    pq.push(1, 20.0);
    let popped = pq.push_then_pop(0, 10.0);
    assert_eq!((0, 10.0), popped);
    pq.clear();
    pq.push(1, 5.0);
    let popped = pq.push_then_pop(0, 10.0);
    assert_eq!((1, 5.0), popped);
    assert_eq!(Some(&(0, 10.0)), pq.peek());
    pq.clear();
    for i in 1..10 {
        pq.push(i, 100.0 - i as f64);
    }
    let popped = pq.push_then_pop(0, 10.0);
    assert_eq!((0, 10.0), popped);
    let popped = pq.push_then_pop(0, 100.0);
    assert_ne!((0, 10.0), popped);
}

fn test_push_then_pop_randomized<P: PriorityQueue<usize, f64> + Clone>(mut pq: P) {
    const N: usize = 50;
    pq.clear();
    assert!(pq.is_empty());
    let mut rng = rand::rng();
    for node in 0..N {
        let priority = rng.random();
        pq.push(node, priority);
    }
    let mut pq_pll = pq.clone();
    for node in N..2 * N {
        let key = rng.random();
        pq_pll.push(node, key);
        let popped_pll = pq_pll.pop().unwrap();
        let popped = pq.push_then_pop(node, key);
        assert_eq!(popped_pll, popped);
    }
    assert_eq!(pq.len(), N);
    while let Some(popped) = pq.pop() {
        let popped_pll = pq_pll.pop().unwrap();
        assert_eq!(popped_pll, popped);
    }
    assert!(pq_pll.is_empty());
}

fn test_dary_for<const D: usize>() {
    let new_heap = DaryHeap::<usize, f64, D>::default;
    test_len(new_heap());
    test_is_empty(new_heap());
    test_as_slice(new_heap());
    test_peek(new_heap());
    test_clear(new_heap());
    test_push_pop(new_heap());
    test_push_pop_randomized(new_heap());
    test_push_then_pop(new_heap());
    test_push_then_pop_randomized(new_heap());
}

#[test]
fn daryheap_test_dary_forall() {
    test_dary_for::<2>();
    test_dary_for::<3>();
    test_dary_for::<4>();
    test_dary_for::<7>();
    test_dary_for::<8>();
    test_dary_for::<13>();
    test_dary_for::<16>();
}

fn new_heap_4() -> DaryHeap<usize, f64, 4> {
    DaryHeap::default()
}

#[test]
fn daryheap_4_len() {
    test_len(new_heap_4())
}

#[test]
fn daryheap_4_is_empty() {
    test_is_empty(new_heap_4())
}

#[test]
fn daryheap_4_peek() {
    test_peek(new_heap_4())
}

#[test]
fn daryheap_4_clear() {
    test_clear(new_heap_4())
}

#[test]
fn daryheap_4_push_pop() {
    test_push_pop(new_heap_4())
}

#[test]
fn daryheap_4_push_pop_randomized() {
    test_push_pop_randomized(new_heap_4())
}

#[test]
fn daryheap_4_push_then_pop() {
    test_push_then_pop(new_heap_4())
}

#[test]
fn daryheap_4_push_then_pop_randomized() {
    test_push_then_pop_randomized(new_heap_4())
}
