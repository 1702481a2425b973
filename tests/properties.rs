use orx_priority_queue::{
    BinaryHeap, BinaryHeapOfIndices, BinaryHeapWithMap, DaryHeap, DaryHeapOfIndices,
    DaryHeapWithMap, HasIndex, NodeKeyRef, PriorityQueue, PriorityQueueDecKey,
    QuaternaryHeap, QuaternaryHeapOfIndices, QuaternaryHeapWithMap, ResDecreaseKeyOrPush,
    ResTryDecreaseKey, ResTryDecreaseKeyOrPush, ResUpdateKey, ResUpdateKeyOrPush,
};

#[test]
fn plain_heap_peek_and_pop_scenario() {
    let mut pq = DaryHeap::<usize, f64, 4>::new();
    pq.push(0, 42.0);
    pq.push(1, 7.0);
    assert_eq!(Some(&(1, 7.0)), pq.peek());
    assert_eq!(Some((1, 7.0)), pq.pop());
    assert_eq!(Some((0, 42.0)), pq.pop());
    assert_eq!(None, pq.pop());
}

#[test]
fn indexed_heap_key_scenario() {
    let mut pq = BinaryHeapOfIndices::<usize, f64>::with_index_bound(12);
    pq.push(7, 42.0);
    assert_eq!(Some(42.0), pq.key_of(&7));
    pq.decrease_key(&7, 21.0);
    assert_eq!(Some(21.0), pq.key_of(&7));
    assert_eq!(ResTryDecreaseKey::Unchanged, pq.try_decrease_key(&7, 200.0));
    assert_eq!(Some(21.0), pq.key_of(&7));
    assert_eq!(12, pq.index_bound());
}

#[test]
fn push_then_pop_interleaving_scenario() {
    let mut pq = BinaryHeap::<usize, f64>::new();
    assert_eq!((3, 33.3), pq.push_then_pop(3, 33.3));
    assert!(pq.is_empty());
    pq.push(0, 12.0);
    pq.push(42, 1.0);
    pq.push(21, 5.0);
    assert_eq!(3, pq.len());
    assert_eq!((42, 1.0), pq.push_then_pop(100, 100.0));
    assert_eq!((21, 5.0), pq.push_then_pop(6, 6.0));
    assert_eq!((6, 6.0), pq.push_then_pop(13, 13.0));
    assert_eq!(3, pq.len());
    assert_eq!(Some((0, 12.0)), pq.pop());
    assert_eq!(Some((13, 13.0)), pq.pop());
    assert_eq!(Some((100, 100.0)), pq.pop());
    assert!(pq.is_empty());
}

#[test]
fn push_into_empty_then_pop_returns_pair() {
    let mut pq = QuaternaryHeapWithMap::<u32, i64>::new();
    pq.push(5, -3);
    assert_eq!(Some((5, -3)), pq.pop());
    assert!(pq.is_empty());
    assert!(!pq.contains(&5));
}

#[test]
fn push_then_pop_agrees_with_push_and_pop() {
    let mut pq = BinaryHeap::<usize, i64>::new();
    for (n, k) in [(1, 40), (2, 10), (3, 30), (4, 20)] {
        pq.push(n, k);
    }
    for (n, k) in [(5, 25), (6, 5), (7, 50)] {
        let mut copy = pq.clone();
        copy.push(n, k);
        let expected = copy.pop().unwrap();
        assert_eq!(expected, pq.push_then_pop(n, k));
    }
}

#[test]
fn push_then_pop_tie_returns_new_pair() {
    let mut pq = BinaryHeap::<usize, i64>::new();
    pq.push(1, 10);
    assert_eq!((2, 10), pq.push_then_pop(2, 10));
    assert_eq!(Some(&(1, 10)), pq.peek());
}

#[test]
fn decrease_key_to_same_key_keeps_contents() {
    let mut pq = QuaternaryHeapOfIndices::<usize, i64>::with_index_bound(10);
    for (n, k) in [(3, 30), (1, 10), (2, 20), (4, 40)] {
        pq.push(n, k);
    }
    let mut before: Vec<(usize, i64)> = pq.as_slice().to_vec();
    pq.decrease_key(&2, 20);
    let mut after: Vec<(usize, i64)> = pq.as_slice().to_vec();
    before.sort();
    after.sort();
    assert_eq!(before, after);
    assert_eq!(Some(20), pq.key_of(&2));
}

#[test]
fn clear_twice_is_clear_once() {
    let mut pq = BinaryHeapWithMap::<usize, i64>::default();
    pq.push(1, 1);
    pq.push(2, 2);
    pq.clear();
    assert!(pq.is_empty());
    assert!(!pq.contains(&1));
    pq.clear();
    assert!(pq.is_empty());
    pq.push(1, 7);
    assert_eq!(Some(7), pq.key_of(&1));
}

#[test]
fn clear_indexed_keeps_bound() {
    let mut pq = DaryHeapOfIndices::<usize, i64, 3>::with_index_bound(5);
    pq.push(4, 1);
    pq.push(0, 2);
    pq.clear();
    assert_eq!(5, pq.index_bound());
    assert_eq!(0, pq.len());
    assert_eq!(None, pq.key_of(&4));
    pq.push(4, 3);
    assert_eq!(Some((4, 3)), pq.pop());
}

#[test]
fn pop_and_peek_on_empty() {
    let mut pq = QuaternaryHeap::<usize, i64>::with_capacity(8);
    assert_eq!(None, pq.peek());
    assert_eq!(None, pq.pop());
    assert_eq!(None, pq.pop_node());
    assert_eq!(None, pq.pop_key());
    let mut ix = BinaryHeapOfIndices::<usize, i64>::with_index_bound(3);
    assert_eq!(None, ix.peek());
    assert_eq!(None, ix.pop());
}

#[test]
fn push_then_pop_on_empty_leaves_it_empty() {
    let mut pq = BinaryHeapOfIndices::<usize, i64>::with_index_bound(4);
    assert_eq!((2, 9), pq.push_then_pop(2, 9));
    assert!(pq.is_empty());
    assert!(!pq.contains(&2));
}

#[test]
fn indexed_push_at_last_index() {
    let mut pq = BinaryHeapOfIndices::<usize, i64>::with_index_bound(12);
    pq.push(11, 5);
    assert!(pq.contains(&11));
    assert_eq!(Some(5), pq.key_of(&11));
    assert!(!pq.contains(&12));
    assert_eq!(None, pq.key_of(&16));
}

#[test]
fn decrease_key_with_equal_key_succeeds() {
    let mut pq = BinaryHeapWithMap::<char, i64>::new();
    pq.push('a', 42);
    pq.decrease_key(&'a', 42);
    assert_eq!(Some(42), pq.key_of(&'a'));
}

#[test]
fn update_key_results() {
    let mut pq = BinaryHeapWithMap::<usize, f64>::default();
    pq.push(7, 42.0);
    assert_eq!(ResUpdateKey::Decreased, pq.update_key(&7, 21.0));
    assert_eq!(Some(21.0), pq.key_of(&7));
    assert_eq!(ResUpdateKey::Increased, pq.update_key(&7, 200.0));
    assert_eq!(Some(200.0), pq.key_of(&7));
    assert_eq!(ResUpdateKey::Increased, pq.update_key(&7, 200.0));
    assert_eq!(200.0, pq.remove(&7));
    assert!(pq.is_empty());
}

#[test]
fn or_push_results() {
    let mut pq = BinaryHeapOfIndices::<usize, f64>::with_index_bound(12);
    pq.push(7, 42.0);
    assert_eq!(ResDecreaseKeyOrPush::Decreased, pq.decrease_key_or_push(&7, 21.0));
    assert_eq!(ResDecreaseKeyOrPush::Pushed, pq.decrease_key_or_push(&0, 10.0));
    assert_eq!(Some(10.0), pq.key_of(&0));
    assert_eq!(ResUpdateKeyOrPush::Increased, pq.update_key_or_push(&7, 30.0));
    assert_eq!(ResUpdateKeyOrPush::Decreased, pq.update_key_or_push(&7, 3.0));
    assert_eq!(ResUpdateKeyOrPush::Pushed, pq.update_key_or_push(&1, 8.0));
    assert_eq!(ResTryDecreaseKeyOrPush::Unchanged, pq.try_decrease_key_or_push(&7, 50.0));
    assert_eq!(ResTryDecreaseKeyOrPush::Decreased, pq.try_decrease_key_or_push(&7, 1.0));
    assert_eq!(ResTryDecreaseKeyOrPush::Pushed, pq.try_decrease_key_or_push(&2, 2.0));
    assert_eq!(Some((7, 1.0)), pq.pop());
    assert_eq!(Some((2, 2.0)), pq.pop());
    assert_eq!(Some((1, 8.0)), pq.pop());
    assert_eq!(Some((0, 10.0)), pq.pop());
    assert_eq!(None, pq.pop());
}

#[test]
fn remove_then_order_kept() {
    let mut pq = DaryHeapWithMap::<u64, i64, 3>::with_capacity(16);
    for n in 0..16u64 {
        pq.push(n, ((n * 7) % 16) as i64);
    }
    assert_eq!(7, pq.remove(&1));
    assert_eq!(0, pq.remove(&0));
    let mut last = i64::MIN;
    let mut count = 0;
    while let Some(k) = pq.pop_key() {
        assert!(last <= k);
        last = k;
        count += 1;
    }
    assert_eq!(14, count);
}

#[test]
fn pops_in_non_decreasing_order_with_duplicates() {
    let mut pq = DaryHeap::<usize, i64, 5>::new();
    let keys = [5, 3, 9, 3, 1, 9, 0, 5, 5, 2, 8];
    for (i, k) in keys.iter().enumerate() {
        pq.push(i, *k);
    }
    let mut sorted = keys.to_vec();
    sorted.sort();
    let mut popped = vec![];
    while let Some((_, k)) = pq.pop() {
        popped.push(k);
    }
    assert_eq!(sorted, popped);
}

#[test]
fn branching_and_capacity() {
    assert_eq!(2, BinaryHeap::<usize, i64>::d());
    assert_eq!(4, QuaternaryHeapOfIndices::<usize, i64>::d());
    assert_eq!(7, DaryHeapWithMap::<usize, i64, 7>::d());
    let mut pq = DaryHeap::<usize, i64, 3>::with_capacity(10);
    assert!(pq.capacity() >= 10);
    for i in 0..20 {
        pq.push(i, i as i64);
    }
    assert!(pq.capacity() >= 20);
    let ix = DaryHeapOfIndices::<usize, i64, 2>::with_upper_limit(30);
    assert!(ix.capacity() >= 30);
    assert_eq!(30, ix.index_bound());
}

#[test]
fn node_key_refs() {
    let pair = (3usize, 4.5f64);
    let r = &pair;
    assert_eq!(&3, r.node());
    assert_eq!(&4.5, r.key());
    let split = (&pair.0, &pair.1);
    assert_eq!(&3, split.node());
    assert_eq!(&4.5, split.key());
}

#[test]
fn has_index_of_integers() {
    assert_eq!(9, 9usize.index());
    assert_eq!(9, 9u64.index());
    assert_eq!(9, 9u32.index());
    assert_eq!(9, 9u16.index());
    assert_eq!(9, 9u8.index());
    let mut pq = BinaryHeapOfIndices::<u8, i64>::with_index_bound(256);
    pq.push(255u8, 1);
    pq.push(3u8, 0);
    assert_eq!(Some((3u8, 0)), pq.pop());
    assert_eq!(Some(255u8), pq.pop_node());
}

#[test]
fn as_slice_holds_every_pair() {
    let mut pq = QuaternaryHeapWithMap::<&str, i64>::default();
    pq.push("x", 42);
    pq.push("y", 7);
    pq.push("z", 99);
    let slice = pq.as_slice();
    assert_eq!(3, slice.len());
    assert!(slice.contains(&("x", 42)));
    assert!(slice.contains(&("y", 7)));
    assert!(slice.contains(&("z", 99)));
    assert_eq!(("y", 7), slice[0]);
}

#[test]
fn result_conversions() {
    assert_eq!(
        ResUpdateKeyOrPush::Decreased,
        ResUpdateKeyOrPush::from(ResUpdateKey::Decreased)
    );
    assert_eq!(
        ResUpdateKeyOrPush::Increased,
        ResUpdateKeyOrPush::from(ResUpdateKey::Increased)
    );
    assert_eq!(
        ResTryDecreaseKeyOrPush::Decreased,
        ResTryDecreaseKeyOrPush::from(ResTryDecreaseKey::Decreased)
    );
    assert_eq!(
        ResTryDecreaseKeyOrPush::Unchanged,
        ResTryDecreaseKeyOrPush::from(ResTryDecreaseKey::Unchanged)
    );
}

#[test]
fn iter_yields_the_slice() {
    let mut pq = DaryHeapOfIndices::<usize, i64, 3>::with_index_bound(10);
    for (n, k) in [(4, 8), (2, 3), (9, 1), (0, 5)] {
        pq.push(n, k);
    }
    let from_iter: Vec<(usize, i64)> = pq.iter().cloned().collect();
    assert_eq!(pq.as_slice().to_vec(), from_iter);
    assert_eq!(4, from_iter.len());
    assert_eq!((9, 1), from_iter[0]);
}

#[test]
fn push_then_pop_on_empty_returns_any_element() {
    let mut pq = BinaryHeapOfIndices::<usize, i64>::with_index_bound(12);
    assert_eq!((16, 1), pq.push_then_pop(16, 1));
    assert!(pq.is_empty());
    assert_eq!(12, pq.index_bound());
}
