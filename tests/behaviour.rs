use mheap::tree::{better_to_rebuild, child, nchildren, parent, rebuild_range};
use mheap::{IndexableHeap, MaxHeap, MinHeap, VecHeap};

fn drain_vec<O: mheap::ordering::Ordering<i32>>(heap: &mut VecHeap<i32, O>) -> Vec<i32> {
    let mut out = Vec::new();
    while let Some(x) = heap.pop() {
        out.push(x);
    }
    out
}

#[test]
fn pops_come_out_sorted_with_duplicates() {
    let input = vec![5, 1, 5, 3, 1, 9, -2, 3];
    let mut heap = VecHeap::<i32, MaxHeap>::new();
    for x in &input {
        heap.push(*x);
    }
    let mut expected = input.clone();
    expected.sort();
    expected.reverse();
    assert_eq!(drain_vec(&mut heap), expected);

    let mut heap = VecHeap::<i32, MinHeap>::new();
    for x in input.iter().rev() {
        heap.push(*x);
    }
    let mut expected = input.clone();
    expected.sort();
    assert_eq!(drain_vec(&mut heap), expected);
}

#[test]
fn empty_heaps() {
    let mut heap = VecHeap::<i32, MaxHeap>::new();
    assert!(heap.is_empty());
    assert_eq!(heap.len(), 0);
    assert_eq!(heap.peek(), None);
    assert_eq!(heap.pop(), None);
    assert!(heap.peek_mut().is_none());

    let mut heap = IndexableHeap::<i32, MinHeap>::new();
    assert!(heap.is_empty());
    assert_eq!(heap.peek(), None);
    assert_eq!(heap.pop(), None);
    assert!(heap.peek_mut().is_none());
}

#[test]
fn single_element() {
    let mut heap = VecHeap::<i32, MinHeap>::with_capacity(4);
    heap.push(7);
    assert_eq!(heap.peek(), Some(&7));
    assert_eq!(heap.len(), 1);
    assert_eq!(heap.pop(), Some(7));
    assert!(heap.is_empty());
}

#[test]
fn capacity_management_keeps_elements() {
    let mut heap = VecHeap::<i32, MaxHeap>::with_capacity_and_ordering(2, MaxHeap::natural());
    heap.reserve(100);
    assert!(heap.capacity() >= 100);
    heap.push(4);
    heap.push(9);
    heap.reserve_exact(50);
    assert!(heap.capacity() >= 52);
    heap.shrink_to(10);
    assert!(heap.capacity() >= 10);
    heap.shrink_to_fit();
    assert!(heap.capacity() >= 2);
    assert_eq!(drain_vec(&mut heap), vec![9, 4]);

    let mut heap = IndexableHeap::<i32, MinHeap>::with_capacity(3);
    heap.reserve(20);
    assert!(heap.capacity() >= 20);
    heap.push(2);
    heap.push(1);
    heap.reserve_exact(5);
    heap.shrink_to(4);
    heap.shrink_to_fit();
    assert!(heap.capacity() >= 2);
    assert_eq!(heap.pop(), Some(1));
    assert_eq!(heap.pop(), Some(2));
}

#[test]
fn append_merges_both_heaps() {
    let mut a = VecHeap::<i32, MaxHeap>::new();
    a.push(1);
    a.push(2);
    a.push(3);
    let mut b = VecHeap::<i32, MaxHeap>::new();
    b.push(4);
    b.push(5);
    a.append(&mut b);
    assert_eq!(a.len(), 5);
    assert!(b.is_empty());
    assert_eq!(drain_vec(&mut a), vec![5, 4, 3, 2, 1]);

    let mut small = VecHeap::<i32, MinHeap>::new();
    small.push(10);
    let mut big = VecHeap::<i32, MinHeap>::new();
    for x in [8, 3, 12, 1, 7, 30, 2] {
        big.push(x);
    }
    small.append(&mut big);
    assert!(big.is_empty());
    assert_eq!(drain_vec(&mut small), vec![1, 2, 3, 7, 8, 10, 12, 30]);
}

#[test]
fn peek_mut_reorders_on_restore() {
    let mut heap = VecHeap::<i32, MaxHeap>::new();
    heap.push(3);
    heap.push(1);
    heap.push(5);
    let mut top = heap.peek_mut().unwrap();
    assert_eq!(*top.as_ref(), 5);
    *top.as_mut() = 0;
    assert!(top.restore());
    assert_eq!(heap.peek(), Some(&3));

    let top = heap.peek_mut().unwrap();
    assert_eq!(top.pop(), 3);
    assert_eq!(heap.len(), 2);
    assert_eq!(drain_vec(&mut heap), vec![1, 0]);
}

#[test]
fn untouched_guard_changes_nothing() {
    let mut heap = IndexableHeap::<i32, MinHeap>::new();
    let mut handles = Vec::new();
    for x in [9, 4, 7, 1, 8] {
        handles.push(heap.push(x));
    }
    let guard = heap.by_index_mut(handles[2]);
    assert_eq!(*guard.as_ref(), 7);
    assert!(!guard.restore());
    let guard = heap.by_index_mut(handles[0]);
    drop(guard);
    let top = heap.peek_mut().unwrap();
    assert_eq!(*top.as_ref(), 1);
    assert_eq!(top.index(), handles[3]);
    assert!(!top.restore());
    for (h, x) in handles.iter().zip([9, 4, 7, 1, 8]) {
        assert_eq!(*heap.by_index(*h), x);
    }
    let mut out = Vec::new();
    while let Some(x) = heap.pop() {
        out.push(x);
    }
    assert_eq!(out, vec![1, 4, 7, 8, 9]);
}

#[test]
fn handles_follow_their_elements() {
    let mut heap = IndexableHeap::<i32, MaxHeap>::new();
    let kept = heap.push(40);
    let mut others = Vec::new();
    for x in [10, 90, 20, 80, 30, 70] {
        others.push(heap.push(x));
    }
    assert_eq!(heap.pop(), Some(90));
    assert_eq!(heap.pop(), Some(80));
    assert_eq!(*heap.by_index(kept), 40);
    heap.push(100);
    heap.push(5);
    assert_eq!(*heap.by_index(kept), 40);
    assert_eq!(*heap.by_index(others[0]), 10);
    assert_eq!(*heap.by_index(others[5]), 70);

    let mut entry = heap.by_index_mut(kept);
    *entry.as_mut() = 95;
    entry.restore();
    assert_eq!(*heap.by_index(kept), 95);
    assert_eq!(heap.pop(), Some(100));
    assert_eq!(*heap.by_index(kept), 95);
    assert_eq!(heap.pop(), Some(95));
}

#[test]
fn remove_by_handle_then_pop_the_rest() {
    let mut heap = IndexableHeap::<i32, MinHeap>::new();
    let mut handles = Vec::new();
    for x in [6, 2, 9, 4, 4, 11, 0] {
        handles.push(heap.push(x));
    }
    let removed = heap.by_index_mut(handles[3]).remove();
    assert_eq!(removed, 4);
    assert_eq!(heap.len(), 6);
    let last = heap.by_index_mut(handles[6]).remove();
    assert_eq!(last, 0);
    let mut out = Vec::new();
    while let Some(x) = heap.pop() {
        out.push(x);
    }
    assert_eq!(out, vec![2, 4, 6, 9, 11]);
}

#[test]
fn removed_handles_are_reused() {
    let mut heap = IndexableHeap::<i32, MaxHeap>::new();
    heap.push(1000);
    let k = 6;
    let mut first = Vec::new();
    for x in 0..k {
        first.push(heap.push(x));
    }
    for i in [3, 0, 5, 1, 4, 2] {
        let gone = heap.by_index_mut(first[i]).remove();
        assert_eq!(gone, i as i32);
    }
    assert_eq!(heap.len(), 1);
    let mut again = Vec::new();
    for x in 0..k {
        again.push(heap.push(x + 10));
    }
    for h in &again {
        assert!(first.contains(h));
    }
    for h in &first {
        assert!(again.contains(h));
    }
}

#[test]
fn equal_siblings_prefer_the_first() {
    let mut heap = VecHeap::with_ordering(MaxHeap::by_key(|x: &(i32, i32)| x.0));
    heap.push((5, 0));
    heap.push((3, 1));
    heap.push((3, 2));
    let mut top = heap.peek_mut().unwrap();
    *top.as_mut() = (1, 0);
    top.restore();
    assert_eq!(heap.peek(), Some(&(3, 1)));
}

#[test]
fn comparison_and_key_orderings() {
    let mut heap = VecHeap::with_ordering(MaxHeap::by(|a: &i32, b: &i32| a.abs().cmp(&b.abs())));
    heap.push(3);
    heap.push(1);
    heap.push(-5);
    assert_eq!(heap.pop(), Some(-5));
    assert_eq!(heap.pop(), Some(3));
    assert_eq!(heap.pop(), Some(1));

    let mut heap = VecHeap::with_ordering(MinHeap::by(|a: &i32, b: &i32| a.abs().cmp(&b.abs())));
    heap.push(-3);
    heap.push(1);
    heap.push(5);
    assert_eq!(heap.pop(), Some(1));
    assert_eq!(heap.pop(), Some(-3));

    let mut heap = IndexableHeap::with_ordering(MinHeap::by_key(|item: &(&str, i32)| item.1));
    heap.push(("low", 1));
    heap.push(("high", 10));
    heap.push(("medium", 5));
    assert_eq!(heap.pop(), Some(("low", 1)));
    assert_eq!(heap.pop(), Some(("medium", 5)));
    assert_eq!(heap.pop(), Some(("high", 10)));

    let mut heap = IndexableHeap::with_capacity_and_ordering(3, MaxHeap::by_key(|item: &(&str, i32)| item.1));
    heap.push(("low", 1));
    heap.push(("high", 10));
    assert_eq!(heap.pop(), Some(("high", 10)));
}

#[test]
fn tree_navigation() {
    let six = [0u8; 6];
    assert_eq!(parent(six.as_slice(), 0), None);
    assert_eq!(parent(six.as_slice(), 5), Some(2));
    assert_eq!(parent(six.as_slice(), 4), Some(1));
    assert_eq!(child(six.as_slice(), 2, 0), Some(5));
    assert_eq!(child(six.as_slice(), 2, 1), None);
    assert_eq!(nchildren(six.as_slice(), 2), 1);
    assert_eq!(nchildren(six.as_slice(), 3), 0);
    assert_eq!(rebuild_range(six.as_slice()), 0..3);
}

#[test]
fn rebuild_heuristic() {
    // a tail at least as long as the heap it joins: always rebuild
    assert!(better_to_rebuild([0u8; 10].as_slice(), 5));
    assert!(better_to_rebuild([0u8; 10].as_slice(), 0));
    // 2 * 100 < 10 * log2(90) = 60 is false
    assert!(!better_to_rebuild([0u8; 100].as_slice(), 90));
    // 2 * 64 < 30 * log2(34) = 150 is true
    assert!(better_to_rebuild([0u8; 64].as_slice(), 34));
    // large heaps: 2 * 3000 < 100 * 11 is false, 2 * 3000 < 1000 * 11 is true
    assert!(!better_to_rebuild(vec![0u8; 3000].as_slice(), 2900));
    assert!(better_to_rebuild(vec![0u8; 3000].as_slice(), 2000));
}

#[test]
fn append_of_equal_halves_rebuilds() {
    let mut a = VecHeap::<i32, MinHeap>::new();
    a.push(8);
    a.push(6);
    let mut b = VecHeap::<i32, MinHeap>::new();
    b.push(1);
    b.push(9);
    a.append(&mut b);
    assert!(b.is_empty());
    assert_eq!(drain_vec(&mut a), vec![1, 6, 8, 9]);
}

#[test]
fn indexable_peek_mut_pop_frees_the_handle() {
    let mut heap = IndexableHeap::<i32, MaxHeap>::new();
    let low = heap.push(2);
    let high = heap.push(50);
    heap.push(20);
    let top = heap.peek_mut().unwrap();
    assert_eq!(top.index(), high);
    assert_eq!(top.pop(), 50);
    assert_eq!(heap.len(), 2);
    assert_eq!(*heap.by_index(low), 2);
    let reused = heap.push(7);
    assert_eq!(reused, high);
    let mut top = heap.peek_mut().unwrap();
    *top.as_mut() = 1;
    assert!(top.restore());
    assert_eq!(heap.pop(), Some(7));
    assert_eq!(heap.pop(), Some(2));
    assert_eq!(heap.pop(), Some(1));
}

#[test]
fn removing_the_last_slot_moves_nothing() {
    let mut heap = IndexableHeap::<i32, MinHeap>::new();
    let a = heap.push(1);
    let b = heap.push(5);
    let c = heap.push(3);
    assert_eq!(heap.handle_table_len(), 3);
    assert_eq!(heap.by_index_mut(c).remove(), 3);
    assert_eq!(heap.handle_table_len(), 2);
    assert_eq!(*heap.by_index(a), 1);
    assert_eq!(*heap.by_index(b), 5);
    let mut g = heap.by_index_mut(b);
    *g.as_mut() = 7;
    assert!(!g.restore());
    let mut g = heap.by_index_mut(b);
    *g.as_mut() = 0;
    assert!(g.restore());
    assert_eq!(heap.peek(), Some(&0));
}
