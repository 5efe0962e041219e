use search::heap_index::HeapIndex;
use search::heap_primitives::index_first_children;
use search::heap_primitives::index_last_children;
use search::heap_primitives::index_parent;
use search::heap_primitives::size_of_cacheline_arity;
use search::intrusive_heap::IntrusiveHeap;
use search::intrusive_heap::KeyedNode;

// Keys 1..6 stand for the names "a".."f", ordered alike.
#[test]
fn heap_works() {
    let mut heap = IntrusiveHeap::<KeyedNode>::new();

    let n = KeyedNode::new(42);
    heap.push(n.clone());
    assert_eq!(heap.pop(), Some(n));
}

#[test]
fn heap_sorts() {
    let mut heap = IntrusiveHeap::<KeyedNode>::new();

    assert_eq!(heap.push(KeyedNode::new(3)), 0usize);
    assert_eq!(heap.push(KeyedNode::new(5)), 1usize);
    assert_eq!(heap.push(KeyedNode::new(6)), 2usize);
    assert_eq!(heap.push(KeyedNode::new(1)), 0usize);
    assert_eq!(heap.push(KeyedNode::new(4)), 4usize);
    assert_eq!(heap.push(KeyedNode::new(2)), 5usize);

    assert_eq!(heap.pop().unwrap().key, 1);
    assert_eq!(heap.pop().unwrap().key, 2);
    assert_eq!(heap.pop().unwrap().key, 3);
    assert_eq!(heap.pop().unwrap().key, 4);
    assert_eq!(heap.pop().unwrap().key, 5);
    assert_eq!(heap.pop().unwrap().key, 6);
}

#[test]
fn heap_keeps_indices_and_empties() {
    let mut heap = IntrusiveHeap::<KeyedNode>::with_capacity(4);
    assert!(heap.is_empty());
    for k in [9u64, 3, 7, 3, 1, 8, 2, 6, 5, 4, 0, 11] {
        heap.push(KeyedNode::new(k));
    }
    assert_eq!(heap.len(), 12);
    let mut out = vec![];
    while let Some(n) = heap.pop() {
        out.push(n.key);
    }
    assert_eq!(out, vec![0, 1, 2, 3, 3, 4, 5, 6, 7, 8, 9, 11]);
    assert!(heap.is_empty());
    assert_eq!(heap.pop(), None);
}

#[test]
fn binary_heap_index_moves() {
    assert_eq!(HeapIndex::from_usize(1).up().as_usize(), 0);
    assert_eq!(HeapIndex::from_usize(2).up().as_usize(), 0);
    assert_eq!(HeapIndex::from_usize(3).up().as_usize(), 1);
    assert_eq!(HeapIndex::from_usize(6).up().as_usize(), 2);
    assert_eq!(HeapIndex::from_usize(25).up().as_usize(), 12);
    assert_eq!(HeapIndex::from_usize(0).down_left().as_usize(), 1);
    assert_eq!(HeapIndex::from_usize(11).down_left().as_usize(), 23);
    assert_eq!(HeapIndex::from_usize(0).down_right().as_usize(), 2);
    assert_eq!(HeapIndex::from_usize(6).down_right().as_usize(), 14);
    assert!(HeapIndex::zero().is_zero());
    assert_eq!(HeapIndex::zero().next().as_usize(), 1);
}

#[test]
fn arity_index_arithmetic() {
    assert_eq!(index_parent::<2>(1), 0);
    assert_eq!(index_parent::<2>(6), 2);
    assert_eq!(index_parent::<2>(25), 12);
    assert_eq!(index_first_children::<2usize>(3), 7);
    assert_eq!(index_first_children::<2usize>(11), 23);
    assert_eq!(index_last_children::<2usize>(2), 6);
    assert_eq!(index_last_children::<2usize>(4), 10);
    assert_eq!(index_parent::<8>(9), 1);
    assert_eq!(index_first_children::<8usize>(1), 9);
    assert_eq!(index_last_children::<8usize>(1), 16);
}

#[test]
fn cacheline_arity() {
    assert_eq!(size_of_cacheline_arity::<u64>(), 16);
    assert_eq!(size_of_cacheline_arity::<u8>(), 128);
    assert_eq!(size_of_cacheline_arity::<[u8; 100]>(), 2);
}
