use algorithms::heap::{Heap, MaxHeap, MinHeap, Priority};

#[test]
fn test_empty_heap() {
    let mut heap = MaxHeap::new::<i32>();
    assert_eq!(heap.next(), None);
}

#[test]
fn test_min_heap() {
    let mut heap = MinHeap::new();
    heap.add(4);
    heap.add(2);
    heap.add(9);
    heap.add(11);
    assert_eq!(heap.len(), 4);
    assert_eq!(heap.next(), Some(2));
    assert_eq!(heap.next(), Some(4));
    assert_eq!(heap.next(), Some(9));
    heap.add(1);
    assert_eq!(heap.next(), Some(1));
}

#[test]
fn test_max_heap() {
    let mut heap = MaxHeap::new();
    heap.add(4);
    heap.add(2);
    heap.add(9);
    heap.add(11);
    assert_eq!(heap.len(), 4);
    assert_eq!(heap.next(), Some(11));
    assert_eq!(heap.next(), Some(9));
    assert_eq!(heap.next(), Some(4));
    heap.add(1);
    assert_eq!(heap.next(), Some(2));
}

fn drain(heap: &mut Heap<i32>) -> Vec<i32> {
    let mut out = vec![];
    while let Some(value) = heap.next() {
        out.push(value);
    }
    out
}

#[test]
fn new_heap_is_empty() {
    let heap = Heap::<i32>::new(Priority::Min);
    assert!(heap.is_empty());
    assert_eq!(heap.len(), 0);
}

#[test]
fn length_counts_the_insertions() {
    let mut heap = Heap::<i32>::new_min();
    for k in 0..20 {
        assert_eq!(heap.len(), k);
        heap.add(100 - k as i32);
    }
    assert_eq!(heap.len(), 20);
    assert!(!heap.is_empty());
}

#[test]
fn length_goes_down_with_each_extraction() {
    let mut heap = Heap::<i32>::new_max();
    heap.add(3);
    heap.add(8);
    assert_eq!(heap.next(), Some(8));
    assert_eq!(heap.len(), 1);
    assert_eq!(heap.next(), Some(3));
    assert_eq!(heap.len(), 0);
    assert!(heap.is_empty());
}

#[test]
fn min_heap_gives_a_rising_sequence() {
    let mut heap = Heap::new_min();
    for value in [37, 73, 57, 75, 91, 19, 46, 64, 19, 0, -5] {
        heap.add(value);
    }
    assert_eq!(drain(&mut heap), vec![-5, 0, 19, 19, 37, 46, 57, 64, 73, 75, 91]);
}

#[test]
fn max_heap_gives_a_falling_sequence() {
    let mut heap = Heap::new_max();
    for value in [37, 73, 57, 75, 91, 19, 46, 64, 19, 0, -5] {
        heap.add(value);
    }
    assert_eq!(drain(&mut heap), vec![91, 75, 73, 64, 57, 46, 37, 19, 19, 0, -5]);
}

#[test]
fn heap_made_with_a_priority() {
    let mut smallest_first = Heap::new(Priority::Min);
    let mut greatest_first = Heap::new(Priority::Max);
    for value in [5, 1, 3] {
        smallest_first.add(value);
        greatest_first.add(value);
    }
    assert_eq!(drain(&mut smallest_first), vec![1, 3, 5]);
    assert_eq!(drain(&mut greatest_first), vec![5, 3, 1]);
}

#[test]
fn exhausted_heap_stays_exhausted_until_something_is_added() {
    let mut heap = MinHeap::new();
    heap.add(1);
    assert_eq!(heap.next(), Some(1));
    assert_eq!(heap.next(), None);
    assert_eq!(heap.next(), None);
    assert_eq!(heap.len(), 0);
    heap.add(7);
    assert_eq!(heap.next(), Some(7));
    assert_eq!(heap.next(), None);
}

#[test]
fn additions_between_extractions() {
    let mut heap = MinHeap::new();
    heap.add(5);
    heap.add(3);
    assert_eq!(heap.next(), Some(3));
    heap.add(4);
    heap.add(1);
    assert_eq!(heap.next(), Some(1));
    assert_eq!(heap.next(), Some(4));
    heap.add(9);
    assert_eq!(heap.next(), Some(5));
    assert_eq!(heap.next(), Some(9));
    assert_eq!(heap.next(), None);
}

#[test]
fn equal_elements_all_come_out() {
    let mut heap = MaxHeap::new();
    for _ in 0..5 {
        heap.add(2);
    }
    assert_eq!(drain(&mut heap), vec![2, 2, 2, 2, 2]);
}

#[test]
fn heap_orders_many_elements() {
    let mut heap = MinHeap::new();
    let mut expected = vec![];
    let mut value: i32 = 12345;
    for _ in 0..500 {
        value = (value.wrapping_mul(1103515245).wrapping_add(12345)) % 1000;
        heap.add(value);
        expected.push(value);
    }
    expected.sort();
    assert_eq!(drain(&mut heap), expected);
}

#[test]
fn heap_of_strings() {
    let mut heap = MinHeap::new();
    heap.add("pear".to_string());
    heap.add("apple".to_string());
    heap.add("fig".to_string());
    assert_eq!(heap.next(), Some("apple".to_string()));
    assert_eq!(heap.next(), Some("fig".to_string()));
    assert_eq!(heap.next(), Some("pear".to_string()));
    assert_eq!(heap.next(), None);
}

/// A value that is ordered by its key alone.
#[derive(Debug, Clone, Copy, Default)]
struct Keyed {
    key: i32,
    tag: char,
}

impl PartialEq for Keyed {
    fn eq(&self, other: &Self) -> bool {
        self.key == other.key
    }
}

impl PartialOrd for Keyed {
    fn partial_cmp(&self, other: &Self) -> Option<std::cmp::Ordering> {
        self.key.partial_cmp(&other.key)
    }
}

#[test]
fn heap_orders_values_that_tie_without_being_equal() {
    let mut heap = Heap::new(Priority::Min);
    for (key, tag) in [(2, 'a'), (1, 'b'), (2, 'c'), (1, 'd'), (0, 'e')] {
        heap.add(Keyed { key, tag });
    }
    assert_eq!(heap.len(), 5);
    let mut keys = vec![];
    let mut tags = vec![];
    while let Some(item) = heap.next() {
        keys.push(item.key);
        tags.push(item.tag);
    }
    assert_eq!(keys, vec![0, 1, 1, 2, 2]);
    tags.sort();
    assert_eq!(tags, vec!['a', 'b', 'c', 'd', 'e']);
}
