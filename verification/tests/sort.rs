use algorithms::sort::sort;

#[test]
fn test_sort_1() {
    let mut vec = vec![37, 73, 57, 75, 91, 19, 46, 64];
    sort(&mut vec);
    assert_eq!(vec, vec![19, 37, 46, 57, 64, 73, 75, 91]);
}

#[test]
fn test_sort_2() {
    let mut vec = vec![1];
    sort(&mut vec);
    assert_eq!(vec, vec![1]);
}

#[test]
fn test_sort_3() {
    let mut vec = vec![99, 88, 77, 66, 55, 44, 33, 22, 11];
    sort(&mut vec);
    assert_eq!(vec, vec![11, 22, 33, 44, 55, 66, 77, 88, 99]);
}

#[test]
fn sort_of_nothing() {
    let mut vec: Vec<i32> = vec![];
    sort(&mut vec);
    assert_eq!(vec, Vec::<i32>::new());
}

#[test]
fn sort_leaves_a_sorted_input_as_it_is() {
    let mut vec = vec![-3, -1, 0, 2, 2, 10];
    sort(&mut vec);
    assert_eq!(vec, vec![-3, -1, 0, 2, 2, 10]);
}

#[test]
fn sort_keeps_every_occurrence() {
    let mut vec = vec![5, 1, 5, 3, 1, 5];
    sort(&mut vec);
    assert_eq!(vec, vec![1, 1, 3, 5, 5, 5]);
}

#[test]
fn sort_of_two_exchanges_them() {
    let mut vec = vec![2, 1];
    sort(&mut vec);
    assert_eq!(vec, vec![1, 2]);
}

#[test]
fn sort_of_negative_and_extreme_values() {
    let mut vec = vec![i32::MAX, 0, i32::MIN, -7, 7];
    sort(&mut vec);
    assert_eq!(vec, vec![i32::MIN, -7, 0, 7, i32::MAX]);
}

#[test]
fn sort_of_strings() {
    let mut vec = vec!["pear".to_string(), "apple".to_string(), "fig".to_string()];
    sort(&mut vec);
    assert_eq!(vec, vec!["apple".to_string(), "fig".to_string(), "pear".to_string()]);
}

#[test]
fn sort_of_a_part_of_a_vector() {
    let mut vec = vec![9, 8, 7, 6, 5];
    sort(&mut vec[1..4]);
    assert_eq!(vec, vec![9, 6, 7, 8, 5]);
}

#[test]
fn sort_is_stable() {
    let mut vec = vec![(2, 'a'), (1, 'b'), (2, 'c'), (1, 'd')];
    let mut keys: Vec<ByKey> = vec.drain(..).map(|(key, tag)| ByKey { key, tag }).collect();
    sort(&mut keys);
    let tags: Vec<(i32, char)> = keys.iter().map(|item| (item.key, item.tag)).collect();
    assert_eq!(tags, vec![(1, 'b'), (1, 'd'), (2, 'a'), (2, 'c')]);
}

/// A value that is ordered by its key alone.
#[derive(Debug, Clone, Copy)]
struct ByKey {
    key: i32,
    tag: char,
}

impl PartialEq for ByKey {
    fn eq(&self, other: &Self) -> bool {
        self.key == other.key
    }
}

impl PartialOrd for ByKey {
    fn partial_cmp(&self, other: &Self) -> Option<std::cmp::Ordering> {
        self.key.partial_cmp(&other.key)
    }
}
