use algorithms::linked_list::LinkedList;
use std::cmp::Ordering;

/// The values of a list, separated by ", ".
fn render<T: std::fmt::Display>(list: &mut LinkedList<T>) -> String {
    let mut text = String::new();
    let mut index = 0;
    while let Some(value) = list.get(index) {
        if index > 0 {
            text.push_str(", ");
        }
        text.push_str(&format!("{}", value));
        index += 1;
    }
    text
}

fn list_of(values: &[i32]) -> LinkedList<i32> {
    let mut list = LinkedList::<i32>::new();
    for value in values {
        list.add(*value);
    }
    list
}

fn contents(list: &mut LinkedList<i32>) -> Vec<i32> {
    let mut values = vec![];
    let mut index = 0;
    while let Some(value) = list.get(index) {
        values.push(*value);
        index += 1;
    }
    values
}

#[test]
fn create_numeric_list() {
    let mut list = LinkedList::<i32>::new();
    list.add(1);
    list.add(2);
    list.add(3);
    println!("Linked List is {}", render(&mut list));
    assert_eq!(3, list.length);
}

#[test]
fn create_string_list() {
    let mut list_str = LinkedList::<String>::new();
    list_str.add("A".to_string());
    list_str.add("B".to_string());
    list_str.add("C".to_string());
    println!("Linked List is {}", render(&mut list_str));
    assert_eq!(3, list_str.length);
}

#[test]
fn test_merge_linked_list_1() {
    let mut list_a = LinkedList::<i32>::new();
    let mut list_b = LinkedList::<i32>::new();
    let vec_a = vec![1, 3, 5, 7];
    let vec_b = vec![2, 4, 6, 8];
    let target_vec = vec![1, 2, 3, 4, 5, 6, 7, 8];

    for i in 0..vec_a.len() {
        list_a.add(vec_a[i]);
    }
    for i in 0..vec_b.len() {
        list_b.add(vec_b[i]);
    }
    println!("list a {} list b {}", render(&mut list_a), render(&mut list_b));
    let mut list_c = LinkedList::<i32>::merge(list_a, list_b);
    println!("merged List is {}", render(&mut list_c));
    for i in 0..target_vec.len() {
        assert_eq!(target_vec[i], *list_c.get(i as i32).unwrap());
    }
}

#[test]
fn test_merge_linked_list_2() {
    let mut list_a = LinkedList::<i32>::new();
    let mut list_b = LinkedList::<i32>::new();
    let vec_a = vec![11, 33, 44, 88, 89, 90, 100];
    let vec_b = vec![1, 22, 30, 45];
    let target_vec = vec![1, 11, 22, 30, 33, 44, 45, 88, 89, 90, 100];

    for i in 0..vec_a.len() {
        list_a.add(vec_a[i]);
    }
    for i in 0..vec_b.len() {
        list_b.add(vec_b[i]);
    }
    println!("list a {} list b {}", render(&mut list_a), render(&mut list_b));
    let mut list_c = LinkedList::<i32>::merge(list_a, list_b);
    println!("merged List is {}", render(&mut list_c));
    for i in 0..target_vec.len() {
        assert_eq!(target_vec[i], *list_c.get(i as i32).unwrap());
    }
}

#[test]
fn new_list_is_empty() {
    let mut list = LinkedList::<i32>::new();
    assert_eq!(0, list.length);
    assert_eq!(None, list.get(0));
}

#[test]
fn default_list_is_empty() {
    let mut list: LinkedList<i32> = Default::default();
    assert_eq!(0, list.length);
    assert_eq!(None, list.get(0));
}

#[test]
fn get_follows_the_order_of_appending() {
    let mut list = list_of(&[7, 5, 9]);
    assert_eq!(Some(&7), list.get(0));
    assert_eq!(Some(&5), list.get(1));
    assert_eq!(Some(&9), list.get(2));
}

#[test]
fn get_out_of_range_is_none() {
    let mut list = list_of(&[7, 5, 9]);
    assert_eq!(None, list.get(3));
    assert_eq!(None, list.get(100));
    assert_eq!(None, list.get(i32::MAX));
}

#[test]
fn get_negative_is_none() {
    let mut list = list_of(&[7, 5, 9]);
    assert_eq!(None, list.get(-1));
    assert_eq!(None, list.get(i32::MIN));
}

#[test]
fn merge_of_two_empty_lists_is_empty() {
    let list_a = LinkedList::<i32>::new();
    let list_b = LinkedList::<i32>::new();
    let mut list_c = LinkedList::merge(list_a, list_b);
    assert_eq!(0, list_c.length);
    assert_eq!(None, list_c.get(0));
}

#[test]
fn merge_with_an_empty_second_list() {
    let mut list_c = LinkedList::merge(list_of(&[1, 2, 3]), list_of(&[]));
    assert_eq!(3, list_c.length);
    assert_eq!(vec![1, 2, 3], contents(&mut list_c));
    assert_eq!(None, list_c.get(3));
}

#[test]
fn merge_with_an_empty_first_list() {
    let mut list_c = LinkedList::merge(list_of(&[]), list_of(&[4, 5]));
    assert_eq!(2, list_c.length);
    assert_eq!(vec![4, 5], contents(&mut list_c));
    assert_eq!(None, list_c.get(2));
}

#[test]
fn merge_of_single_values() {
    let mut list_c = LinkedList::merge(list_of(&[2]), list_of(&[1]));
    assert_eq!(vec![1, 2], contents(&mut list_c));
}

#[test]
fn merge_counts_the_nodes_of_both() {
    let list_c = LinkedList::merge(list_of(&[1, 4, 9]), list_of(&[2, 3, 5, 6, 7]));
    assert_eq!(8, list_c.length);
}

#[test]
fn merge_links_the_rest_of_the_longer_list() {
    let mut list_c = LinkedList::merge(list_of(&[1, 2]), list_of(&[3, 4, 5, 6]));
    assert_eq!(vec![1, 2, 3, 4, 5, 6], contents(&mut list_c));
    let mut list_d = LinkedList::merge(list_of(&[3, 4, 5, 6]), list_of(&[1, 2]));
    assert_eq!(vec![1, 2, 3, 4, 5, 6], contents(&mut list_d));
}

#[test]
fn merge_keeps_values_that_occur_in_both() {
    let mut list_c = LinkedList::merge(list_of(&[1, 2, 2, 5]), list_of(&[2, 5, 5]));
    assert_eq!(vec![1, 2, 2, 2, 5, 5, 5], contents(&mut list_c));
}

#[test]
fn merged_list_can_grow_and_merge_again() {
    let mut list_c = LinkedList::merge(list_of(&[1, 5]), list_of(&[2, 3]));
    list_c.add(8);
    assert_eq!(5, list_c.length);
    assert_eq!(vec![1, 2, 3, 5, 8], contents(&mut list_c));
    let mut list_d = LinkedList::merge(list_of(&[0, 4, 9]), list_c);
    assert_eq!(8, list_d.length);
    assert_eq!(vec![0, 1, 2, 3, 4, 5, 8, 9], contents(&mut list_d));
}

/// A value that is ordered by its key alone.
#[derive(Debug, Clone, Copy)]
struct Tagged {
    key: i32,
    tag: char,
}

impl PartialEq for Tagged {
    fn eq(&self, other: &Self) -> bool {
        self.key == other.key
    }
}

impl PartialOrd for Tagged {
    fn partial_cmp(&self, other: &Self) -> Option<Ordering> {
        self.key.partial_cmp(&other.key)
    }
}

#[test]
fn merge_takes_the_first_list_first_on_a_tie() {
    let mut list_a = LinkedList::<Tagged>::new();
    list_a.add(Tagged { key: 1, tag: 'a' });
    list_a.add(Tagged { key: 2, tag: 'a' });
    let mut list_b = LinkedList::<Tagged>::new();
    list_b.add(Tagged { key: 1, tag: 'b' });
    list_b.add(Tagged { key: 2, tag: 'b' });
    let mut list_c = LinkedList::merge(list_a, list_b);
    let mut tags = vec![];
    let mut index = 0;
    while let Some(value) = list_c.get(index) {
        tags.push((value.key, value.tag));
        index += 1;
    }
    assert_eq!(vec![(1, 'a'), (1, 'b'), (2, 'a'), (2, 'b')], tags);
}

#[test]
fn empty_lists_have_no_ends() {
    let list = LinkedList::<i32>::new();
    assert_eq!(None, list.start);
    assert_eq!(None, list.end);
    let merged = LinkedList::merge(LinkedList::<i32>::new(), LinkedList::<i32>::new());
    assert_eq!(None, merged.start);
    assert_eq!(None, merged.end);
}

#[test]
fn end_is_the_node_with_the_last_value() {
    let list_c = LinkedList::merge(list_of(&[1, 9]), list_of(&[2, 3]));
    let first = list_c.start.unwrap();
    let last = list_c.end.unwrap();
    assert_eq!(1, list_c.nodes[first].val);
    assert_eq!(9, list_c.nodes[last].val);
    assert_eq!(None, list_c.nodes[last].next);
    let list_d = LinkedList::merge(list_of(&[1, 2]), list_of(&[5, 7]));
    assert_eq!(7, list_d.nodes[list_d.end.unwrap()].val);
}
