use rust_game_common::model::item::stack_list::{
    keep_marked, sort_by_key_stable, split_marked, take_first_marked,
};

#[test]
fn keep_marked_keeps_order_of_kept_items() {
    let items = vec!["a", "b", "c", "d"];
    let kept = keep_marked(items, &vec![true, false, false, true]);
    assert_eq!(kept, vec!["a", "d"]);
    let none: Vec<u8> = keep_marked(vec![1, 2], &vec![false, false]);
    assert!(none.is_empty());
}

#[test]
fn split_marked_partitions_in_order() {
    let (broken, kept) = split_marked(vec![10, 11, 12, 13, 14], &vec![false, true, false, true, true]);
    assert_eq!(broken, vec![11, 13, 14]);
    assert_eq!(kept, vec![10, 12]);
}

#[test]
fn take_first_marked_removes_only_the_first() {
    let mut items = vec!['x', 'y', 'y', 'z'];
    let taken = take_first_marked(&mut items, &vec![false, true, true, false]);
    assert_eq!(taken, Some('y'));
    assert_eq!(items, vec!['x', 'y', 'z']);
    let none = take_first_marked(&mut items, &vec![false, false, false]);
    assert_eq!(none, None);
    assert_eq!(items, vec!['x', 'y', 'z']);
}

#[test]
fn sort_by_key_stable_orders_by_key_then_position() {
    let items = vec!["high", "low-1", "mid", "low-2"];
    let keys = vec![100, 30, 75, 30];
    let sorted = sort_by_key_stable(items, &keys);
    assert_eq!(sorted, vec!["low-1", "low-2", "mid", "high"]);
    let empty: Vec<String> = sort_by_key_stable(Vec::new(), &Vec::new());
    assert!(empty.is_empty());
}
