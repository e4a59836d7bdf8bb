use codecrafters_redis::list::{List, ListNode};

#[test]
fn list_node_holds_its_value() {
    assert_eq!(ListNode::new("a".to_string()).val, "a");
}

#[test]
fn pushes_and_pops_at_both_ends() {
    let mut list = List::new();
    assert_eq!(list.count(), 0);
    list.push_back("b".to_string());
    list.push_back("c".to_string());
    list.push_front("a".to_string());
    assert_eq!(list.count(), 3);
    assert_eq!(list.range(0, 10), vec!["a", "b", "c"]);
    assert_eq!(list.pop_back().unwrap().val, "c");
    assert_eq!(list.pop_front().unwrap().val, "a");
    assert_eq!(list.count(), 1);
    assert_eq!(list.pop_back().unwrap().val, "b");
    assert!(list.pop_back().is_none());
    assert!(list.pop_front().is_none());
    assert_eq!(list.count(), 0);
}

#[test]
fn push_then_pop_gives_the_value_back() {
    let mut list = List::new();
    list.push_back("x".to_string());
    list.push_back("y".to_string());
    assert_eq!(list.pop_back().unwrap().val, "y");
    assert_eq!(list.range(0, 5), vec!["x"]);
    list.push_front("w".to_string());
    assert_eq!(list.pop_front().unwrap().val, "w");
    assert_eq!(list.range(0, 5), vec!["x"]);
}

#[test]
fn range_is_inclusive_and_clipped() {
    let mut list = List::new();
    for v in ["a", "b", "c", "d", "e"] {
        list.push_back(v.to_string());
    }
    assert_eq!(list.range(1, 3), vec!["b", "c", "d"]);
    assert_eq!(list.range(0, 0), vec!["a"]);
    assert_eq!(list.range(3, 1), Vec::<String>::new());
    assert_eq!(list.range(4, usize::MAX), vec!["e"]);
    assert_eq!(list.range(5, 9), Vec::<String>::new());
}
