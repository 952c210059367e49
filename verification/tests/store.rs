use todo_store::store::{TodoError, TodoStore};

#[test]
fn new_store_is_empty() {
    let s = TodoStore::new();
    assert_eq!(s.list().len(), 0);
}

#[test]
fn add_then_list() {
    let mut s = TodoStore::new();
    assert!(s.add(String::from("buy milk")).is_ok());
    assert!(s.add(String::from("pay rent")).is_ok());
    let items = s.list();
    assert_eq!(items.len(), 2);
    assert_eq!(items[0], (String::from("buy milk"), false));
    assert_eq!(items[1], (String::from("pay rent"), false));
}

#[test]
fn add_twice_keeps_one_entry() {
    let mut s = TodoStore::new();
    assert!(s.add(String::from("water plants")).is_ok());
    assert!(s.add(String::from("water plants")).is_ok());
    assert_eq!(s.list(), vec![(String::from("water plants"), false)]);
}

#[test]
fn second_add_keeps_completion_flag() {
    let mut s = TodoStore::new();
    assert!(s.add(String::from("water plants")).is_ok());
    assert!(s.complete(&String::from("water plants")).is_ok());
    assert!(s.add(String::from("water plants")).is_ok());
    assert_eq!(s.list(), vec![(String::from("water plants"), true)]);
}

#[test]
fn complete_marks_item_done() {
    let mut s = TodoStore::new();
    assert!(s.add(String::from("a")).is_ok());
    assert!(s.add(String::from("b")).is_ok());
    assert!(s.complete(&String::from("a")).is_ok());
    let items = s.list();
    assert_eq!(items[0], (String::from("a"), true));
    assert_eq!(items[1], (String::from("b"), false));
}

#[test]
fn complete_missing_on_empty_store() {
    let mut s = TodoStore::new();
    assert_eq!(s.complete(&String::from("missing")), Err(TodoError::NotFound));
    assert_eq!(s.list().len(), 0);
}

#[test]
fn complete_missing_leaves_store_alone() {
    let mut s = TodoStore::new();
    assert!(s.add(String::from("a")).is_ok());
    let before = s.list();
    assert_eq!(s.complete(&String::from("b")), Err(TodoError::NotFound));
    assert_eq!(s.list(), before);
}

#[test]
fn empty_name_is_rejected() {
    let mut s = TodoStore::new();
    assert_eq!(s.add(String::new()), Err(TodoError::InvalidInput));
    assert_eq!(s.list().len(), 0);
}

#[test]
fn control_characters_in_names_are_accepted() {
    let mut s = TodoStore::new();
    assert!(s.add(String::from("a\nb")).is_ok());
    assert!(s.add(String::from("a\tb")).is_ok());
    assert_eq!(
        s.list(),
        vec![(String::from("a\nb"), false), (String::from("a\tb"), false)]
    );
}

#[test]
fn distinct_adds_all_present_exactly_once() {
    let mut s = TodoStore::new();
    let names: Vec<String> = (0..10).map(|i| format!("task {}", i)).collect();
    for n in &names {
        assert!(s.add(n.clone()).is_ok());
    }
    let items = s.list();
    assert_eq!(items.len(), 10);
    for n in &names {
        assert_eq!(items.iter().filter(|(item, _)| item == n).count(), 1);
    }
}

#[test]
fn adds_in_any_order_give_same_set() {
    let mut s1 = TodoStore::new();
    let mut s2 = TodoStore::new();
    for n in ["x", "y", "z"] {
        assert!(s1.add(String::from(n)).is_ok());
    }
    for n in ["z", "x", "y"] {
        assert!(s2.add(String::from(n)).is_ok());
    }
    let mut l1 = s1.list();
    let mut l2 = s2.list();
    l1.sort();
    l2.sort();
    assert_eq!(l1, l2);
}
