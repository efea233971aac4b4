use todo_list::store::TodoStore;

#[test]
fn new_store_is_empty() {
    let store = TodoStore::new();
    assert!(store.list_all().is_empty());
}

#[test]
fn insert_assigns_increasing_ids_in_order() {
    let mut store = TodoStore::new();
    store.insert("A".to_owned());
    store.insert("B".to_owned());
    let entries = store.list_all();
    assert_eq!(entries.len(), 2);
    assert_eq!(entries[0].text, "A");
    assert_eq!(entries[1].text, "B");
    assert!(entries[0].id < entries[1].id);
    assert_eq!(entries[0].id, 1);
    assert_eq!(entries[1].id, 2);
}

#[test]
fn listing_twice_returns_the_same_sequence() {
    let mut store = TodoStore::new();
    store.insert("one".to_owned());
    store.insert("two".to_owned());
    let first = store.list_all();
    let second = store.list_all();
    assert_eq!(first.len(), second.len());
    for (a, b) in first.iter().zip(second.iter()) {
        assert_eq!(a.id, b.id);
        assert_eq!(a.text, b.text);
    }
}

#[test]
fn delete_removes_only_the_named_id() {
    let mut store = TodoStore::new();
    store.insert("keep".to_owned());
    store.insert("drop".to_owned());
    store.insert("also keep".to_owned());
    store.delete(2);
    let entries = store.list_all();
    assert_eq!(entries.len(), 2);
    assert_eq!(entries[0].text, "keep");
    assert_eq!(entries[1].text, "also keep");
}

#[test]
fn delete_of_absent_id_changes_nothing() {
    let mut store = TodoStore::new();
    store.insert("a".to_owned());
    store.insert("b".to_owned());
    store.delete(999999);
    let entries = store.list_all();
    assert_eq!(entries.len(), 2);
    assert_eq!(entries[0].text, "a");
    assert_eq!(entries[1].text, "b");
}

#[test]
fn deleted_id_is_not_reused() {
    let mut store = TodoStore::new();
    store.insert("first".to_owned());
    store.delete(1);
    store.insert("second".to_owned());
    let entries = store.list_all();
    assert_eq!(entries.len(), 1);
    assert_eq!(entries[0].id, 2);
    assert_eq!(entries[0].text, "second");
}

#[test]
fn add_then_delete_round_trip() {
    let mut store = TodoStore::new();
    store.insert("stay".to_owned());
    store.insert("Buy milk".to_owned());
    let entries = store.list_all();
    let fresh = entries.iter().find(|e| e.text == "Buy milk").unwrap();
    let fresh_id = fresh.id;
    assert!(entries.iter().filter(|e| e.id == fresh_id).count() == 1);
    store.delete(fresh_id);
    let after = store.list_all();
    assert!(after.iter().all(|e| e.text != "Buy milk"));
    assert_eq!(after.len(), 1);
    assert_eq!(after[0].text, "stay");
}
