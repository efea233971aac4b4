use todo_list::routes::{
    add_response, delete_response, error_reply, handle_add, handle_delete, index_response,
    status_of, ServiceError,
};
use todo_list::store::TodoStore;

#[test]
fn status_dispatch_table() {
    assert_eq!(status_of(&ServiceError::Render), 500);
    assert_eq!(status_of(&ServiceError::Connection), 500);
    assert_eq!(status_of(&ServiceError::Query), 500);
    assert_eq!(status_of(&ServiceError::Decode), 400);
}

#[test]
fn error_replies_are_opaque() {
    let r = error_reply(&ServiceError::Query);
    assert_eq!(r.status, 500);
    assert_eq!(r.body, "");
    assert!(r.content_type.is_none());
    assert!(r.location.is_none());
}

#[test]
fn index_success_is_html() {
    let r = index_response(Ok("<ul></ul>".to_owned()));
    assert_eq!(r.status, 200);
    assert_eq!(r.content_type.as_deref(), Some("text/html"));
    assert_eq!(r.body, "<ul></ul>");
    assert!(r.location.is_none());
}

#[test]
fn index_failure_is_500() {
    let r = index_response(Err(ServiceError::Render));
    assert_eq!(r.status, 500);
    assert_eq!(r.body, "");
}

#[test]
fn add_success_redirects_to_root() {
    let r = add_response(Ok(()));
    assert_eq!(r.status, 303);
    assert_eq!(r.location.as_deref(), Some("/"));
    assert_eq!(r.body, "");
}

#[test]
fn add_storage_failure_is_500() {
    let r = add_response(Err(ServiceError::Query));
    assert_eq!(r.status, 500);
}

#[test]
fn delete_success_redirects_to_root() {
    let r = delete_response(Ok(()));
    assert_eq!(r.status, 303);
    assert_eq!(r.location.as_deref(), Some("/"));
}

#[test]
fn delete_of_absent_id_still_redirects() {
    let mut store = TodoStore::new();
    store.insert("a".to_owned());
    let r = handle_delete(&mut store, b"id=999999");
    assert_eq!(r.status, 303);
    assert_eq!(r.location.as_deref(), Some("/"));
    let entries = store.list_all();
    assert_eq!(entries.len(), 1);
    assert_eq!(entries[0].text, "a");
}

#[test]
fn malformed_delete_is_400_and_changes_nothing() {
    let mut store = TodoStore::new();
    store.insert("a".to_owned());
    let r = handle_delete(&mut store, b"id=abc");
    assert_eq!(r.status, 400);
    let entries = store.list_all();
    assert_eq!(entries.len(), 1);
    assert_eq!(entries[0].text, "a");
}

#[test]
fn malformed_add_is_400_and_changes_nothing() {
    let mut store = TodoStore::new();
    let r = handle_add(&mut store, b"nothing=here");
    assert_eq!(r.status, 400);
    assert!(store.list_all().is_empty());
}

#[test]
fn empty_store_scenario() {
    let mut store = TodoStore::new();

    let entries = store.list_all();
    assert!(entries.is_empty());
    let page = index_response(Ok("<ul></ul>".to_owned()));
    assert_eq!(page.status, 200);

    let r = handle_add(&mut store, b"text=Test");
    assert_eq!(r.status, 303);
    let entries = store.list_all();
    assert_eq!(entries.len(), 1);
    assert_eq!(entries[0].id, 1);
    assert_eq!(entries[0].text, "Test");

    let r = handle_delete(&mut store, b"id=1");
    assert_eq!(r.status, 303);
    assert!(store.list_all().is_empty());
}

#[test]
fn repeated_listing_without_writes_is_stable() {
    let mut store = TodoStore::new();
    handle_add(&mut store, b"text=alpha");
    handle_add(&mut store, b"text=beta");
    let first: Vec<(u32, String)> =
        store.list_all().into_iter().map(|e| (e.id, e.text)).collect();
    let second: Vec<(u32, String)> =
        store.list_all().into_iter().map(|e| (e.id, e.text)).collect();
    assert_eq!(first, second);
}
