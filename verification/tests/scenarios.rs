use todo::error::Error;
use todo::models::Item;
use todo::storage::Storage;

fn item_with_id(id: &str) -> Item {
    let mut it: Item = Default::default();
    it.id = id.to_string();
    it
}

#[test]
fn single_add_lists_exactly_one_item() {
    let mut db = Storage::new();
    let mut it = item_with_id("1");
    it.title = "a".to_string();
    let expected = it.clone();

    db.add_item(it).unwrap();

    let items = db.get_all_items().unwrap();
    assert_eq!(items.items.len(), 1);
    assert_eq!(items.items[0].0, "1".to_string());
    assert_eq!(items.items[0].1, expected);
    assert_eq!(items.items[0].1.title, "a".to_string());
    assert!(items.items[0].1.parent.is_none());
    assert!(items.items[0].1.children.is_none());
}

#[test]
fn child_add_links_into_parent() {
    let mut db = Storage::new();
    db.add_item(item_with_id("1")).unwrap();
    let mut child = item_with_id("2");
    child.parent = Some("1".to_string());
    db.add_item(child).unwrap();

    let parent = db.get_item("1").unwrap().unwrap();
    assert_eq!(parent.children, Some(vec!["2".to_string()]));
}

#[test]
fn dropped_parent_reference_unlinks_child() {
    let mut db = Storage::new();
    db.add_item(item_with_id("1")).unwrap();
    let mut child = item_with_id("2");
    child.parent = Some("1".to_string());
    db.add_item(child).unwrap();

    let mut updated = db.get_item("2").unwrap().unwrap();
    updated.parent = None;
    db.update_item(updated).unwrap();

    let parent = db.get_item("1").unwrap().unwrap();
    assert!(!parent.children.unwrap().contains(&"2".to_string()));
}

#[test]
fn added_child_gains_parent_reference() {
    let mut db = Storage::new();
    let mut p = item_with_id("p");
    p.children = Some(vec!["x".to_string()]);
    db.add_item(p).unwrap();
    db.add_item(item_with_id("x")).unwrap();
    db.add_item(item_with_id("y")).unwrap();

    let mut updated = db.get_item("p").unwrap().unwrap();
    updated.children = Some(vec!["x".to_string(), "y".to_string()]);
    db.update_item(updated).unwrap();

    let y = db.get_item("y").unwrap().unwrap();
    assert_eq!(y.parent, Some("p".to_string()));
}

#[test]
// An id already listed in the parent's children is not appended again.
fn repeated_append_keeps_single_entry() {
    let mut db = Storage::new();
    let mut p = item_with_id("p");
    p.children = Some(vec!["c".to_string()]);
    db.add_item(p).unwrap();

    let mut c = item_with_id("c");
    c.parent = Some("p".to_string());
    db.add_item(c).unwrap();

    let parent = db.get_item("p").unwrap().unwrap();
    assert_eq!(parent.children, Some(vec!["c".to_string()]));
}

#[test]
// A retried add commits the same state again: nothing changes.
fn retried_add_changes_nothing() {
    let mut db = Storage::new();
    db.add_item(item_with_id("p")).unwrap();
    let mut c = item_with_id("c");
    c.parent = Some("p".to_string());
    db.add_item(c.clone()).unwrap();
    let before = db.get_all_items().unwrap();

    db.add_item(c).unwrap();
    let after = db.get_all_items().unwrap();
    assert_eq!(before, after);
}

#[test]
// A failed parent load during the removed-children pass rolls the whole
// update back: nothing the call staged becomes visible.
fn failed_unlink_rolls_back_whole_update() {
    let mut db = Storage::new();
    db.add_item(item_with_id("pp")).unwrap();
    let mut c = item_with_id("c");
    c.parent = Some("pp".to_string());
    db.add_item(c).unwrap();
    // Deleting performs no link cleanup: c keeps its dangling parent.
    db.delete_item("pp").unwrap();

    let mut x = item_with_id("x");
    x.children = Some(vec!["c".to_string()]);
    db.add_item(x).unwrap();

    let mut updated = db.get_item("x").unwrap().unwrap();
    updated.children = Some(vec![]);
    let err = db.update_item(updated).unwrap_err();
    match err {
        Error::TransactionAbort { item_id, cause } => {
            assert_eq!(item_id, "x".to_string());
            assert_eq!(*cause, Error::MissingParent("pp".to_string()));
        },
        other => panic!("unexpected error: {:?}", other),
    }

    // Full rollback: the staged parent-clear of c and the write of x are
    // both absent.
    let x_after = db.get_item("x").unwrap().unwrap();
    assert_eq!(x_after.children, Some(vec!["c".to_string()]));
    let c_after = db.get_item("c").unwrap().unwrap();
    assert_eq!(c_after.parent, Some("pp".to_string()));
}

#[test]
fn delete_of_absent_id_succeeds() {
    let mut db = Storage::new();
    assert!(db.delete_item("absent").is_ok());
}

#[test]
fn add_with_empty_id_is_rejected() {
    let mut db = Storage::new();
    let it: Item = Default::default();
    let err = db.add_item(it).unwrap_err();
    assert_eq!(err, Error::InvalidInput);
    assert_eq!(db.get_all_items().unwrap().items.len(), 0);
}

#[test]
fn add_with_absent_parent_aborts() {
    let mut db = Storage::new();
    let mut it = item_with_id("1");
    it.parent = Some("nope".to_string());
    let err = db.add_item(it).unwrap_err();
    match err {
        Error::TransactionAbort { item_id, cause } => {
            assert_eq!(item_id, "1".to_string());
            assert_eq!(*cause, Error::MissingParent("nope".to_string()));
        },
        other => panic!("unexpected error: {:?}", other),
    }
    assert!(db.get_item("1").unwrap().is_none());
}

#[test]
fn update_of_absent_item_aborts() {
    let mut db = Storage::new();
    let err = db.update_item(item_with_id("ghost")).unwrap_err();
    match err {
        Error::TransactionAbort { item_id, cause } => {
            assert_eq!(item_id, "ghost".to_string());
            assert_eq!(*cause, Error::MissingItem("ghost".to_string()));
        },
        other => panic!("unexpected error: {:?}", other),
    }
}

#[test]
fn update_with_absent_added_child_aborts() {
    let mut db = Storage::new();
    db.add_item(item_with_id("p")).unwrap();
    let mut updated = db.get_item("p").unwrap().unwrap();
    updated.children = Some(vec!["missing".to_string()]);
    let err = db.update_item(updated).unwrap_err();
    match err {
        Error::TransactionAbort { item_id, cause } => {
            assert_eq!(item_id, "p".to_string());
            assert_eq!(*cause, Error::MissingItem("missing".to_string()));
        },
        other => panic!("unexpected error: {:?}", other),
    }
    let p = db.get_item("p").unwrap().unwrap();
    assert!(p.children.is_none());
}

#[test]
// Reparenting from one parent to another moves the child's id in one call:
// it leaves the old parent's children and enters the new parent's.
fn reparent_moves_between_parents() {
    let mut db = Storage::new();
    db.add_item(item_with_id("a")).unwrap();
    db.add_item(item_with_id("b")).unwrap();
    let mut x = item_with_id("x");
    x.parent = Some("a".to_string());
    db.add_item(x).unwrap();

    let mut updated = db.get_item("x").unwrap().unwrap();
    updated.parent = Some("b".to_string());
    db.update_item(updated).unwrap();

    let a = db.get_item("a").unwrap().unwrap();
    assert!(!a.children.unwrap().contains(&"x".to_string()));
    let b = db.get_item("b").unwrap().unwrap();
    assert!(b.children.unwrap().contains(&"x".to_string()));
    let x_after = db.get_item("x").unwrap().unwrap();
    assert_eq!(x_after.parent, Some("b".to_string()));
}

#[test]
// A child adopted through another item's children list is also dropped
// from its prior parent's children: no stale back-link survives.
fn adopted_child_leaves_prior_parent() {
    let mut db = Storage::new();
    db.add_item(item_with_id("a")).unwrap();
    db.add_item(item_with_id("b")).unwrap();
    let mut c = item_with_id("c");
    c.parent = Some("a".to_string());
    db.add_item(c).unwrap();

    let mut updated = db.get_item("b").unwrap().unwrap();
    updated.children = Some(vec!["c".to_string()]);
    db.update_item(updated).unwrap();

    let c_after = db.get_item("c").unwrap().unwrap();
    assert_eq!(c_after.parent, Some("b".to_string()));
    let a = db.get_item("a").unwrap().unwrap();
    assert!(!a.children.unwrap().contains(&"c".to_string()));
    let b = db.get_item("b").unwrap().unwrap();
    assert!(b.children.unwrap().contains(&"c".to_string()));
}

#[test]
// Switching away from a parent that no longer exists fails the whole
// call: the old back-link cannot be repaired, so nothing commits.
fn reparent_from_absent_parent_aborts() {
    let mut db = Storage::new();
    db.add_item(item_with_id("gone")).unwrap();
    let mut x = item_with_id("x");
    x.parent = Some("gone".to_string());
    db.add_item(x).unwrap();
    db.delete_item("gone").unwrap();
    db.add_item(item_with_id("b")).unwrap();

    let mut updated = db.get_item("x").unwrap().unwrap();
    updated.parent = Some("b".to_string());
    let err = db.update_item(updated).unwrap_err();
    match err {
        Error::TransactionAbort { item_id, cause } => {
            assert_eq!(item_id, "x".to_string());
            assert_eq!(*cause, Error::MissingParent("gone".to_string()));
        },
        other => panic!("unexpected error: {:?}", other),
    }
    let x_after = db.get_item("x").unwrap().unwrap();
    assert_eq!(x_after.parent, Some("gone".to_string()));
    let b = db.get_item("b").unwrap().unwrap();
    assert!(b.children.is_none());
}
