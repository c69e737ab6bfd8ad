use todo::models::Item;
use todo::models::Items;
use todo::storage::{find_list_difference, find_list_updates, Storage};

fn setup_db() -> Storage {
    Storage::new()
}

#[test]
fn test_find_list_difference() {
    let test_list1 = vec!["1".to_string(), "2".to_string(), "3".to_string(), "4".to_string()];
    let test_list2 = vec!["1".to_string(), "3".to_string()];

    let mut returned_list = find_list_difference(&test_list1, &test_list2);
    let mut expected_list = vec!["2".to_string(), "4".to_string()];

    assert_eq!(returned_list.sort(), expected_list.sort())
}

#[test]
fn test_find_list_updates() {
    let current_list = vec!["1".to_string(), "2".to_string(), "3".to_string(), "4".to_string()];
    let update_list = vec!["1".to_string(), "3".to_string(), "5".to_string(), "6".to_string()];

    let (mut list_removals, mut list_additions) = find_list_updates(&current_list, &update_list);

    let mut expected_additions = vec!["5".to_string(), "6".to_string()];
    let mut expected_removals = vec!["2".to_string(), "4".to_string()];

    assert_eq!(expected_additions.sort(), list_additions.sort());
    assert_eq!(expected_removals.sort(), list_removals.sort());
}

#[test]
fn add_single_item() {
    let mut db = setup_db();
    let mut test_item: Item = Default::default();
    test_item.id = "1".to_string();
    test_item.title = "test title 1".to_string();
    test_item.description = Some("test description 1".to_string());

    let expected_item = test_item.clone();

    db.add_item(test_item).unwrap();
    let returned_item = db.get_item("1").unwrap().unwrap();

    assert_eq!(expected_item, returned_item);
    db.clear();
}

#[test]
fn get_all_items() {
    let mut db = setup_db();
    let mut test_item: Item = Default::default();
    test_item.id = "1".to_string();
    test_item.title = "test title 1".to_string();
    test_item.description = Some("test description 1".to_string());

    db.add_item(test_item).unwrap();

    let expected_item = db.get_item("1").unwrap().unwrap();

    let items = db.get_all_items().unwrap();
    let mut expected_pairs = Vec::new();
    expected_pairs.push((expected_item.id.clone(), expected_item));
    let expected_items = Items {
        items: expected_pairs,
    };

    assert_eq!(items, expected_items);
    db.clear();
}

#[test]
// check that we can add a child item with a parent string and logic to update the parent works
fn add_child_item_with_parent() {
    let mut db = setup_db();
    let mut test_item_1: Item = Default::default();
    test_item_1.id = "1".to_string();
    test_item_1.title = "test title 1".to_string();
    test_item_1.description = Some("test description 1".to_string());

    db.add_item(test_item_1).unwrap();

    let mut test_item_2: Item = Default::default();
    test_item_2.id = "2".to_string();
    test_item_2.title = "test title 2".to_string();
    test_item_2.description = Some("test description 2".to_string());
    test_item_2.parent = Some("1".to_string());

    let expected_item = test_item_2.clone();

    db.add_item(test_item_2).unwrap();
    let returned_item = db.get_item("2").unwrap().unwrap();

    assert_eq!(expected_item, returned_item);

    let parent_item = db.get_item("1").unwrap().unwrap();
    let expected_children = vec!["2"];

    assert_eq!(parent_item.children.unwrap(), expected_children);
    db.clear();
}

#[test]
fn update_simple_item() {
    let mut db = setup_db();
    let mut test_item_1: Item = Default::default();
    test_item_1.id = "1".to_string();
    test_item_1.title = "test title 1".to_string();
    test_item_1.description = Some("test description 1".to_string());

    let mut updated_item = test_item_1.clone();

    db.add_item(test_item_1).unwrap();

    updated_item.description = Some("test description 2".to_string());

    db.update_item(updated_item).unwrap();

    let returned_item = db.get_item(&"1".to_string()).unwrap().unwrap();
    assert_eq!(
        Some("test description 2".to_string()),
        returned_item.description
    );
    db.clear();
}

#[test]
// test that we correctly add the child_id to the parent when we update a child with a new parent id
fn update_item_with_new_parent() {
    let mut db = setup_db();
    let mut parent_item: Item = Default::default();
    parent_item.id = "parent".to_string();
    parent_item.title = "test title 1".to_string();
    parent_item.description = Some("test description 1".to_string());

    db.add_item(parent_item).unwrap();

    let mut child_item: Item = Default::default();
    child_item.id = "child".to_string();
    child_item.title = "test title 2".to_string();
    child_item.description = Some("test description 2".to_string());

    db.add_item(child_item).unwrap();

    let mut updated_child_item = db.get_item(&"child".to_string()).unwrap().unwrap();
    updated_child_item.parent = Some("parent".to_string());

    db.update_item(updated_child_item).unwrap();

    let returned_parent = db.get_item(&"parent".to_string()).unwrap().unwrap();
    let returned_parent_children = returned_parent.children.unwrap();

    assert!(returned_parent_children.contains(&"child".to_string()));
    db.clear();
}

#[test]
fn update_item_with_removed_parent() {
    let mut db = setup_db();
    let mut parent_item: Item = Default::default();
    parent_item.id = "parent".to_string();
    parent_item.title = "test title 1".to_string();
    parent_item.description = Some("test description 1".to_string());
    parent_item.children = Some(vec!["child".to_string(), "hello".to_string()]);

    db.add_item(parent_item).unwrap();

    let mut child_item: Item = Default::default();
    child_item.id = "child".to_string();
    child_item.title = "test title 2".to_string();
    child_item.description = Some("test description 2".to_string());
    child_item.parent = Some("parent".to_string());

    db.add_item(child_item).unwrap();

    let mut updated_child_item = db.get_item(&"child".to_string()).unwrap().unwrap();
    updated_child_item.parent = None;

    db.update_item(updated_child_item).unwrap();

    let returned_parent = db.get_item(&"parent".to_string()).unwrap().unwrap();
    let returned_parent_children = returned_parent.children.unwrap();

    assert!(!returned_parent_children.contains(&"child".to_string()));
    db.clear();
}

#[test]
// make sure that when you remove a child from an item that child's parent
// field is none.
fn update_item_with_removed_child() {
    let mut db = setup_db();
    let mut parent_item: Item = Default::default();
    parent_item.id = "parent".to_string();
    parent_item.title = "test title 1".to_string();
    parent_item.description = Some("test description 1".to_string());
    parent_item.children = Some(vec!["child".to_string(), "hello".to_string()]);

    db.add_item(parent_item).unwrap();

    let mut child_item: Item = Default::default();
    child_item.id = "child".to_string();
    child_item.title = "test title 1".to_string();
    child_item.description = Some("test description 1".to_string());

    db.add_item(child_item).unwrap();

    let mut hello_item: Item = Default::default();
    hello_item.id = "hello".to_string();
    hello_item.title = "test title 1".to_string();
    hello_item.description = Some("test description 1".to_string());

    db.add_item(hello_item).unwrap();

    let mut updated_parent_item = db.get_item(&"parent".to_string()).unwrap().unwrap();
    updated_parent_item.children = Some(vec!["hello".to_string()]);

    db.update_item(updated_parent_item).unwrap();

    let child = db.get_item(&"child".to_string()).unwrap().unwrap();
    assert!(child.parent.is_none());

    db.clear();
}

#[test]
// make sure that when you add a child that child get updated with its new parent
// any current parent should be updated so it doesn't own the child anymore.
fn update_item_with_added_child() {
    let mut db = setup_db();
    let mut parent_item: Item = Default::default();
    parent_item.id = "parent".to_string();
    parent_item.title = "test title 1".to_string();
    parent_item.description = Some("test description 1".to_string());
    parent_item.children = Some(vec!["child".to_string()]);

    db.add_item(parent_item).unwrap();

    let mut child_item: Item = Default::default();
    child_item.id = "child".to_string();
    child_item.title = "test title 1".to_string();
    child_item.description = Some("test description 1".to_string());

    db.add_item(child_item).unwrap();

    let mut hello_item: Item = Default::default();
    hello_item.id = "hello".to_string();
    hello_item.title = "test title 1".to_string();
    hello_item.description = Some("test description 1".to_string());

    db.add_item(hello_item).unwrap();

    let mut updated_parent_item = db.get_item(&"parent".to_string()).unwrap().unwrap();
    updated_parent_item.children = Some(vec!["child".to_string(), "hello".to_string()]);

    db.update_item(updated_parent_item).unwrap();

    let child = db.get_item(&"hello".to_string()).unwrap().unwrap();
    assert!(child.parent.is_some());
    assert_eq!(&child.parent.unwrap(), &"parent".to_string());

    db.clear();
}

#[test]
fn delete_single_item() {
    let mut db = setup_db();
    let mut test_item: Item = Default::default();
    test_item.id = "1".to_string();
    test_item.title = "test title 1".to_string();
    test_item.description = Some("test description 1".to_string());

    db.add_item(test_item).unwrap();
    let returned_item = db.get_item("1").unwrap();
    assert!(returned_item.is_some());

    db.delete_item(&"1".to_string()).unwrap();
    let returned_item = db.get_item("1").unwrap();
    assert!(returned_item.is_none());

    db.clear();
}
