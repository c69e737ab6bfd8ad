use todo::cli;
use todo::config::{default_database_path, default_id_length};
use todo::models::{
    apply_update_request, new_item, normalize_parent, toggle_completed, Item, UpdateItemRequest,
};
use todo::tui;

#[test]
fn new_item_has_fresh_fields() {
    let it = new_item(5, "buy milk");
    assert_eq!(it.id.chars().count(), 5);
    assert!(it.id.chars().all(|c| c.is_ascii_alphanumeric()));
    assert_eq!(it.title, "buy milk".to_string());
    assert!(!it.completed);
    assert!(it.parent.is_none());
    assert!(it.children.is_none());
    assert!(it.description.is_none());
    assert!(it.link.is_none());
    assert_eq!(it.added, it.modified);
}

#[test]
fn new_item_ids_have_requested_length() {
    for len in [0usize, 1, 8, 32] {
        let it = new_item(len, "t");
        assert_eq!(it.id.chars().count(), len);
    }
}

#[test]
fn update_request_overlays_only_supplied_fields() {
    let mut it: Item = Default::default();
    it.id = "1".to_string();
    it.title = "old".to_string();
    it.description = Some("keep".to_string());
    it.added = 3;
    it.modified = 4;

    let req = UpdateItemRequest {
        description: None,
        children: Some(vec!["c".to_string()]),
        completed: Some(true),
        link: Some("l".to_string()),
        parent: None,
        title: Some("new".to_string()),
    };
    let out = apply_update_request(it, req);
    assert_eq!(out.id, "1".to_string());
    assert_eq!(out.title, "new".to_string());
    assert_eq!(out.description, Some("keep".to_string()));
    assert_eq!(out.children, Some(vec!["c".to_string()]));
    assert!(out.completed);
    assert_eq!(out.link, Some("l".to_string()));
    assert!(out.parent.is_none());
    assert_eq!(out.added, 3);
    assert_eq!(out.modified, 4);
}

#[test]
fn toggle_flips_only_completion() {
    let mut it: Item = Default::default();
    it.id = "1".to_string();
    it.title = "t".to_string();
    let once = toggle_completed(it);
    assert!(once.completed);
    let twice = toggle_completed(once);
    assert!(!twice.completed);
    assert_eq!(twice.id, "1".to_string());
    assert_eq!(twice.title, "t".to_string());
}

#[test]
fn empty_parent_reference_means_none() {
    assert_eq!(normalize_parent(Some("".to_string())), None);
    assert_eq!(normalize_parent(Some("p".to_string())), Some("p".to_string()));
    assert_eq!(normalize_parent(None), None);
}

#[test]
fn defaults_match_documented_values() {
    assert_eq!(default_id_length(), 5);
    assert_eq!(default_database_path(), "/tmp/test.db".to_string());
}

#[test]
fn default_item_is_empty() {
    let it: Item = Default::default();
    assert_eq!(it.id, String::new());
    assert_eq!(it.title, String::new());
    assert!(!it.completed);
    assert!(it.parent.is_none());
    assert!(it.children.is_none());
    assert_eq!(it.added, 0);
    assert_eq!(it.modified, 0);
}

#[test]
fn cli_keeps_its_host() {
    let c = cli::new("http://localhost:8080".to_string());
    assert_eq!(c.host(), &"http://localhost:8080".to_string());
}

#[test]
fn tui_keeps_host_and_redraw_rate() {
    let t = tui::new("http://localhost:8080".to_string());
    assert_eq!(t.host(), &"http://localhost:8080".to_string());
    assert_eq!(t.redraw_rate_ms(), 200);
}

#[test]
fn list_difference_keeps_first_occurrence_order() {
    let a = vec!["b".to_string(), "a".to_string(), "b".to_string(), "c".to_string()];
    let b = vec!["c".to_string()];
    let d = todo::storage::find_list_difference(&a, &b);
    assert_eq!(d, vec!["b".to_string(), "a".to_string()]);
}

#[test]
fn list_difference_of_empty_lists_is_empty() {
    let none: Vec<String> = Vec::new();
    assert_eq!(todo::storage::find_list_difference(&none, &none), none);
}

fn listed(ids: &[(&str, Option<&str>)]) -> todo::models::Items {
    let mut items = Vec::new();
    for (id, parent) in ids {
        let mut it: Item = Default::default();
        it.id = id.to_string();
        it.parent = parent.map(|p| p.to_string());
        items.push((id.to_string(), it));
    }
    todo::models::Items { items }
}

#[test]
fn parent_node_follows_the_reference() {
    let items = listed(&[("r", None), ("m", Some("r")), ("l", Some("m"))]);
    let leaf = items.items[2].1.clone();
    let p = todo::cli::get_parent_node(&leaf, &items).unwrap();
    assert_eq!(p.id, "m".to_string());
    let root = items.items[0].1.clone();
    assert!(todo::cli::get_parent_node(&root, &items).is_none());
}

#[test]
fn root_node_walks_to_the_top() {
    let items = listed(&[("r", None), ("m", Some("r")), ("l", Some("m"))]);
    let leaf = items.items[2].1.clone();
    assert_eq!(todo::cli::get_root_node(&leaf, &items).id, "r".to_string());
}

#[test]
fn root_walk_ends_on_a_cycle() {
    let items = listed(&[("a", Some("b")), ("b", Some("a"))]);
    let a = items.items[0].1.clone();
    let root = todo::cli::get_root_node(&a, &items);
    assert!(root.id == "a".to_string() || root.id == "b".to_string());
}

#[test]
fn root_walk_stops_at_a_dangling_reference() {
    let items = listed(&[("a", Some("gone"))]);
    let a = items.items[0].1.clone();
    assert_eq!(todo::cli::get_root_node(&a, &items).id, "a".to_string());
}
