use cora::characters;
use cora::doc_groups::{
    create_doc_group, create_doc_group_after, delete_doc_group, list_doc_groups, rename_doc_group,
    reorder_doc_group,
};
use cora::docs::{
    create, create_doc, create_doc_after, delete_doc, get_doc, list_docs, move_doc_to_group, rename_doc,
    reorder_doc,
};
use cora::drafts::{create_draft_at, list_drafts};
use cora::models::{DraftCreate, ProjectCreate};
use cora::projects;
use cora::store::{Store, StoreError};

fn book(store: &mut Store) -> i64 {
    let payload = ProjectCreate { name: "Book".to_string(), desc: None, path: None, notes: None };
    projects::create(store, payload).unwrap().id
}

fn group_orders(store: &Store, pid: i64, parent: Option<i64>) -> Vec<(String, i64)> {
    let mut v: Vec<(String, i64)> = list_doc_groups(store, pid)
        .unwrap()
        .into_iter()
        .filter(|g| g.parent_id == parent)
        .map(|g| (g.name, g.sort_order.unwrap()))
        .collect();
    v.sort_by_key(|x| x.1);
    v
}

fn doc_orders(store: &Store, pid: i64, group: Option<i64>) -> Vec<(String, i64)> {
    let mut v: Vec<(String, i64)> = list_docs(store, pid)
        .unwrap()
        .into_iter()
        .filter(|d| d.doc_group_id == group && d.sort_order.is_some())
        .map(|d| (d.name.unwrap(), d.sort_order.unwrap()))
        .collect();
    v.sort_by_key(|x| x.1);
    v
}

fn named(pairs: &[(&str, i64)]) -> Vec<(String, i64)> {
    pairs.iter().map(|(n, o)| (n.to_string(), *o)).collect()
}

#[test]
fn insert_after_makes_room() {
    let mut store = Store::new();
    let pid = book(&mut store);
    create_doc_group(&mut store, pid, "a", None).unwrap();
    create_doc_group(&mut store, pid, "b", None).unwrap();
    create_doc_group(&mut store, pid, "c", None).unwrap();
    let x = create_doc_group_after(&mut store, pid, "x", None, 0).unwrap();
    assert_eq!(x.sort_order, Some(1));
    let first = create_doc_group_after(&mut store, pid, "first", None, -1).unwrap();
    assert_eq!(first.sort_order, Some(0));
    assert_eq!(group_orders(&store, pid, None), named(&[("first", 0), ("a", 1), ("x", 2), ("b", 3), ("c", 4)]));
    let d1 = create_doc(&mut store, pid, "d1", None).unwrap();
    let d2 = create_doc_after(&mut store, pid, "d2", None, -1).unwrap();
    assert_eq!(d2.sort_order, Some(0));
    assert_eq!(get_doc(&store, d1.id).unwrap().unwrap().sort_order, Some(1));
}

#[test]
fn create_refuses_what_does_not_exist() {
    let mut store = Store::new();
    let pid = book(&mut store);
    assert_eq!(create_doc_group(&mut store, 50, "x", None), Err(StoreError::NotFound));
    assert_eq!(create_doc_group(&mut store, pid, "x", Some(50)), Err(StoreError::NotFound));
    assert_eq!(create_doc(&mut store, pid, "x", Some(50)), Err(StoreError::NotFound));
    assert_eq!(create_doc_after(&mut store, 50, "x", None, 0), Err(StoreError::NotFound));
    assert_eq!(create_doc_group_after(&mut store, pid, "x", None, i64::MAX), Err(StoreError::Exhausted));
    assert_eq!(store.groups.len(), 0);
    assert_eq!(store.docs.len(), 0);
}

#[test]
fn deleting_a_folder_takes_what_is_below_it() {
    let mut store = Store::new();
    let pid = book(&mut store);
    let a = create_doc_group(&mut store, pid, "a", None).unwrap();
    let b = create_doc_group(&mut store, pid, "b", None).unwrap();
    let c = create_doc_group(&mut store, pid, "c", None).unwrap();
    let b1 = create_doc_group(&mut store, pid, "b1", Some(b.id)).unwrap();
    let b2 = create_doc_group(&mut store, pid, "b2", Some(b.id)).unwrap();
    let b11 = create_doc_group(&mut store, pid, "b11", Some(b1.id)).unwrap();
    let in_a = create_doc(&mut store, pid, "in a", Some(a.id)).unwrap();
    let in_b = create_doc(&mut store, pid, "in b", Some(b.id)).unwrap();
    let in_b11 = create_doc(&mut store, pid, "in b11", Some(b11.id)).unwrap();
    let hero = characters::create(&mut store, pid, "hero", None).unwrap();
    characters::attach_to_doc(&mut store, in_b11.id, hero.id).unwrap();
    characters::attach_to_doc(&mut store, in_a.id, hero.id).unwrap();
    characters::attach_to_doc_group(&mut store, b2.id, hero.id).unwrap();
    let req = DraftCreate { name: "d".into(), content: "t".into() };
    create_draft_at(&mut store, in_b.id, req, "now".to_string()).unwrap();

    delete_doc_group(&mut store, b.id).unwrap();

    assert_eq!(group_orders(&store, pid, None), named(&[("a", 0), ("c", 1)]));
    assert_eq!(store.groups.len(), 2);
    assert_eq!(store.docs.len(), 1);
    assert_eq!(store.drafts.len(), 0);
    assert_eq!(characters::list_for_doc(&store, in_a.id).unwrap(), vec![hero.id]);
    assert_eq!(store.doc_characters.len(), 1);
    assert_eq!(store.group_characters.len(), 0);
    assert_eq!(list_drafts(&store, in_b.id).unwrap().len(), 0);
    assert_eq!(delete_doc_group(&mut store, b.id), Err(StoreError::NotFound));
    let _ = c;
}

#[test]
fn deleting_a_document_closes_the_gap() {
    let mut store = Store::new();
    let pid = book(&mut store);
    let g = create_doc_group(&mut store, pid, "g", None).unwrap();
    let a = create_doc(&mut store, pid, "a", Some(g.id)).unwrap();
    let b = create_doc(&mut store, pid, "b", Some(g.id)).unwrap();
    let c = create_doc(&mut store, pid, "c", Some(g.id)).unwrap();
    let loose = create_doc(&mut store, pid, "loose", None).unwrap();
    delete_doc(&mut store, a.id).unwrap();
    assert_eq!(doc_orders(&store, pid, Some(g.id)), named(&[("b", 0), ("c", 1)]));
    assert_eq!(doc_orders(&store, pid, None), named(&[("loose", 0)]));
    assert_eq!(delete_doc(&mut store, a.id), Err(StoreError::NotFound));
    let _ = (b, c, loose);
}

#[test]
fn reordering_swaps_neighbours() {
    let mut store = Store::new();
    let pid = book(&mut store);
    let a = create_doc(&mut store, pid, "a", None).unwrap();
    let b = create_doc(&mut store, pid, "b", None).unwrap();
    let c = create_doc(&mut store, pid, "c", None).unwrap();
    reorder_doc(&mut store, c.id, "up").unwrap();
    assert_eq!(doc_orders(&store, pid, None), named(&[("a", 0), ("c", 1), ("b", 2)]));
    reorder_doc(&mut store, a.id, "down").unwrap();
    assert_eq!(doc_orders(&store, pid, None), named(&[("c", 0), ("a", 1), ("b", 2)]));
    reorder_doc(&mut store, c.id, "up").unwrap();
    reorder_doc(&mut store, b.id, "down").unwrap();
    assert_eq!(doc_orders(&store, pid, None), named(&[("c", 0), ("a", 1), ("b", 2)]));
    assert_eq!(reorder_doc(&mut store, a.id, "sideways"), Err(StoreError::InvalidDirection));
    assert_eq!(reorder_doc(&mut store, 99, "up"), Err(StoreError::NotFound));
    let g = create_doc_group(&mut store, pid, "g", None).unwrap();
    assert_eq!(reorder_doc_group(&mut store, g.id, "sideways"), Ok(()));
    assert_eq!(reorder_doc_group(&mut store, 99, "up"), Err(StoreError::NotFound));
}

#[test]
fn moving_within_one_folder_puts_the_document_last() {
    let mut store = Store::new();
    let pid = book(&mut store);
    let g = create_doc_group(&mut store, pid, "g", None).unwrap();
    let a = create_doc(&mut store, pid, "a", Some(g.id)).unwrap();
    create_doc(&mut store, pid, "b", Some(g.id)).unwrap();
    create_doc(&mut store, pid, "c", Some(g.id)).unwrap();
    move_doc_to_group(&mut store, a.id, Some(g.id)).unwrap();
    assert_eq!(doc_orders(&store, pid, Some(g.id)), named(&[("b", 0), ("c", 1), ("a", 2)]));
    move_doc_to_group(&mut store, a.id, None).unwrap();
    assert_eq!(doc_orders(&store, pid, Some(g.id)), named(&[("b", 0), ("c", 1)]));
    assert_eq!(doc_orders(&store, pid, None), named(&[("a", 0)]));
    assert_eq!(move_doc_to_group(&mut store, a.id, Some(99)), Err(StoreError::NotFound));
    assert_eq!(move_doc_to_group(&mut store, 99, None), Err(StoreError::NotFound));
}

#[test]
fn documents_of_the_older_path_take_no_part_in_ordering() {
    let mut store = Store::new();
    let pid = book(&mut store);
    let old = create(&mut store, pid, "old.md", None, None, None).unwrap();
    assert_eq!(old.sort_order, None);
    assert_eq!(old.doc_group_id, None);
    let fresh = create_doc(&mut store, pid, "fresh", None).unwrap();
    assert_eq!(fresh.sort_order, Some(0));
    assert_eq!(delete_doc(&mut store, old.id), Err(StoreError::Unordered));
    assert_eq!(reorder_doc(&mut store, old.id, "up"), Err(StoreError::Unordered));
    assert_eq!(move_doc_to_group(&mut store, old.id, None), Err(StoreError::Unordered));
    assert_eq!(store.docs.len(), 2);
}

#[test]
fn renaming_changes_the_name_only() {
    let mut store = Store::new();
    let pid = book(&mut store);
    let g = create_doc_group(&mut store, pid, "g", None).unwrap();
    let d = create_doc(&mut store, pid, "d", Some(g.id)).unwrap();
    rename_doc_group(&mut store, g.id, "G").unwrap();
    rename_doc(&mut store, d.id, "D").unwrap();
    rename_doc(&mut store, 99, "nobody").unwrap();
    rename_doc_group(&mut store, 99, "nobody").unwrap();
    assert_eq!(group_orders(&store, pid, None), named(&[("G", 0)]));
    assert_eq!(doc_orders(&store, pid, Some(g.id)), named(&[("D", 0)]));
}

#[test]
fn folders_are_listed_top_level_first_and_in_their_order() {
    let mut store = Store::new();
    let pid = book(&mut store);
    let a = create_doc_group(&mut store, pid, "a", None).unwrap();
    let a1 = create_doc_group(&mut store, pid, "a1", Some(a.id)).unwrap();
    let b = create_doc_group(&mut store, pid, "b", None).unwrap();
    let a2 = create_doc_group(&mut store, pid, "a2", Some(a.id)).unwrap();
    reorder_doc_group(&mut store, b.id, "up").unwrap();
    let names: Vec<String> = list_doc_groups(&store, pid).unwrap().into_iter().map(|g| g.name).collect();
    assert_eq!(names, vec!["b", "a", "a1", "a2"]);
    let in_a2 = create_doc(&mut store, pid, "in a2", Some(a2.id)).unwrap();
    let loose = create_doc(&mut store, pid, "loose", None).unwrap();
    let in_a1 = create_doc(&mut store, pid, "in a1", Some(a1.id)).unwrap();
    let ids: Vec<i64> = list_docs(&store, pid).unwrap().into_iter().map(|d| d.id).collect();
    assert_eq!(ids, vec![loose.id, in_a1.id, in_a2.id]);
}

/// Every sibling set of the project carries the orders 0, 1, .., n - 1.
fn every_set_is_dense(store: &Store, pid: i64) -> bool {
    let groups = list_doc_groups(store, pid).unwrap();
    let docs = list_docs(store, pid).unwrap();
    let mut parents: Vec<Option<i64>> = vec![None];
    parents.extend(groups.iter().map(|g| Some(g.id)));
    parents.iter().all(|scope| {
        let mut of_groups: Vec<i64> =
            groups.iter().filter(|g| g.parent_id == *scope).map(|g| g.sort_order.unwrap()).collect();
        let mut of_docs: Vec<i64> =
            docs.iter().filter(|d| d.doc_group_id == *scope).map(|d| d.sort_order.unwrap()).collect();
        of_groups.sort();
        of_docs.sort();
        of_groups == (0..of_groups.len() as i64).collect::<Vec<i64>>()
            && of_docs == (0..of_docs.len() as i64).collect::<Vec<i64>>()
    })
}

#[test]
fn a_history_of_changes_keeps_every_set_dense() {
    let mut store = Store::new();
    let pid = book(&mut store);
    assert!(every_set_is_dense(&store, pid));
    let a = create_doc_group(&mut store, pid, "a", None).unwrap();
    let b = create_doc_group(&mut store, pid, "b", None).unwrap();
    let c = create_doc_group_after(&mut store, pid, "c", None, 0).unwrap();
    assert!(every_set_is_dense(&store, pid));
    let a1 = create_doc_group(&mut store, pid, "a1", Some(a.id)).unwrap();
    let a2 = create_doc_group_after(&mut store, pid, "a2", Some(a.id), -1).unwrap();
    create_doc_group(&mut store, pid, "a3", Some(a.id)).unwrap();
    assert!(every_set_is_dense(&store, pid));
    let d1 = create_doc(&mut store, pid, "d1", Some(a1.id)).unwrap();
    let d2 = create_doc(&mut store, pid, "d2", Some(a1.id)).unwrap();
    let d3 = create_doc_after(&mut store, pid, "d3", Some(a1.id), 0).unwrap();
    create_doc(&mut store, pid, "loose", None).unwrap();
    create_doc_after(&mut store, pid, "looser", None, -1).unwrap();
    assert!(every_set_is_dense(&store, pid));
    move_doc_to_group(&mut store, d1.id, Some(b.id)).unwrap();
    assert!(every_set_is_dense(&store, pid));
    move_doc_to_group(&mut store, d3.id, None).unwrap();
    assert!(every_set_is_dense(&store, pid));
    reorder_doc(&mut store, d2.id, "up").unwrap();
    reorder_doc_group(&mut store, a2.id, "down").unwrap();
    reorder_doc_group(&mut store, c.id, "up").unwrap();
    assert!(every_set_is_dense(&store, pid));
    delete_doc(&mut store, d3.id).unwrap();
    assert!(every_set_is_dense(&store, pid));
    delete_doc_group(&mut store, a2.id).unwrap();
    assert!(every_set_is_dense(&store, pid));
    delete_doc_group(&mut store, a.id).unwrap();
    assert!(every_set_is_dense(&store, pid));
    assert_eq!(group_orders(&store, pid, None), named(&[("c", 0), ("b", 1)]));
    assert_eq!(doc_orders(&store, pid, Some(b.id)), named(&[("d1", 0)]));
    assert_eq!(doc_orders(&store, pid, None), named(&[("looser", 0), ("loose", 1)]));
}
