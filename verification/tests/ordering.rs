use cora::doc_groups::{create_doc_group, create_doc_group_after, delete_doc_group, reorder_doc_group};
use cora::docs::{create_doc, get_doc, move_doc_to_group};
use cora::models::ProjectCreate;
use cora::projects;
use cora::store::Store;

fn book(store: &mut Store) -> i64 {
    let payload = ProjectCreate { name: "Book".to_string(), desc: None, path: None, notes: None };
    projects::create(store, payload).unwrap().id
}

fn group_order(store: &Store, id: i64) -> Option<i64> {
    store.groups.iter().find(|g| g.id == id).and_then(|g| g.sort_order)
}

#[test]
fn insert_after_then_delete_closes_the_gap() {
    let mut store = Store::new();
    let pid = book(&mut store);
    let part1 = create_doc_group(&mut store, pid, "Part I", None).unwrap();
    assert_eq!(part1.sort_order, Some(0));
    let part2 = create_doc_group_after(&mut store, pid, "Part II", None, 0).unwrap();
    assert_eq!(part2.sort_order, Some(1));
    delete_doc_group(&mut store, part1.id).unwrap();
    assert_eq!(group_order(&store, part2.id), Some(0));
    assert_eq!(store.groups.len(), 1);
}

#[test]
fn move_to_group_leaves_both_sets_dense() {
    let mut store = Store::new();
    let pid = book(&mut store);
    let a = create_doc_group(&mut store, pid, "A", None).unwrap();
    let b = create_doc_group(&mut store, pid, "B", None).unwrap();
    let ch1 = create_doc(&mut store, pid, "Ch1", Some(a.id)).unwrap();
    let ch2 = create_doc(&mut store, pid, "Ch2", Some(a.id)).unwrap();
    assert_eq!(ch1.sort_order, Some(0));
    assert_eq!(ch2.sort_order, Some(1));
    move_doc_to_group(&mut store, ch1.id, Some(b.id)).unwrap();
    let ch1 = get_doc(&store, ch1.id).unwrap().unwrap();
    let ch2 = get_doc(&store, ch2.id).unwrap().unwrap();
    assert_eq!(ch2.doc_group_id, Some(a.id));
    assert_eq!(ch2.sort_order, Some(0));
    assert_eq!(ch1.doc_group_id, Some(b.id));
    assert_eq!(ch1.sort_order, Some(0));
}

#[test]
fn reorder_at_the_edges_changes_nothing() {
    let mut store = Store::new();
    let pid = book(&mut store);
    let first = create_doc_group(&mut store, pid, "One", None).unwrap();
    let last = create_doc_group(&mut store, pid, "Two", None).unwrap();
    reorder_doc_group(&mut store, first.id, "up").unwrap();
    reorder_doc_group(&mut store, last.id, "down").unwrap();
    assert_eq!(group_order(&store, first.id), Some(0));
    assert_eq!(group_order(&store, last.id), Some(1));
    reorder_doc_group(&mut store, first.id, "down").unwrap();
    assert_eq!(group_order(&store, first.id), Some(1));
    assert_eq!(group_order(&store, last.id), Some(0));
}
