use cora::doc_groups::{create_doc_group, delete_doc_group};
use cora::folder_drafts;
use cora::models::{
    FolderDraftCreate, FolderDraftUpdate, ProjectCreate, ProjectDraftCreate, ProjectDraftUpdate,
};
use cora::project_drafts;
use cora::projects;
use cora::store::{Store, StoreError};

fn setup() -> (Store, i64, i64) {
    let mut store = Store::new();
    let payload = ProjectCreate { name: "Book".to_string(), desc: None, path: None, notes: None };
    let pid = projects::create(&mut store, payload).unwrap().id;
    let gid = create_doc_group(&mut store, pid, "Part", None).unwrap().id;
    (store, pid, gid)
}

fn folder_draft(name: &str, at: Option<usize>) -> FolderDraftCreate {
    FolderDraftCreate { name: name.to_string(), content: String::new(), insert_at_index: at }
}

fn names(store: &Store, gid: i64) -> Vec<(String, Option<i64>)> {
    folder_drafts::list(store, gid).unwrap().into_iter().map(|d| (d.name, d.sort_order)).collect()
}

fn named(pairs: &[(&str, i64)]) -> Vec<(String, Option<i64>)> {
    pairs.iter().map(|(n, o)| (n.to_string(), Some(*o))).collect()
}

#[test]
fn folder_drafts_are_created_behind_the_others() {
    let (mut store, _pid, gid) = setup();
    let a = folder_drafts::create_at(&mut store, gid, folder_draft("a", None), "t1".to_string()).unwrap();
    let b = folder_drafts::create_at(&mut store, gid, folder_draft("b", None), "t2".to_string()).unwrap();
    assert_eq!(a.sort_order, Some(1));
    assert_eq!(b.sort_order, Some(2));
    assert_eq!(a.created_at, "t1");
    assert_eq!(names(&store, gid), named(&[("a", 1), ("b", 2)]));
    let req = folder_draft("x", None);
    assert_eq!(folder_drafts::create_at(&mut store, 999, req, "t".to_string()), Err(StoreError::NotFound));
}

#[test]
fn a_folder_draft_can_be_created_at_a_place() {
    let (mut store, _pid, gid) = setup();
    folder_drafts::create(&mut store, gid, folder_draft("a", None)).unwrap();
    folder_drafts::create(&mut store, gid, folder_draft("b", None)).unwrap();
    let c = folder_drafts::create(&mut store, gid, folder_draft("c", Some(1))).unwrap();
    assert_eq!(c.sort_order, Some(1));
    assert_eq!(names(&store, gid), named(&[("a", 0), ("c", 1), ("b", 2)]));
    let d = folder_drafts::create(&mut store, gid, folder_draft("d", Some(40))).unwrap();
    assert_eq!(d.sort_order, Some(3));
    let e = folder_drafts::create(&mut store, gid, folder_draft("e", Some(0))).unwrap();
    assert_eq!(e.sort_order, Some(0));
    assert_eq!(names(&store, gid), named(&[("e", 0), ("a", 1), ("c", 2), ("b", 3), ("d", 4)]));
}

#[test]
fn folder_drafts_swap_with_their_neighbours() {
    let (mut store, _pid, gid) = setup();
    let a = folder_drafts::create(&mut store, gid, folder_draft("a", None)).unwrap();
    let b = folder_drafts::create(&mut store, gid, folder_draft("b", None)).unwrap();
    let c = folder_drafts::create(&mut store, gid, folder_draft("c", None)).unwrap();
    folder_drafts::reorder(&mut store, c.id, "up").unwrap();
    assert_eq!(names(&store, gid), named(&[("a", 1), ("c", 2), ("b", 3)]));
    folder_drafts::reorder(&mut store, a.id, "up").unwrap();
    folder_drafts::reorder(&mut store, b.id, "down").unwrap();
    folder_drafts::reorder(&mut store, b.id, "sideways").unwrap();
    assert_eq!(names(&store, gid), named(&[("a", 1), ("c", 2), ("b", 3)]));
    folder_drafts::reorder(&mut store, a.id, "down").unwrap();
    assert_eq!(names(&store, gid), named(&[("c", 1), ("a", 2), ("b", 3)]));
    assert_eq!(folder_drafts::reorder(&mut store, 999, "up"), Err(StoreError::NotFound));
}

#[test]
fn folder_drafts_move_to_a_place() {
    let (mut store, _pid, gid) = setup();
    let a = folder_drafts::create(&mut store, gid, folder_draft("a", None)).unwrap();
    folder_drafts::create(&mut store, gid, folder_draft("b", None)).unwrap();
    folder_drafts::create(&mut store, gid, folder_draft("c", None)).unwrap();
    folder_drafts::move_to_index(&mut store, a.id, 1).unwrap();
    assert_eq!(names(&store, gid), named(&[("b", 0), ("a", 1), ("c", 2)]));
    folder_drafts::move_to_index(&mut store, a.id, 9).unwrap();
    assert_eq!(names(&store, gid), named(&[("b", 0), ("c", 1), ("a", 2)]));
    assert_eq!(folder_drafts::move_to_index(&mut store, 999, 0), Err(StoreError::NotFound));
}

#[test]
fn folder_drafts_are_changed_and_removed() {
    let (mut store, _pid, gid) = setup();
    let a = folder_drafts::create_at(&mut store, gid, folder_draft("a", None), "t1".to_string()).unwrap();
    let b = folder_drafts::create(&mut store, gid, folder_draft("b", None)).unwrap();
    let req = FolderDraftUpdate { name: None, content: Some("text".to_string()) };
    let changed = folder_drafts::update_at(&mut store, a.id, req, "t2".to_string()).unwrap();
    assert_eq!(changed.name, "a");
    assert_eq!(changed.content, "text");
    assert_eq!(changed.created_at, "t1");
    assert_eq!(changed.updated_at, "t2");
    let req = FolderDraftUpdate { name: Some("B".to_string()), content: None };
    assert_eq!(folder_drafts::update(&mut store, b.id, req).unwrap().name, "B");
    assert_eq!(folder_drafts::get(&store, a.id).unwrap().unwrap().content, "text");
    folder_drafts::delete(&mut store, a.id).unwrap();
    assert_eq!(folder_drafts::delete(&mut store, a.id), Err(StoreError::NotFound));
    assert_eq!(folder_drafts::get(&store, a.id).unwrap(), None);
    folder_drafts::delete_all_for_group(&mut store, gid).unwrap();
    assert_eq!(names(&store, gid), vec![]);
    folder_drafts::create(&mut store, gid, folder_draft("z", None)).unwrap();
    delete_doc_group(&mut store, gid).unwrap();
    assert_eq!(store.folder_drafts.len(), 0);
}

#[test]
fn project_drafts_are_listed_with_the_one_changed_last_first() {
    let (mut store, pid, _gid) = setup();
    let mk = |n: &str| ProjectDraftCreate { name: n.to_string(), content: "c".to_string() };
    let a = project_drafts::create_at(&mut store, pid, mk("a"), "2025-01-01".to_string()).unwrap();
    let b = project_drafts::create_at(&mut store, pid, mk("b"), "2025-01-02".to_string()).unwrap();
    let names = |s: &Store| -> Vec<String> {
        project_drafts::list(s, pid).unwrap().into_iter().map(|d| d.name).collect()
    };
    assert_eq!(names(&store), vec!["b", "a"]);
    let req = ProjectDraftUpdate { name: None, content: Some("new".to_string()) };
    let changed = project_drafts::update_at(&mut store, a.id, req, "2025-01-03".to_string()).unwrap();
    assert_eq!(changed.content, "new");
    assert_eq!(changed.created_at, "2025-01-01");
    assert_eq!(names(&store), vec!["a", "b"]);
    assert_eq!(project_drafts::get(&store, b.id).unwrap().unwrap().name, "b");
    project_drafts::delete(&mut store, b.id).unwrap();
    assert_eq!(project_drafts::delete(&mut store, b.id), Err(StoreError::NotFound));
    let made = project_drafts::create(&mut store, pid, mk("c")).unwrap();
    assert_eq!(made.created_at, made.updated_at);
    assert_eq!(project_drafts::create(&mut store, 999, mk("d")), Err(StoreError::NotFound));
    project_drafts::delete_all_for_project(&mut store, pid).unwrap();
    assert_eq!(names(&store), Vec::<String>::new());
    let req = ProjectDraftUpdate { name: None, content: None };
    assert_eq!(project_drafts::update(&mut store, a.id, req), Err(StoreError::NotFound));
}

#[test]
fn a_loaded_store_is_checked() {
    let (mut store, pid, gid) = setup();
    assert!(store.is_well_formed());
    store.groups[0].parent_id = Some(gid);
    assert!(!store.is_well_formed());
    store.groups[0].parent_id = None;
    store.groups[0].project_id = 500;
    assert!(!store.is_well_formed());
    store.groups[0].project_id = pid;
    store.next_id = gid;
    assert!(!store.is_well_formed());
    store.next_id = gid + 1;
    assert!(store.is_well_formed());
    store.doc_characters.push(cora::store::Link { owner: 1, item: 1 });
    store.doc_characters.push(cora::store::Link { owner: 1, item: 1 });
    assert!(!store.is_well_formed());
}
