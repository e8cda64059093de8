use cora::characters::{
    attach_to_doc, create, delete_, get, list, list_for_doc, list_from_docs_in_group, update,
};
use cora::doc_groups::create_doc_group;
use cora::docs;
use cora::models::ProjectCreate;
use cora::projects;
use cora::store::{Store, StoreError};

fn create_unique_test_db(_name: &str) -> Store {
    Store::new()
}

fn project(pool: &mut Store) -> i64 {
    let payload = ProjectCreate { name: "P".into(), desc: None, path: None, notes: None };
    projects::create(pool, payload).unwrap().id
}

#[test]
fn character_create_get() {
    let mut pool = create_unique_test_db("char_create_get");
    let project_id = project(&mut pool);

    let character = create(&mut pool, project_id, "Alice", Some("Protagonist".into())).unwrap();
    let got = get(&pool, character.id).unwrap().unwrap();
    assert_eq!(got.name, "Alice");
}

#[test]
fn characters_test_list_from_docs_in_group() {
    let mut pool = create_unique_test_db("list_from_docs");
    let project_id = project(&mut pool);

    let folder_id = create_doc_group(&mut pool, project_id, "Folder", None).unwrap().id;

    let doc1_id = docs::create_doc(&mut pool, project_id, "doc1.txt", Some(folder_id)).unwrap().id;
    let doc2_id = docs::create_doc(&mut pool, project_id, "doc2.txt", Some(folder_id)).unwrap().id;

    let char1 = create(&mut pool, project_id, "Alice", None).unwrap();
    let char2 = create(&mut pool, project_id, "Bob", None).unwrap();
    let char3 = create(&mut pool, project_id, "Charlie", None).unwrap();

    attach_to_doc(&mut pool, doc1_id, char1.id).unwrap();
    attach_to_doc(&mut pool, doc1_id, char2.id).unwrap();
    attach_to_doc(&mut pool, doc2_id, char2.id).unwrap();
    attach_to_doc(&mut pool, doc2_id, char3.id).unwrap();

    let ids = list_from_docs_in_group(&pool, folder_id).unwrap();
    assert_eq!(ids.len(), 3);
    assert!(ids.contains(&char1.id));
    assert!(ids.contains(&char2.id));
    assert!(ids.contains(&char3.id));
}

#[test]
fn characters_are_listed_by_name_without_regard_to_case() {
    let mut store = Store::new();
    let pid = project(&mut store);
    let other = project(&mut store);
    for name in ["bob", "Alice", "alice", "Zed", "carol"] {
        create(&mut store, pid, name, None).unwrap();
    }
    create(&mut store, other, "Aaron", None).unwrap();
    let names: Vec<String> = list(&store, pid).unwrap().into_iter().map(|c| c.name).collect();
    assert_eq!(names, vec!["Alice", "alice", "bob", "carol", "Zed"]);
}

#[test]
fn a_blank_name_is_refused_and_a_deleted_character_is_detached() {
    let mut store = Store::new();
    let pid = project(&mut store);
    assert_eq!(create(&mut store, pid, " \n", None), Err(StoreError::EmptyName));
    assert_eq!(create(&mut store, 99, "x", None), Err(StoreError::NotFound));
    let a = create(&mut store, pid, "a", Some("d".into())).unwrap();
    let b = create(&mut store, pid, "b", None).unwrap();
    let doc = docs::create_doc(&mut store, pid, "doc", None).unwrap();
    attach_to_doc(&mut store, doc.id, a.id).unwrap();
    attach_to_doc(&mut store, doc.id, b.id).unwrap();
    assert_eq!(attach_to_doc(&mut store, doc.id, 1234), Err(StoreError::NotFound));
    let changed = update(&mut store, a.id, Some("A".into()), None).unwrap();
    assert_eq!(changed.name, "A");
    assert_eq!(changed.desc.as_deref(), Some("d"));
    assert_eq!(update(&mut store, 4321, None, None), Err(StoreError::NotFound));
    delete_(&mut store, a.id).unwrap();
    delete_(&mut store, a.id).unwrap();
    assert_eq!(list_for_doc(&store, doc.id).unwrap(), vec![b.id]);
    assert_eq!(get(&store, a.id).unwrap(), None);
}
