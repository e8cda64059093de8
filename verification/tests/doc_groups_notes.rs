use cora::doc_groups::{create_doc_group, list_doc_groups, update_doc_group_notes};
use cora::models::ProjectCreate;
use cora::projects;
use cora::store::Store;

fn create_test_db() -> Store {
    Store::new()
}

fn create_test_project(pool: &mut Store) -> i64 {
    let payload = ProjectCreate { name: "Test Project".into(), desc: None, path: None, notes: None };
    projects::create(pool, payload).expect("insert").id
}

#[test]
fn test_create_doc_group_notes_null() {
    let mut pool = create_test_db();
    let pid = create_test_project(&mut pool);
    let g = create_doc_group(&mut pool, pid, "Folder", None).expect("create");
    assert_eq!(g.notes, None);
}

#[test]
fn doc_groups_notes_tests_test_list_includes_notes() {
    let mut pool = create_test_db();
    let pid = create_test_project(&mut pool);
    let g = create_doc_group(&mut pool, pid, "Folder A", None).expect("create");
    update_doc_group_notes(&mut pool, g.id, "Some notes").expect("update notes");

    let list = list_doc_groups(&pool, pid).expect("list");
    let found = list.iter().find(|x| x.id == g.id).expect("not found");
    assert_eq!(found.notes.as_deref(), Some("Some notes"));
}

#[test]
fn test_update_doc_group_notes() {
    let mut pool = create_test_db();
    let pid = create_test_project(&mut pool);
    let g = create_doc_group(&mut pool, pid, "Folder", None).expect("create");

    update_doc_group_notes(&mut pool, g.id, "First").expect("update 1");
    let list = list_doc_groups(&pool, pid).expect("list");
    let found = list.iter().find(|x| x.id == g.id).expect("not found");
    assert_eq!(found.notes.as_deref(), Some("First"));

    update_doc_group_notes(&mut pool, g.id, "Second").expect("update 2");
    let list = list_doc_groups(&pool, pid).expect("list");
    let found = list.iter().find(|x| x.id == g.id).expect("not found");
    assert_eq!(found.notes.as_deref(), Some("Second"));
}

#[test]
fn test_update_notes_empty_string() {
    let mut pool = create_test_db();
    let pid = create_test_project(&mut pool);
    let g = create_doc_group(&mut pool, pid, "Folder", None).expect("create");

    update_doc_group_notes(&mut pool, g.id, "").expect("update");
    let list = list_doc_groups(&pool, pid).expect("list");
    let found = list.iter().find(|x| x.id == g.id).expect("not found");
    assert_eq!(found.notes.as_deref(), Some(""));
}
