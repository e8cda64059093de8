use cora::doc_groups::create_doc_group;
use cora::characters;
use cora::models::ProjectCreate;
use cora::projects;
use cora::store::Store;

fn create_test_db() -> Store {
    Store::new()
}

fn create_test_project(pool: &mut Store) -> i64 {
    let payload = ProjectCreate { name: "Test Project".into(), desc: None, path: None, notes: None };
    projects::create(pool, payload).expect("insert").id
}

fn create_test_character(pool: &mut Store, project_id: i64, name: &str) -> i64 {
    characters::create(pool, project_id, name, None).expect("insert").id
}

fn create_test_doc_group(pool: &mut Store, project_id: i64, name: &str) -> i64 {
    create_doc_group(pool, project_id, name, None).expect("insert").id
}

#[test]
fn test_attach_character_to_doc_group() {
    let mut pool = create_test_db();
    let pid = create_test_project(&mut pool);
    let character_id = create_test_character(&mut pool, pid, "Hero");
    let group_id = create_test_doc_group(&mut pool, pid, "Chapter 1");

    characters::attach_to_doc_group(&mut pool, group_id, character_id).expect("attach");

    let list = characters::list_for_doc_group(&pool, group_id).expect("list");
    assert_eq!(list, vec![character_id]);
}

#[test]
fn test_detach_character_from_doc_group() {
    let mut pool = create_test_db();
    let pid = create_test_project(&mut pool);
    let character_id = create_test_character(&mut pool, pid, "Hero");
    let group_id = create_test_doc_group(&mut pool, pid, "Chapter 1");

    characters::attach_to_doc_group(&mut pool, group_id, character_id).expect("attach");
    let list = characters::list_for_doc_group(&pool, group_id).expect("list");
    assert_eq!(list.len(), 1);

    characters::detach_from_doc_group(&mut pool, group_id, character_id).expect("detach");
    let list = characters::list_for_doc_group(&pool, group_id).expect("list");
    assert_eq!(list.len(), 0);
}

#[test]
fn test_list_multiple_characters_for_doc_group() {
    let mut pool = create_test_db();
    let pid = create_test_project(&mut pool);
    let one = create_test_character(&mut pool, pid, "Hero");
    let two = create_test_character(&mut pool, pid, "Villain");
    let group_id = create_test_doc_group(&mut pool, pid, "Chapter 1");

    characters::attach_to_doc_group(&mut pool, group_id, one).expect("attach 1");
    characters::attach_to_doc_group(&mut pool, group_id, two).expect("attach 2");

    let list = characters::list_for_doc_group(&pool, group_id).expect("list");
    assert_eq!(list.len(), 2);
    assert!(list.contains(&one));
    assert!(list.contains(&two));
}

#[test]
fn doc_group_characters_tests_test_attach_idempotent() {
    let mut pool = create_test_db();
    let pid = create_test_project(&mut pool);
    let character_id = create_test_character(&mut pool, pid, "Hero");
    let group_id = create_test_doc_group(&mut pool, pid, "Chapter 1");

    characters::attach_to_doc_group(&mut pool, group_id, character_id).expect("attach 1");
    characters::attach_to_doc_group(&mut pool, group_id, character_id).expect("attach 2");

    let list = characters::list_for_doc_group(&pool, group_id).expect("list");
    assert_eq!(list.len(), 1);
}

#[test]
fn doc_group_characters_tests_test_detach_idempotent() {
    let mut pool = create_test_db();
    let pid = create_test_project(&mut pool);
    let character_id = create_test_character(&mut pool, pid, "Hero");
    let group_id = create_test_doc_group(&mut pool, pid, "Chapter 1");

    characters::detach_from_doc_group(&mut pool, group_id, character_id).expect("detach when not attached");

    let list = characters::list_for_doc_group(&pool, group_id).expect("list");
    assert_eq!(list.len(), 0);
}
