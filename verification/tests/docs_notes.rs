use cora::doc_groups::create_doc_group;
use cora::docs;
use cora::models::ProjectCreate;
use cora::projects;
use cora::store::Store;

fn create_test_db() -> Store {
    Store::new()
}

fn create_test_project(pool: &mut Store) -> i64 {
    let payload = ProjectCreate {
        name: "Test Project".into(),
        desc: Some("Test Description".into()),
        path: None,
        notes: None,
    };
    projects::create(pool, payload).expect("Failed to create project").id
}

fn create_test_group(pool: &mut Store, project_id: i64) -> i64 {
    let g = create_doc_group(pool, project_id, "Test Group", None).expect("Failed to create group");
    assert_eq!(g.sort_order, Some(0));
    g.id
}

#[test]
fn test_create_doc_with_notes() {
    let mut pool = create_test_db();
    let project_id = create_test_project(&mut pool);
    let group_id = create_test_group(&mut pool, project_id);

    let doc = docs::create_doc(&mut pool, project_id, "Test Doc", Some(group_id)).expect("Failed to create doc");

    assert_eq!(doc.id > 0, true);
    assert_eq!(doc.name, Some("Test Doc".to_string()));
    assert_eq!(doc.project_id, project_id);
    assert_eq!(doc.doc_group_id, Some(group_id));
    assert_eq!(doc.notes, None);
}

#[test]
fn test_get_doc_returns_notes() {
    let mut pool = create_test_db();
    let project_id = create_test_project(&mut pool);
    let group_id = create_test_group(&mut pool, project_id);

    let doc = docs::create_doc(&mut pool, project_id, "Test Doc", Some(group_id)).expect("Failed to create doc");

    docs::update_doc_notes(&mut pool, doc.id, "Test notes").expect("Failed to save notes");

    let retrieved = docs::get_doc(&pool, doc.id).expect("Failed to get doc").expect("Doc not found");

    assert_eq!(retrieved.notes, Some("Test notes".to_string()));
}

#[test]
fn test_update_doc_notes_empty_string() {
    let mut pool = create_test_db();
    let project_id = create_test_project(&mut pool);
    let group_id = create_test_group(&mut pool, project_id);

    let doc = docs::create_doc(&mut pool, project_id, "Test Doc", Some(group_id)).expect("Failed to create doc");

    docs::update_doc_notes(&mut pool, doc.id, "").expect("Failed to save notes");

    let retrieved = docs::get_doc(&pool, doc.id).expect("Failed to get doc").expect("Doc not found");

    assert_eq!(retrieved.notes, Some("".to_string()));
}

#[test]
fn docs_notes_tests_test_update_doc_notes_multiple_times() {
    let mut pool = create_test_db();
    let project_id = create_test_project(&mut pool);
    let group_id = create_test_group(&mut pool, project_id);

    let doc = docs::create_doc(&mut pool, project_id, "Test Doc", Some(group_id)).expect("Failed to create doc");

    docs::update_doc_notes(&mut pool, doc.id, "First note").expect("Failed to save first note");

    let retrieved1 = docs::get_doc(&pool, doc.id).expect("Failed to get doc").expect("Doc not found");
    assert_eq!(retrieved1.notes, Some("First note".to_string()));

    docs::update_doc_notes(&mut pool, doc.id, "Second note").expect("Failed to save second note");

    let retrieved2 = docs::get_doc(&pool, doc.id).expect("Failed to get doc").expect("Doc not found");
    assert_eq!(retrieved2.notes, Some("Second note".to_string()));
}

#[test]
fn test_update_doc_notes_with_special_characters() {
    let mut pool = create_test_db();
    let project_id = create_test_project(&mut pool);
    let group_id = create_test_group(&mut pool, project_id);

    let doc = docs::create_doc(&mut pool, project_id, "Test Doc", Some(group_id)).expect("Failed to create doc");

    let special_notes = "Notes with 'quotes' and \"double quotes\" and \n newlines \t tabs";
    docs::update_doc_notes(&mut pool, doc.id, special_notes).expect("Failed to save notes");

    let retrieved = docs::get_doc(&pool, doc.id).expect("Failed to get doc").expect("Doc not found");

    assert_eq!(retrieved.notes, Some(special_notes.to_string()));
}

#[test]
fn docs_notes_tests_test_list_docs_includes_notes() {
    let mut pool = create_test_db();
    let project_id = create_test_project(&mut pool);
    let group_id = create_test_group(&mut pool, project_id);

    let doc1 = docs::create_doc(&mut pool, project_id, "Doc 1", Some(group_id)).expect("Failed to create doc1");
    let doc2 = docs::create_doc(&mut pool, project_id, "Doc 2", Some(group_id)).expect("Failed to create doc2");

    docs::update_doc_notes(&mut pool, doc1.id, "Notes for doc 1").expect("Failed to save notes for doc1");
    docs::update_doc_notes(&mut pool, doc2.id, "Notes for doc 2").expect("Failed to save notes for doc2");

    let docs_list = docs::list_docs(&pool, project_id).expect("Failed to list docs");

    assert_eq!(docs_list.len(), 2);

    let doc1_retrieved = docs_list.iter().find(|d| d.id == doc1.id).expect("Doc1 not found");
    assert_eq!(doc1_retrieved.notes, Some("Notes for doc 1".to_string()));

    let doc2_retrieved = docs_list.iter().find(|d| d.id == doc2.id).expect("Doc2 not found");
    assert_eq!(doc2_retrieved.notes, Some("Notes for doc 2".to_string()));
}

#[test]
fn test_delete_doc_with_notes() {
    let mut pool = create_test_db();
    let project_id = create_test_project(&mut pool);
    let group_id = create_test_group(&mut pool, project_id);

    let doc = docs::create_doc(&mut pool, project_id, "Test Doc", Some(group_id)).expect("Failed to create doc");

    docs::update_doc_notes(&mut pool, doc.id, "Important notes").expect("Failed to save notes");

    docs::delete_doc(&mut pool, doc.id).expect("Failed to delete doc");

    let retrieved = docs::get_doc(&pool, doc.id).expect("Failed to get doc");
    assert_eq!(retrieved, None);
}

#[test]
fn test_update_doc_notes_nonexistent_doc() {
    let mut pool = create_test_db();

    let result = docs::update_doc_notes(&mut pool, 99999, "Some notes");
    assert!(result.is_ok());
}

#[test]
fn test_notes_field_in_multiple_operations() {
    let mut pool = create_test_db();
    let project_id = create_test_project(&mut pool);
    let group_id = create_test_group(&mut pool, project_id);

    let doc = docs::create_doc(&mut pool, project_id, "Doc", Some(group_id)).expect("Failed to create");

    docs::update_doc_text(&mut pool, doc.id, "Updated text").expect("Failed to update text");
    docs::update_doc_notes(&mut pool, doc.id, "Updated notes").expect("Failed to update notes");

    let retrieved = docs::get_doc(&pool, doc.id).expect("Failed to get").expect("Not found");

    assert_eq!(retrieved.text, Some("Updated text".to_string()));
    assert_eq!(retrieved.notes, Some("Updated notes".to_string()));
}

#[test]
fn docs_notes_tests_test_very_long_notes() {
    let mut pool = create_test_db();
    let project_id = create_test_project(&mut pool);
    let group_id = create_test_group(&mut pool, project_id);

    let doc = docs::create_doc(&mut pool, project_id, "Test Doc", Some(group_id)).expect("Failed to create doc");

    let long_notes = "x".repeat(10240);
    docs::update_doc_notes(&mut pool, doc.id, &long_notes).expect("Failed to save long notes");

    let retrieved = docs::get_doc(&pool, doc.id).expect("Failed to get doc").expect("Doc not found");

    assert_eq!(retrieved.notes.unwrap().len(), 10240);
}
