use cora::docs::{create, get, list_docs, update_doc, update_doc_notes};
use cora::models::ProjectCreate;
use cora::projects;
use cora::store::Store;

fn make_pool() -> Store {
    Store::new()
}

fn project(pool: &mut Store) -> i64 {
    let payload = ProjectCreate { name: "P".into(), desc: None, path: None, notes: None };
    projects::create(pool, payload).unwrap().id
}

#[test]
fn doc_create_get() {
    let mut pool = make_pool();
    let project_id = project(&mut pool);

    let doc = create(&mut pool, project_id, "notes/ch1.md", Some("Chapter 1".into()), None, Some("hello".into())).unwrap();
    assert_eq!(doc.project_id, project_id);
    let got = get(&pool, doc.id).unwrap().unwrap();
    assert_eq!(got.path, "notes/ch1.md");
}

#[test]
fn test_update_doc_notes() {
    let mut pool = make_pool();
    let project_id = project(&mut pool);

    let doc = create(&mut pool, project_id, "test.md", Some("Test".into()), None, None).unwrap();

    update_doc_notes(&mut pool, doc.id, "Important notes").unwrap();

    let updated = get(&pool, doc.id).unwrap().unwrap();
    assert_eq!(updated.notes, Some("Important notes".to_string()));
}

#[test]
fn docs_test_update_doc_notes_multiple_times() {
    let mut pool = make_pool();
    let project_id = project(&mut pool);

    let doc = create(&mut pool, project_id, "test.md", Some("Test".into()), None, None).unwrap();

    update_doc_notes(&mut pool, doc.id, "First notes").unwrap();
    let after_first = get(&pool, doc.id).unwrap().unwrap();
    assert_eq!(after_first.notes, Some("First notes".to_string()));

    update_doc_notes(&mut pool, doc.id, "Second notes").unwrap();
    let after_second = get(&pool, doc.id).unwrap().unwrap();
    assert_eq!(after_second.notes, Some("Second notes".to_string()));
}

#[test]
fn test_notes_with_special_characters() {
    let mut pool = make_pool();
    let project_id = project(&mut pool);

    let doc = create(&mut pool, project_id, "test.md", Some("Test".into()), None, None).unwrap();

    let special_notes = "Notes with 'quotes' and \"double\" and \n newlines \t tabs";
    update_doc_notes(&mut pool, doc.id, special_notes).unwrap();

    let updated = get(&pool, doc.id).unwrap().unwrap();
    assert_eq!(updated.notes, Some(special_notes.to_string()));
}

#[test]
fn docs_test_list_docs_includes_notes() {
    let mut pool = make_pool();
    let project_id = project(&mut pool);

    let doc1 = create(&mut pool, project_id, "doc1.md", Some("Doc1".into()), None, None).unwrap();
    let doc2 = create(&mut pool, project_id, "doc2.md", Some("Doc2".into()), None, None).unwrap();

    update_doc_notes(&mut pool, doc1.id, "Notes for doc 1").unwrap();
    update_doc_notes(&mut pool, doc2.id, "Notes for doc 2").unwrap();

    let all_docs = list_docs(&pool, project_id).unwrap();
    assert_eq!(all_docs.len(), 2);

    let doc1_from_list = all_docs.iter().find(|d| d.id == doc1.id).unwrap();
    assert_eq!(doc1_from_list.notes, Some("Notes for doc 1".to_string()));

    let doc2_from_list = all_docs.iter().find(|d| d.id == doc2.id).unwrap();
    assert_eq!(doc2_from_list.notes, Some("Notes for doc 2".to_string()));
}

#[test]
fn test_empty_notes() {
    let mut pool = make_pool();
    let project_id = project(&mut pool);

    let doc = create(&mut pool, project_id, "test.md", Some("Test".into()), None, None).unwrap();

    update_doc_notes(&mut pool, doc.id, "").unwrap();

    let updated = get(&pool, doc.id).unwrap().unwrap();
    assert_eq!(updated.notes, Some("".to_string()));
}

#[test]
fn docs_test_very_long_notes() {
    let mut pool = make_pool();
    let project_id = project(&mut pool);

    let doc = create(&mut pool, project_id, "test.md", Some("Test".into()), None, None).unwrap();

    let long_notes = "x".repeat(10240);
    update_doc_notes(&mut pool, doc.id, &long_notes).unwrap();

    let updated = get(&pool, doc.id).unwrap().unwrap();
    assert_eq!(updated.notes.unwrap().len(), 10240);
}

#[test]
fn test_notes_persist_across_other_updates() {
    let mut pool = make_pool();
    let project_id = project(&mut pool);

    let doc = create(&mut pool, project_id, "test.md", Some("Test".into()), None, None).unwrap();

    update_doc_notes(&mut pool, doc.id, "Preserved notes").unwrap();
    update_doc(&mut pool, doc.id, "Updated text").unwrap();

    let updated = get(&pool, doc.id).unwrap().unwrap();
    assert_eq!(updated.notes, Some("Preserved notes".to_string()));
    assert_eq!(updated.text, Some("Updated text".to_string()));
}
