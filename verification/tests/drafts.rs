use cora::docs;
use cora::drafts::{
    create_draft, create_draft_at, delete_all_drafts_for_doc, delete_draft, get_draft, list_drafts,
    restore_draft_to_doc, update_draft, update_draft_at,
};
use cora::models::{DraftCreate, DraftUpdate, ProjectCreate};
use cora::projects;
use cora::store::{Store, StoreError};

fn make_pool() -> Store {
    Store::new()
}

fn project(pool: &mut Store) -> i64 {
    let payload = ProjectCreate { name: "Test Project".into(), desc: None, path: None, notes: None };
    projects::create(pool, payload).unwrap().id
}

fn doc(pool: &mut Store, project_id: i64, path: &str, name: &str, text: Option<&str>) -> i64 {
    docs::create(pool, project_id, path, Some(name.to_string()), None, text.map(|t| t.to_string())).unwrap().id
}

#[test]
fn test_create_draft() {
    let mut pool = make_pool();
    let project_id = project(&mut pool);
    let doc_id = doc(&mut pool, project_id, "test.md", "Test Doc", None);

    let draft = create_draft(
        &mut pool,
        doc_id,
        DraftCreate { name: "Draft 1".to_string(), content: "Draft content".to_string() },
    )
    .unwrap();

    assert_eq!(draft.doc_id, doc_id);
    assert_eq!(draft.name, "Draft 1");
    assert_eq!(draft.content, "Draft content");
}

#[test]
fn test_list_drafts() {
    let mut pool = make_pool();
    let project_id = project(&mut pool);
    let doc_id = doc(&mut pool, project_id, "test.md", "Test Doc", None);

    create_draft(
        &mut pool,
        doc_id,
        DraftCreate { name: "Draft 1".to_string(), content: "Content 1".to_string() },
    )
    .unwrap();

    create_draft(
        &mut pool,
        doc_id,
        DraftCreate { name: "Draft 2".to_string(), content: "Content 2".to_string() },
    )
    .unwrap();

    let drafts = list_drafts(&pool, doc_id).unwrap();
    assert_eq!(drafts.len(), 2);
    assert_eq!(drafts[0].name, "Draft 2"); // Most recent first
    assert_eq!(drafts[1].name, "Draft 1");
}

#[test]
fn test_update_draft() {
    let mut pool = make_pool();
    let project_id = project(&mut pool);
    let doc_id = doc(&mut pool, project_id, "test.md", "Test Doc", None);

    let draft = create_draft(
        &mut pool,
        doc_id,
        DraftCreate { name: "Original".to_string(), content: "Original content".to_string() },
    )
    .unwrap();

    let updated = update_draft(
        &mut pool,
        draft.id,
        DraftUpdate { name: Some("Updated".to_string()), content: Some("Updated content".to_string()) },
    )
    .unwrap();

    assert_eq!(updated.name, "Updated");
    assert_eq!(updated.content, "Updated content");
}

#[test]
fn test_delete_draft() {
    let mut pool = make_pool();
    let project_id = project(&mut pool);
    let doc_id = doc(&mut pool, project_id, "test.md", "Test Doc", None);

    let draft = create_draft(
        &mut pool,
        doc_id,
        DraftCreate { name: "Draft".to_string(), content: "Content".to_string() },
    )
    .unwrap();

    delete_draft(&mut pool, draft.id).unwrap();

    let found = get_draft(&pool, draft.id).unwrap();
    assert!(found.is_none());
}

#[test]
fn test_restore_draft_to_doc() {
    let mut pool = make_pool();
    let project_id = project(&mut pool);
    let doc_id = doc(&mut pool, project_id, "test.md", "Test Doc", Some("Original text"));

    let draft = create_draft(
        &mut pool,
        doc_id,
        DraftCreate { name: "Draft".to_string(), content: "Draft text".to_string() },
    )
    .unwrap();

    restore_draft_to_doc(&mut pool, draft.id).unwrap();

    let doc_text: String = docs::get_doc(&pool, doc_id).unwrap().unwrap().text.unwrap();

    assert_eq!(doc_text, "Draft text");
}

#[test]
fn test_multiple_drafts_per_doc() {
    let mut pool = make_pool();
    let project_id = project(&mut pool);
    let doc1_id = doc(&mut pool, project_id, "test1.md", "Doc 1", None);
    let doc2_id = doc(&mut pool, project_id, "test2.md", "Doc 2", None);

    for i in 1..=3 {
        create_draft(
            &mut pool,
            doc1_id,
            DraftCreate { name: format!("Draft {}", i), content: format!("Content {}", i) },
        )
        .unwrap();
    }

    create_draft(
        &mut pool,
        doc2_id,
        DraftCreate { name: "Draft A".to_string(), content: "Content A".to_string() },
    )
    .unwrap();

    let doc1_drafts = list_drafts(&pool, doc1_id).unwrap();
    let doc2_drafts = list_drafts(&pool, doc2_id).unwrap();

    assert_eq!(doc1_drafts.len(), 3);
    assert_eq!(doc2_drafts.len(), 1);
}

#[test]
fn drafts_are_listed_by_their_stamps_the_latest_first() {
    let mut store = Store::new();
    let pid = project(&mut store);
    let d = doc(&mut store, pid, "p", "n", None);
    let mk = |n: &str| DraftCreate { name: n.to_string(), content: String::new() };
    create_draft_at(&mut store, d, mk("middle"), "2025-01-02T00:00:00+00:00".to_string()).unwrap();
    create_draft_at(&mut store, d, mk("newest"), "2025-01-03T00:00:00.5+00:00".to_string()).unwrap();
    create_draft_at(&mut store, d, mk("oldest"), "2025-01-01T00:00:00+00:00".to_string()).unwrap();
    create_draft_at(&mut store, d, mk("newest too"), "2025-01-03T00:00:00.5+00:00".to_string()).unwrap();
    let names: Vec<String> = list_drafts(&store, d).unwrap().into_iter().map(|x| x.name).collect();
    assert_eq!(names, vec!["newest too", "newest", "middle", "oldest"]);
}

#[test]
fn a_draft_carries_one_stamp_until_it_is_changed() {
    let mut store = Store::new();
    let pid = project(&mut store);
    let d = doc(&mut store, pid, "p", "n", None);
    let made = create_draft(&mut store, d, DraftCreate { name: "a".into(), content: "b".into() }).unwrap();
    assert_eq!(made.created_at, made.updated_at);
    assert!(made.created_at.len() >= 20);
    let later = update_draft_at(&mut store, made.id, DraftUpdate { name: None, content: Some("c".into()) }, "later".to_string()).unwrap();
    assert_eq!(later.name, "a");
    assert_eq!(later.content, "c");
    assert_eq!(later.created_at, made.created_at);
    assert_eq!(later.updated_at, "later");
    assert_eq!(delete_draft(&mut store, 999), Err(StoreError::NotFound));
    assert_eq!(restore_draft_to_doc(&mut store, 999), Err(StoreError::NotFound));
    let req = DraftCreate { name: "a".into(), content: "b".into() };
    assert_eq!(create_draft(&mut store, 999, req), Err(StoreError::NotFound));
    delete_all_drafts_for_doc(&mut store, d).unwrap();
    assert_eq!(list_drafts(&store, d).unwrap().len(), 0);
}
