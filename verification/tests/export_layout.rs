use cora::doc_groups::create_doc_group;
use cora::docs::{create_doc, update_doc};
use cora::drafts::create_draft_at;
use cora::export::{plan_export, ExportEntry};
use cora::models::{DraftCreate, ProjectCreate};
use cora::projects;
use cora::store::{Store, StoreError};
use cora::text::sanitize;

fn paths(entries: &[ExportEntry]) -> Vec<String> {
    entries.iter().map(|e| e.path.join("/")).collect()
}

#[test]
fn one_group_two_documents_one_draft() {
    let mut store = Store::new();
    let payload = ProjectCreate { name: "Book".to_string(), desc: None, path: None, notes: None };
    let pid = projects::create(&mut store, payload).unwrap().id;
    let group = create_doc_group(&mut store, pid, "Part I", None).unwrap();
    let doc1 = create_doc(&mut store, pid, "Ch1", Some(group.id)).unwrap();
    let _doc2 = create_doc(&mut store, pid, "Ch2", Some(group.id)).unwrap();
    update_doc(&mut store, doc1.id, "It was a dark night.").unwrap();
    let req = DraftCreate { name: "first".to_string(), content: "It was night.".to_string() };
    create_draft_at(&mut store, doc1.id, req, "2025-01-01T00:00:00+00:00".to_string()).unwrap();

    let plan = plan_export(&store, pid).unwrap();
    let mut got = paths(&plan);
    got.sort();
    assert_eq!(
        got,
        vec![
            "1 Part I".to_string(),
            "1 Part I/1.1 Ch1 draft-1.txt".to_string(),
            "1 Part I/1.1 Ch1.txt".to_string(),
            "1 Part I/1.2 Ch2.txt".to_string(),
        ]
    );
    let file = plan.iter().find(|e| e.path.join("/") == "1 Part I/1.1 Ch1.txt").unwrap();
    assert_eq!(file.content, Some("It was a dark night.".to_string()));
    let draft = plan.iter().find(|e| e.path.join("/") == "1 Part I/1.1 Ch1 draft-1.txt").unwrap();
    assert_eq!(draft.content, Some("It was night.".to_string()));
    let dir = plan.iter().find(|e| e.path.join("/") == "1 Part I").unwrap();
    assert_eq!(dir.content, None);
}

#[test]
fn nested_groups_restart_their_numbers() {
    let mut store = Store::new();
    let payload = ProjectCreate { name: "Book".to_string(), desc: None, path: None, notes: None };
    let pid = projects::create(&mut store, payload).unwrap().id;
    let a = create_doc_group(&mut store, pid, "A", None).unwrap();
    let b = create_doc_group(&mut store, pid, "B", None).unwrap();
    let inner = create_doc_group(&mut store, pid, "In: side?", Some(b.id)).unwrap();
    create_doc(&mut store, pid, "  ", Some(inner.id)).unwrap();
    create_doc(&mut store, pid, "loose", None).unwrap();
    let _ = a;
    let plan = plan_export(&store, pid).unwrap();
    assert_eq!(
        paths(&plan),
        vec![
            "1 A".to_string(),
            "2 B".to_string(),
            "2 B/1 In_ side_".to_string(),
            "2 B/1 In_ side_/1.1 Untitled.txt".to_string(),
        ]
    );
}

#[test]
fn export_of_a_missing_project_fails() {
    let store = Store::new();
    assert_eq!(plan_export(&store, 7), Err(StoreError::NotFound));
}

#[test]
fn sanitize_trims_and_replaces() {
    assert_eq!(sanitize("  a/b\\c:d*e?f\"g<h>i|j \t"), "a_b_c_d_e_f_g_h_i_j");
    assert_eq!(sanitize(" \u{3000}\n"), "Untitled");
    assert_eq!(sanitize(""), "Untitled");
    assert_eq!(sanitize("plain"), "plain");
}
