use cora::doc_groups::create_doc_group;
use cora::docs;
use cora::events;
use cora::models::ProjectCreate;
use cora::projects;
use cora::store::Store;

fn create_test_db() -> Store {
    Store::new()
}

fn create_test_project(pool: &mut Store) -> i64 {
    let payload = ProjectCreate { name: "Test Project".into(), desc: None, path: None, notes: None };
    projects::create(pool, payload).expect("insert").id
}

fn create_test_event(pool: &mut Store, project_id: i64, name: &str) -> i64 {
    events::create(pool, project_id, name, None, None, None, None).expect("insert").id
}

fn create_test_doc_group(pool: &mut Store, project_id: i64, name: &str) -> i64 {
    create_doc_group(pool, project_id, name, None).expect("insert").id
}

#[test]
fn test_attach_event_to_doc_group() {
    let mut pool = create_test_db();
    let pid = create_test_project(&mut pool);
    let event_id = create_test_event(&mut pool, pid, "Battle");
    let group_id = create_test_doc_group(&mut pool, pid, "Chapter 1");

    events::attach_to_doc_group(&mut pool, group_id, event_id).expect("attach");

    let list = events::list_for_doc_group(&pool, group_id).expect("list");
    assert_eq!(list, vec![event_id]);
}

#[test]
fn test_detach_event_from_doc_group() {
    let mut pool = create_test_db();
    let pid = create_test_project(&mut pool);
    let event_id = create_test_event(&mut pool, pid, "Battle");
    let group_id = create_test_doc_group(&mut pool, pid, "Chapter 1");

    events::attach_to_doc_group(&mut pool, group_id, event_id).expect("attach");
    let list = events::list_for_doc_group(&pool, group_id).expect("list");
    assert_eq!(list.len(), 1);

    events::detach_from_doc_group(&mut pool, group_id, event_id).expect("detach");
    let list = events::list_for_doc_group(&pool, group_id).expect("list");
    assert_eq!(list.len(), 0);
}

#[test]
fn test_list_multiple_events_for_doc_group() {
    let mut pool = create_test_db();
    let pid = create_test_project(&mut pool);
    let one = create_test_event(&mut pool, pid, "Battle");
    let two = create_test_event(&mut pool, pid, "Meeting");
    let group_id = create_test_doc_group(&mut pool, pid, "Chapter 1");

    events::attach_to_doc_group(&mut pool, group_id, one).expect("attach 1");
    events::attach_to_doc_group(&mut pool, group_id, two).expect("attach 2");

    let list = events::list_for_doc_group(&pool, group_id).expect("list");
    assert_eq!(list.len(), 2);
    assert!(list.contains(&one));
    assert!(list.contains(&two));
}

#[test]
fn doc_group_events_tests_test_attach_idempotent() {
    let mut pool = create_test_db();
    let pid = create_test_project(&mut pool);
    let event_id = create_test_event(&mut pool, pid, "Battle");
    let group_id = create_test_doc_group(&mut pool, pid, "Chapter 1");

    events::attach_to_doc_group(&mut pool, group_id, event_id).expect("attach 1");
    events::attach_to_doc_group(&mut pool, group_id, event_id).expect("attach 2");

    let list = events::list_for_doc_group(&pool, group_id).expect("list");
    assert_eq!(list.len(), 1);
}

#[test]
fn doc_group_events_tests_test_detach_idempotent() {
    let mut pool = create_test_db();
    let pid = create_test_project(&mut pool);
    let event_id = create_test_event(&mut pool, pid, "Battle");
    let group_id = create_test_doc_group(&mut pool, pid, "Chapter 1");

    events::detach_from_doc_group(&mut pool, group_id, event_id).expect("detach when not attached");

    let list = events::list_for_doc_group(&pool, group_id).expect("list");
    assert_eq!(list.len(), 0);
}

#[test]
fn doc_group_events_tests_test_list_from_docs_in_group() {
    let mut pool = create_test_db();
    let pid = create_test_project(&mut pool);

    let group_id = create_test_doc_group(&mut pool, pid, "Chapter 1");

    let doc1_id = docs::create_doc(&mut pool, pid, "doc1.txt", Some(group_id)).expect("insert doc1").id;
    let doc2_id = docs::create_doc(&mut pool, pid, "doc2.txt", Some(group_id)).expect("insert doc2").id;

    let event1 = create_test_event(&mut pool, pid, "Battle");
    let event2 = create_test_event(&mut pool, pid, "Meeting");
    let event3 = create_test_event(&mut pool, pid, "Festival");

    events::attach_to_doc(&mut pool, doc1_id, event1).expect("attach event1 to doc1");
    events::attach_to_doc(&mut pool, doc1_id, event2).expect("attach event2 to doc1");
    events::attach_to_doc(&mut pool, doc2_id, event2).expect("attach event2 to doc2");
    events::attach_to_doc(&mut pool, doc2_id, event3).expect("attach event3 to doc2");

    let ids = events::list_from_docs_in_group(&pool, group_id).expect("list from docs");
    assert_eq!(ids.len(), 3);
    assert!(ids.contains(&event1));
    assert!(ids.contains(&event2));
    assert!(ids.contains(&event3));
}
