use cora::characters;
use cora::doc_groups::create_doc_group;
use cora::docs::create_doc;
use cora::models::ProjectCreate;
use cora::projects;
use cora::store::{Store, StoreError};

fn create_test_db() -> Store {
    Store::new()
}

#[test]
fn test_create_project_with_notes() {
    let mut pool = create_test_db();
    let payload = ProjectCreate {
        name: "Project A".into(),
        desc: Some("Desc".into()),
        path: None,
        notes: Some("Project notes".into()),
    };
    let p = projects::create(&mut pool, payload).expect("create project");
    assert!(p.id > 0);
    assert_eq!(p.name, "Project A");
    assert_eq!(p.notes.as_deref(), Some("Project notes"));
}

#[test]
fn test_update_project_notes() {
    let mut pool = create_test_db();
    let payload = ProjectCreate { name: "P".into(), desc: None, path: None, notes: None };
    let p = projects::create(&mut pool, payload).expect("create");

    let updated = projects::update(&mut pool, p.id, None, None, None, Some("Updated".into())).expect("update");
    assert_eq!(updated.notes.as_deref(), Some("Updated"));

    let updated2 = projects::update(&mut pool, p.id, None, None, None, Some("Again".into())).expect("update 2");
    assert_eq!(updated2.notes.as_deref(), Some("Again"));
}

#[test]
fn projects_notes_tests_test_list_includes_notes() {
    let mut pool = create_test_db();
    let p1 = projects::create(&mut pool, ProjectCreate { name: "P1".into(), desc: None, path: None, notes: Some("N1".into()) }).expect("create 1");
    let p2 = projects::create(&mut pool, ProjectCreate { name: "P2".into(), desc: None, path: None, notes: Some("N2".into()) }).expect("create 2");

    let list = projects::list(&pool).expect("list");
    assert!(list.len() >= 2);
    let a = list.iter().find(|x| x.id == p1.id).expect("p1 missing");
    let b = list.iter().find(|x| x.id == p2.id).expect("p2 missing");
    assert_eq!(a.notes.as_deref(), Some("N1"));
    assert_eq!(b.notes.as_deref(), Some("N2"));
}

#[test]
fn test_get_returns_notes() {
    let mut pool = create_test_db();
    let p = projects::create(&mut pool, ProjectCreate { name: "P".into(), desc: None, path: None, notes: Some("Hello".into()) }).expect("create");
    let got = projects::get(&pool, p.id).expect("get").expect("not found");
    assert_eq!(got.notes.as_deref(), Some("Hello"));
}

#[test]
fn update_keeps_what_is_not_given_and_refuses_a_blank_name() {
    let mut store = Store::new();
    let payload = ProjectCreate { name: "P".into(), desc: Some("d".into()), path: Some("/x".into()), notes: None };
    let p = projects::create(&mut store, payload).unwrap();
    let q = projects::update(&mut store, p.id, Some("Q".into()), None, None, None).unwrap();
    assert_eq!(q.name, "Q");
    assert_eq!(q.desc.as_deref(), Some("d"));
    assert_eq!(q.path.as_deref(), Some("/x"));
    assert_eq!(projects::update(&mut store, p.id, Some(" \t".into()), None, None, None), Err(StoreError::EmptyName));
    assert_eq!(projects::update(&mut store, 77, None, None, None, None), Err(StoreError::NotFound));
    assert_eq!(projects::get(&store, p.id).unwrap().unwrap().name, "Q");
}

#[test]
fn delete_takes_everything_of_the_project_along() {
    let mut store = Store::new();
    let a = projects::create(&mut store, ProjectCreate { name: "A".into(), desc: None, path: None, notes: None }).unwrap();
    let b = projects::create(&mut store, ProjectCreate { name: "B".into(), desc: None, path: None, notes: None }).unwrap();
    let ga = create_doc_group(&mut store, a.id, "ga", None).unwrap();
    let gb = create_doc_group(&mut store, b.id, "gb", None).unwrap();
    let da = create_doc(&mut store, a.id, "da", Some(ga.id)).unwrap();
    let db = create_doc(&mut store, b.id, "db", Some(gb.id)).unwrap();
    let ca = characters::create(&mut store, a.id, "ca", None).unwrap();
    let cb = characters::create(&mut store, b.id, "cb", None).unwrap();
    characters::attach_to_doc(&mut store, da.id, ca.id).unwrap();
    characters::attach_to_doc(&mut store, db.id, cb.id).unwrap();
    characters::attach_to_doc(&mut store, db.id, ca.id).unwrap();

    assert_eq!(projects::delete(&mut store, a.id), Ok(true));
    assert_eq!(projects::delete(&mut store, a.id), Ok(false));
    assert_eq!(store.projects.len(), 1);
    assert_eq!(store.groups.len(), 1);
    assert_eq!(store.docs.len(), 1);
    assert_eq!(store.characters.len(), 1);
    assert_eq!(characters::list_for_doc(&store, db.id).unwrap(), vec![cb.id]);
    assert_eq!(store.groups[0].sort_order, Some(0));
}

#[test]
fn error_messages() {
    assert_eq!(StoreError::EmptyName.message(), "name cannot be empty");
    assert_eq!(StoreError::NotFound.message(), "not found");
    assert_eq!(StoreError::InvalidDirection.message(), "Invalid direction");
    assert_eq!(StoreError::Unordered.message(), "row has no sort order");
    assert_eq!(StoreError::Exhausted.message(), "store is full");
    assert_eq!(StoreError::NoFreeName.message(), "Failed to pick unique export folder name");
}
