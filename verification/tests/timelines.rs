use cora::models::{TimelineCreate, TimelineUpdate};
use cora::store::{Store, StoreError};
use cora::timelines::{create, delete, delete_by_entity, get, get_by_entity, list, update};

fn setup_test_pool() -> Result<Store, StoreError> {
    Ok(Store::new())
}

#[test]
fn test_create_timeline() {
    let mut pool = setup_test_pool().unwrap();

    let payload = TimelineCreate {
        entity_type: "project".to_string(),
        entity_id: 1,
        start_date: Some("2025-01-01".to_string()),
        end_date: Some("2025-12-31".to_string()),
    };

    let result = create(&mut pool, payload).unwrap();

    assert_eq!(result.entity_type, "project");
    assert_eq!(result.entity_id, 1);
    assert_eq!(result.start_date, Some("2025-01-01".to_string()));
}

#[test]
fn test_upsert_behavior() {
    let mut pool = setup_test_pool().unwrap();

    let payload1 = TimelineCreate {
        entity_type: "project".to_string(),
        entity_id: 1,
        start_date: Some("2025-01-01".to_string()),
        end_date: Some("2025-06-30".to_string()),
    };
    let timeline1 = create(&mut pool, payload1).unwrap();

    let payload2 = TimelineCreate {
        entity_type: "project".to_string(),
        entity_id: 1,
        start_date: Some("2025-02-01".to_string()),
        end_date: Some("2025-12-31".to_string()),
    };
    let timeline2 = create(&mut pool, payload2).unwrap();

    assert_eq!(timeline1.id, timeline2.id);
    assert_eq!(timeline2.start_date, Some("2025-02-01".to_string()));
}

#[test]
fn test_get_timeline() {
    let mut pool = setup_test_pool().unwrap();

    let payload = TimelineCreate {
        entity_type: "doc".to_string(),
        entity_id: 5,
        start_date: Some("2025-03-01".to_string()),
        end_date: Some("2025-03-31".to_string()),
    };
    let created = create(&mut pool, payload).unwrap();

    let fetched = get(&pool, created.id).unwrap().unwrap();

    assert_eq!(fetched.id, created.id);
    assert_eq!(fetched.entity_type, "doc");
}

#[test]
fn test_get_by_entity() {
    let mut pool = setup_test_pool().unwrap();

    let payload = TimelineCreate {
        entity_type: "event".to_string(),
        entity_id: 10,
        start_date: Some("2025-04-01".to_string()),
        end_date: Some("2025-04-15".to_string()),
    };
    create(&mut pool, payload).unwrap();

    let fetched = get_by_entity(&pool, "event", 10).unwrap().unwrap();

    assert_eq!(fetched.entity_type, "event");
    assert_eq!(fetched.entity_id, 10);
}

#[test]
fn test_delete_timeline() {
    let mut pool = setup_test_pool().unwrap();

    let payload = TimelineCreate {
        entity_type: "doc".to_string(),
        entity_id: 8,
        start_date: Some("2025-06-01".to_string()),
        end_date: Some("2025-06-30".to_string()),
    };
    let created = create(&mut pool, payload).unwrap();

    delete(&mut pool, created.id).unwrap();

    let fetched = get(&pool, created.id).unwrap();
    assert!(fetched.is_none());
}

#[test]
fn timelines_update_list_and_delete_by_entity() {
    let mut store = Store::new();
    let mk = |t: &str, id: i64| TimelineCreate { entity_type: t.to_string(), entity_id: id, start_date: Some("s".into()), end_date: None };
    let a = create(&mut store, mk("doc", 1)).unwrap();
    let b = create(&mut store, mk("folder", 1)).unwrap();
    assert_ne!(a.id, b.id);
    let changed = update(&mut store, a.id, TimelineUpdate { start_date: None, end_date: Some("e".into()) }).unwrap();
    assert_eq!(changed.start_date.as_deref(), Some("s"));
    assert_eq!(changed.end_date.as_deref(), Some("e"));
    assert_eq!(update(&mut store, 99, TimelineUpdate { start_date: None, end_date: None }), Err(StoreError::NotFound));
    assert_eq!(list(&store).unwrap().len(), 2);
    delete_by_entity(&mut store, "doc", 1).unwrap();
    delete_by_entity(&mut store, "doc", 1).unwrap();
    assert_eq!(list(&store).unwrap().len(), 1);
    assert_eq!(get_by_entity(&store, "doc", 1).unwrap(), None);
    assert_eq!(delete(&mut store, a.id), Err(StoreError::NotFound));
}
