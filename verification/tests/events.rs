use cora::events::{create, get, list, update};
use cora::models::ProjectCreate;
use cora::projects;
use cora::store::Store;

fn make_pool() -> Store {
    Store::new()
}

#[test]
fn event_create_get() {
    let mut pool = make_pool();
    let payload = ProjectCreate { name: "P".into(), desc: None, path: None, notes: None };
    let project_id = projects::create(&mut pool, payload).unwrap().id;

    let event = create(&mut pool, project_id, "Battle", Some("Big battle".into()), Some("2025-01-01".into()), Some("2025-01-02".into()), None).unwrap();
    let got = get(&pool, event.id).unwrap().unwrap();
    assert_eq!(got.project_id, project_id);
}

#[test]
fn events_are_listed_in_the_order_of_their_creation() {
    let mut store = Store::new();
    let payload = ProjectCreate { name: "P".into(), desc: None, path: None, notes: None };
    let pid = projects::create(&mut store, payload).unwrap().id;
    let b = create(&mut store, pid, "b", None, None, None, Some("1999".into())).unwrap();
    let a = create(&mut store, pid, "a", None, None, None, None).unwrap();
    let ids: Vec<i64> = list(&store, pid).unwrap().iter().map(|e| e.id).collect();
    assert_eq!(ids, vec![b.id, a.id]);
    let changed = update(&mut store, b.id, None, Some("desc".into()), Some("2000".into()), None).unwrap();
    assert_eq!(changed.name, "b");
    assert_eq!(changed.desc.as_deref(), Some("desc"));
    assert_eq!(changed.date.as_deref(), Some("1999"));
    assert_eq!(changed.start_date.as_deref(), Some("2000"));
    assert_eq!(changed.end_date, None);
}
