use cora::characters;
use cora::doc_groups::{create_doc_group, list_doc_groups, reorder_doc_group, update_doc_group_notes};
use cora::docs::{create_doc, list_docs, update_doc, update_doc_notes};
use cora::drafts::{create_draft_at, list_drafts};
use cora::events;
use cora::import::{choose_strategy, import_manifest_at, Strategy};
use cora::manifest::{build_manifest, Manifest};
use cora::models::{DraftCreate, ProjectCreate, TimelineCreate};
use cora::places;
use cora::projects;
use cora::store::{Store, StoreError};
use cora::timelines;

fn sample() -> (Store, i64) {
    let mut store = Store::new();
    let payload = ProjectCreate {
        name: "Book".to_string(),
        desc: Some("a novel".to_string()),
        path: None,
        notes: Some("keep it short".to_string()),
    };
    let pid = projects::create(&mut store, payload).unwrap().id;
    let part1 = create_doc_group(&mut store, pid, "Part I", None).unwrap();
    let part2 = create_doc_group(&mut store, pid, "Part II", None).unwrap();
    let inner = create_doc_group(&mut store, pid, "Interlude", Some(part1.id)).unwrap();
    update_doc_group_notes(&mut store, part1.id, "folder notes").unwrap();
    reorder_doc_group(&mut store, part2.id, "up").unwrap();
    let ch1 = create_doc(&mut store, pid, "Ch1", Some(part1.id)).unwrap();
    let ch2 = create_doc(&mut store, pid, "Ch2", Some(part1.id)).unwrap();
    let ch3 = create_doc(&mut store, pid, "Ch3", Some(inner.id)).unwrap();
    let loose = create_doc(&mut store, pid, "Loose", None).unwrap();
    update_doc(&mut store, ch1.id, "one").unwrap();
    update_doc(&mut store, ch2.id, "two").unwrap();
    update_doc_notes(&mut store, ch2.id, "n2").unwrap();
    let _ = (ch3, loose);
    let alice = characters::create(&mut store, pid, "alice", None).unwrap();
    let bob = characters::create(&mut store, pid, "Bob", Some("tall".to_string())).unwrap();
    let fair = events::create(&mut store, pid, "Fair", None, Some("2025-01-01".to_string()), None, None).unwrap();
    let mill = places::create(&mut store, pid, "Mill", None).unwrap();
    characters::attach_to_doc(&mut store, ch1.id, alice.id).unwrap();
    characters::attach_to_doc(&mut store, ch2.id, alice.id).unwrap();
    characters::attach_to_doc(&mut store, ch2.id, bob.id).unwrap();
    events::attach_to_doc(&mut store, ch1.id, fair.id).unwrap();
    places::attach_to_doc(&mut store, ch2.id, mill.id).unwrap();
    let req = DraftCreate { name: "d1".to_string(), content: "older".to_string() };
    create_draft_at(&mut store, ch1.id, req, "2025-01-01T00:00:00+00:00".to_string()).unwrap();
    let req = DraftCreate { name: "d2".to_string(), content: "newer".to_string() };
    create_draft_at(&mut store, ch1.id, req, "2025-01-02T00:00:00+00:00".to_string()).unwrap();
    let tl = TimelineCreate {
        entity_type: "project".to_string(),
        entity_id: pid,
        start_date: Some("2025-01-01".to_string()),
        end_date: None,
    };
    timelines::create(&mut store, tl).unwrap();
    let tl = TimelineCreate {
        entity_type: "doc".to_string(),
        entity_id: ch2.id,
        start_date: None,
        end_date: Some("2025-02-01".to_string()),
    };
    timelines::create(&mut store, tl).unwrap();
    (store, pid)
}

fn manifest_of(store: &Store, pid: i64) -> Manifest {
    build_manifest(store, pid, "2025-03-01T00:00:00+00:00".to_string()).unwrap()
}

/// (name, name of the parent, sort order) of every folder, sorted.
fn group_shape(store: &Store, pid: i64) -> Vec<(String, Option<String>, Option<i64>)> {
    let groups = list_doc_groups(store, pid).unwrap();
    let mut out: Vec<_> = groups
        .iter()
        .map(|g| {
            let parent = g.parent_id.map(|p| groups.iter().find(|x| x.id == p).unwrap().name.clone());
            (g.name.clone(), parent, g.sort_order)
        })
        .collect();
    out.sort();
    out
}

/// (name, name of the folder, sort order, text, notes) of every document, sorted.
fn doc_shape(store: &Store, pid: i64) -> Vec<(Option<String>, Option<String>, Option<i64>, Option<String>, Option<String>)> {
    let groups = list_doc_groups(store, pid).unwrap();
    let mut out: Vec<_> = list_docs(store, pid)
        .unwrap()
        .iter()
        .map(|d| {
            let folder = d.doc_group_id.map(|g| groups.iter().find(|x| x.id == g).unwrap().name.clone());
            (d.name.clone(), folder, d.sort_order, d.text.clone(), d.notes.clone())
        })
        .collect();
    out.sort();
    out
}

/// (name of the document, name of the character) of every link, sorted.
fn character_links(store: &Store, pid: i64) -> Vec<(Option<String>, String)> {
    let cast = characters::list(store, pid).unwrap();
    let mut out = Vec::new();
    for d in list_docs(store, pid).unwrap() {
        for c in characters::list_for_doc(store, d.id).unwrap() {
            let who = cast.iter().find(|x| x.id == c).unwrap().name.clone();
            out.push((d.name.clone(), who));
        }
    }
    out.sort();
    out
}

#[test]
fn export_then_import_gives_the_same_project() {
    let (source, pid) = sample();
    let manifest = manifest_of(&source, pid);
    assert_eq!(choose_strategy(&Some(manifest)), Strategy::Manifest);
    let manifest = manifest_of(&source, pid);

    let mut target = Store::new();
    let report = import_manifest_at(&mut target, &manifest, "/tmp/Book", "2025-04-01T00:00:00+00:00").unwrap();
    let new_pid = report.project.id;

    assert_eq!(report.project.name, "Book");
    assert_eq!(report.project.desc, Some("a novel".to_string()));
    assert_eq!(report.project.notes, Some("keep it short".to_string()));
    assert_eq!(report.project.path, Some("/tmp/Book".to_string()));
    assert_eq!(group_shape(&target, new_pid), group_shape(&source, pid));
    assert_eq!(doc_shape(&target, new_pid), doc_shape(&source, pid));
    assert_eq!(character_links(&target, new_pid), character_links(&source, pid));

    let names = |s: &Store, p: i64| -> Vec<(String, Option<String>)> {
        characters::list(s, p).unwrap().iter().map(|c| (c.name.clone(), c.desc.clone())).collect()
    };
    assert_eq!(names(&target, new_pid), names(&source, pid));
    assert_eq!(names(&target, new_pid)[0].0, "alice");
    let fairs = events::list(&target, new_pid).unwrap();
    assert_eq!(fairs.len(), 1);
    assert_eq!(fairs[0].name, "Fair");
    assert_eq!(fairs[0].start_date, Some("2025-01-01".to_string()));
    assert_eq!(places::list(&target, new_pid).unwrap().len(), 1);

    let line = timelines::get_by_entity(&target, "project", new_pid).unwrap().unwrap();
    assert_eq!(line.start_date, Some("2025-01-01".to_string()));

    let ch1_new = list_docs(&target, new_pid).unwrap().into_iter().find(|d| d.name == Some("Ch1".to_string())).unwrap();
    let drafts = list_drafts(&target, ch1_new.id).unwrap();
    assert_eq!(drafts.len(), 2);
    let ch2_new = list_docs(&target, new_pid).unwrap().into_iter().find(|d| d.name == Some("Ch2".to_string())).unwrap();
    let line = timelines::get_by_entity(&target, "doc", ch2_new.id).unwrap().unwrap();
    assert_eq!(line.end_date, Some("2025-02-01".to_string()));
}

#[test]
fn import_into_a_used_store_changes_no_other_project() {
    let (source, pid) = sample();
    let manifest = manifest_of(&source, pid);
    let (mut target, other) = sample();
    let before_groups = group_shape(&target, other);
    let before_docs = doc_shape(&target, other);
    let report = import_manifest_at(&mut target, &manifest, "here", "now").unwrap();
    assert_ne!(report.project.id, other);
    assert_eq!(group_shape(&target, other), before_groups);
    assert_eq!(doc_shape(&target, other), before_docs);
    assert_eq!(group_shape(&target, report.project.id), before_groups);
}

#[test]
fn a_foreign_manifest_is_imported_the_old_way() {
    let (source, pid) = sample();
    let mut manifest = manifest_of(&source, pid);
    manifest.meta.as_mut().unwrap().app = Some("other".to_string());
    assert_eq!(choose_strategy(&Some(manifest)), Strategy::Legacy);
    let mut manifest = manifest_of(&source, pid);
    manifest.meta = None;
    assert_eq!(choose_strategy(&Some(manifest)), Strategy::Legacy);
    assert_eq!(choose_strategy(&None), Strategy::Legacy);
}

#[test]
fn a_blank_character_name_stops_the_import_and_keeps_what_was_made() {
    let (source, pid) = sample();
    let mut manifest = manifest_of(&source, pid);
    manifest.characters[1].name = "  ".to_string();
    let mut target = Store::new();
    let err = import_manifest_at(&mut target, &manifest, "here", "now").unwrap_err();
    assert_eq!(err, StoreError::EmptyName);
    assert_eq!(target.projects.len(), 1);
    assert_eq!(target.groups.len(), 3);
    assert_eq!(target.docs.len(), 4);
    assert_eq!(target.characters.len(), 1);
    assert_eq!(target.events.len(), 0);
    assert_eq!(target.doc_characters.len(), 0);
}

#[test]
fn links_to_rows_that_the_manifest_lacks_are_passed_over() {
    let (source, pid) = sample();
    let mut manifest = manifest_of(&source, pid);
    manifest.doc_characters[0].items.push(9999);
    manifest.doc_events.push(cora::manifest::DocItems { doc_id: 8888, items: vec![1] });
    let mut target = Store::new();
    let report = import_manifest_at(&mut target, &manifest, "here", "now").unwrap();
    assert_eq!(character_links(&target, report.project.id), character_links(&source, pid));
    assert_eq!(target.doc_events.len(), 1);
}

#[test]
fn groups_without_a_root_are_left_out() {
    let (source, pid) = sample();
    let mut manifest = manifest_of(&source, pid);
    let inner = manifest.groups.iter().position(|g| g.name == "Interlude").unwrap();
    manifest.groups[inner].parent_id = Some(4242);
    let mut target = Store::new();
    let report = import_manifest_at(&mut target, &manifest, "here", "now").unwrap();
    assert_eq!(report.groups.len(), 2);
    let docs = list_docs(&target, report.project.id).unwrap();
    let ch3 = docs.iter().find(|d| d.name == Some("Ch3".to_string())).unwrap();
    assert_eq!(ch3.doc_group_id, None);
}
