//! The manifest: the whole graph of a project in one value, from which
//! the project can be rebuilt faithfully.

use vstd::prelude::*;
use crate::characters::{character_in, character_key};
use crate::clock::timestamp_now;
use crate::doc_groups::{group_in, group_key, list_doc_groups};
use crate::docs::{doc_in, doc_key, list_docs};
use crate::drafts::{draft_key, draft_of, list_drafts};
use crate::events::event_in;
use crate::links::{items_of, strictly_growing};
use crate::models::{
    opt_text, Character, CharacterView, Doc, DocGroup, DocGroupView, DocView, Draft, DraftView,
    Event, EventView, Place, PlaceView, Project, ProjectView, Timeline, TimelineView,
};
use crate::places::{place_in, place_key};
use crate::sorting::is_listing;
use crate::store::{has_key, linked, place_of, position, Link, Store, StoreError, StoreView};
use crate::timelines::{find_timeline, has_timeline, timeline_place};

verus! {

/// The signature by which this application knows its own manifests.
pub open spec fn app_signature() -> Seq<char> {
    "cora"@
}

/// The head of a manifest: who wrote it, in which version, and when.
#[derive(Debug, PartialEq, Eq)]
pub struct MetaHeader {
    pub app: Option<String>,
    pub version: Option<u32>,
    pub exported_at: Option<String>,
}

/// The mathematical value of a [`MetaHeader`].
pub struct MetaHeaderView {
    pub app: Option<Seq<char>>,
    pub version: Option<u32>,
    pub exported_at: Option<Seq<char>>,
}

impl View for MetaHeader {
    type V = MetaHeaderView;

    open spec fn view(&self) -> MetaHeaderView {
        MetaHeaderView {
            app: opt_text(self.app),
            version: self.version,
            exported_at: opt_text(self.exported_at),
        }
    }
}

/// The items (characters, events or places) attached to one document.
#[derive(Debug, PartialEq, Eq)]
pub struct DocItems {
    pub doc_id: i64,
    pub items: Vec<i64>,
}

/// The mathematical value of a [`DocItems`] entry.
pub struct DocItemsView {
    pub doc_id: i64,
    pub items: Seq<i64>,
}

impl View for DocItems {
    type V = DocItemsView;

    open spec fn view(&self) -> DocItemsView {
        DocItemsView { doc_id: self.doc_id, items: self.items@ }
    }
}

impl DeepView for DocItems {
    type V = DocItemsView;

    open spec fn deep_view(&self) -> DocItemsView {
        self@
    }
}

/// The timeline of one document, if it has one.
#[derive(Debug, PartialEq, Eq)]
pub struct DocTimeline {
    pub doc_id: i64,
    pub timeline: Option<Timeline>,
}

/// The mathematical value of a [`DocTimeline`] entry.
pub struct DocTimelineView {
    pub doc_id: i64,
    pub timeline: Option<TimelineView>,
}

impl View for DocTimeline {
    type V = DocTimelineView;

    open spec fn view(&self) -> DocTimelineView {
        DocTimelineView {
            doc_id: self.doc_id,
            timeline: match self.timeline {
                Some(t) => Some(t@),
                None => None,
            },
        }
    }
}

impl DeepView for DocTimeline {
    type V = DocTimelineView;

    open spec fn deep_view(&self) -> DocTimelineView {
        self@
    }
}

/// The drafts of one document, the latest first.
#[derive(Debug, PartialEq, Eq)]
pub struct DocDrafts {
    pub doc_id: i64,
    pub drafts: Vec<Draft>,
}

/// The mathematical value of a [`DocDrafts`] entry.
pub struct DocDraftsView {
    pub doc_id: i64,
    pub drafts: Seq<DraftView>,
}

impl View for DocDrafts {
    type V = DocDraftsView;

    open spec fn view(&self) -> DocDraftsView {
        DocDraftsView { doc_id: self.doc_id, drafts: self.drafts.deep_view() }
    }
}

impl DeepView for DocDrafts {
    type V = DocDraftsView;

    open spec fn deep_view(&self) -> DocDraftsView {
        self@
    }
}

/// The graph of one project.
#[derive(Debug, PartialEq, Eq)]
pub struct Manifest {
    pub meta: Option<MetaHeader>,
    pub project: Project,
    pub groups: Vec<DocGroup>,
    pub docs: Vec<Doc>,
    pub characters: Vec<Character>,
    pub events: Vec<Event>,
    pub places: Vec<Place>,
    pub doc_characters: Vec<DocItems>,
    pub doc_events: Vec<DocItems>,
    pub doc_places: Vec<DocItems>,
    pub project_timeline: Option<Timeline>,
    pub doc_timelines: Vec<DocTimeline>,
    pub drafts_by_doc: Vec<DocDrafts>,
}

/// The mathematical value of a [`Manifest`].
pub struct ManifestView {
    pub meta: Option<MetaHeaderView>,
    pub project: ProjectView,
    pub groups: Seq<DocGroupView>,
    pub docs: Seq<DocView>,
    pub characters: Seq<CharacterView>,
    pub events: Seq<EventView>,
    pub places: Seq<PlaceView>,
    pub doc_characters: Seq<DocItemsView>,
    pub doc_events: Seq<DocItemsView>,
    pub doc_places: Seq<DocItemsView>,
    pub project_timeline: Option<TimelineView>,
    pub doc_timelines: Seq<DocTimelineView>,
    pub drafts_by_doc: Seq<DocDraftsView>,
}

impl View for Manifest {
    type V = ManifestView;

    open spec fn view(&self) -> ManifestView {
        ManifestView {
            meta: match self.meta {
                Some(h) => Some(h@),
                None => None,
            },
            project: self.project@,
            groups: self.groups.deep_view(),
            docs: self.docs.deep_view(),
            characters: self.characters.deep_view(),
            events: self.events.deep_view(),
            places: self.places.deep_view(),
            doc_characters: self.doc_characters.deep_view(),
            doc_events: self.doc_events.deep_view(),
            doc_places: self.doc_places.deep_view(),
            project_timeline: match self.project_timeline {
                Some(t) => Some(t@),
                None => None,
            },
            doc_timelines: self.doc_timelines.deep_view(),
            drafts_by_doc: self.drafts_by_doc.deep_view(),
        }
    }
}

/// `items` lists, document by document in the order of `docs`, what the
/// relation attaches to each: the identifiers in growing order.
pub open spec fn lists_links(items: Seq<DocItemsView>, docs: Seq<DocView>, links: Seq<Link>) -> bool {
    &&& items.len() == docs.len()
    &&& forall|i: int|
        0 <= i < items.len() ==> {
            &&& (#[trigger] items[i]).doc_id == docs[i].id
            &&& strictly_growing(items[i].items)
            &&& forall|x: i64| items[i].items.contains(x) <==> linked(links, docs[i].id, x)
        }
}

/// `found` is the timeline of the entity, if it has one.
pub open spec fn is_timeline_of(
    found: Option<TimelineView>,
    rows: Seq<TimelineView>,
    entity_type: Seq<char>,
    entity_id: i64,
) -> bool {
    match found {
        Some(t) => has_timeline(rows, entity_type, entity_id) && t == rows[timeline_place(
            rows,
            entity_type,
            entity_id,
        )],
        None => !has_timeline(rows, entity_type, entity_id),
    }
}

/// `entries` lists, document by document in the order of `docs`, the
/// timeline of each.
pub open spec fn lists_timelines(
    entries: Seq<DocTimelineView>,
    docs: Seq<DocView>,
    rows: Seq<TimelineView>,
) -> bool {
    &&& entries.len() == docs.len()
    &&& forall|i: int|
        0 <= i < entries.len() ==> (#[trigger] entries[i]).doc_id == docs[i].id
            && is_timeline_of(entries[i].timeline, rows, "doc"@, docs[i].id)
}

/// `entries` lists the drafts of the documents that have any, the
/// latest first: one entry for each such document, in the order of
/// `docs`.
pub open spec fn lists_drafts(
    entries: Seq<DocDraftsView>,
    docs: Seq<DocView>,
    drafts: Seq<DraftView>,
) -> bool {
    &&& forall|e: int|
        0 <= e < entries.len() ==> (#[trigger] entries[e]).drafts.len() > 0 && is_listing(
            entries[e].drafts,
            drafts,
            draft_of(entries[e].doc_id),
            draft_key(),
        )
    &&& exists|src: Seq<int>|
        {
            &&& src.len() == entries.len()
            &&& forall|e: int| 0 <= e < src.len() ==> 0 <= #[trigger] src[e] < docs.len()
            &&& forall|e: int, f: int|
                0 <= e < f < src.len() ==> #[trigger] src[e] < #[trigger] src[f]
            &&& forall|e: int|
                0 <= e < src.len() ==> (#[trigger] entries[e]).doc_id == docs[src[e]].id
            &&& forall|i: int|
                0 <= i < docs.len() && (exists|r: int|
                    0 <= r < drafts.len() && (#[trigger] drafts[r]).doc_id == docs[i].id)
                    ==> src.contains(i)
        }
}

/// The manifest is that of the project `project_id` of the store,
/// written at the moment `exported_at`.
pub open spec fn is_manifest_of(m: ManifestView, v: StoreView, project_id: i64, exported_at: Seq<char>) -> bool {
    &&& m.meta == Some(
        MetaHeaderView { app: Some(app_signature()), version: Some(1u32), exported_at: Some(exported_at) },
    )
    &&& has_key(v.projects, project_id)
    &&& m.project == v.projects[place_of(v.projects, project_id)]
    &&& is_listing(m.groups, v.groups, group_in(project_id), group_key())
    &&& is_listing(m.docs, v.docs, doc_in(project_id), doc_key())
    &&& is_listing(m.characters, v.characters, character_in(project_id), character_key())
    &&& m.events == v.events.filter(event_in(project_id))
    &&& is_listing(m.places, v.places, place_in(project_id), place_key())
    &&& lists_links(m.doc_characters, m.docs, v.doc_characters)
    &&& lists_links(m.doc_events, m.docs, v.doc_events)
    &&& lists_links(m.doc_places, m.docs, v.doc_places)
    &&& is_timeline_of(m.project_timeline, v.timelines, "project"@, project_id)
    &&& lists_timelines(m.doc_timelines, m.docs, v.timelines)
    &&& lists_drafts(m.drafts_by_doc, m.docs, v.drafts)
}

/// What the relation attaches to each of the documents.
pub fn collect_links(docs: &Vec<Doc>, links: &Vec<Link>) -> (r: Vec<DocItems>)
    ensures
        lists_links(r.deep_view(), docs.deep_view(), links@),
{
    let mut out: Vec<DocItems> = Vec::new();
    let mut i: usize = 0;
    while i < docs.len()
        invariant
            i <= docs.len(),
            out.len() == i,
            forall|j: int|
                0 <= j < i ==> {
                    &&& (#[trigger] out.deep_view()[j]).doc_id == docs.deep_view()[j].id
                    &&& strictly_growing(out.deep_view()[j].items)
                    &&& forall|x: i64|
                        out.deep_view()[j].items.contains(x) <==> linked(
                            links@,
                            docs.deep_view()[j].id,
                            x,
                        )
                },
        decreases docs.len() - i,
    {
        let ghost prev = out.deep_view();
        let items = items_of(links, docs[i].id);
        out.push(DocItems { doc_id: docs[i].id, items });
        proof {
            let now = out.deep_view();
            assert forall|j: int| 0 <= j < i + 1 implies {
                &&& (#[trigger] now[j]).doc_id == docs.deep_view()[j].id
                &&& strictly_growing(now[j].items)
                &&& forall|x: i64|
                    now[j].items.contains(x) <==> linked(links@, docs.deep_view()[j].id, x)
            } by {
                if j < i {
                    assert(now[j] == prev[j]);
                }
            }
        }
        i += 1;
    }
    out
}

/// The timeline of each of the documents.
pub fn collect_timelines(docs: &Vec<Doc>, rows: &Vec<Timeline>) -> (r: Vec<DocTimeline>)
    requires
        crate::store::timelines_distinct(rows.deep_view()),
    ensures
        lists_timelines(r.deep_view(), docs.deep_view(), rows.deep_view()),
{
    let mut out: Vec<DocTimeline> = Vec::new();
    let mut i: usize = 0;
    while i < docs.len()
        invariant
            i <= docs.len(),
            out.len() == i,
            crate::store::timelines_distinct(rows.deep_view()),
            forall|j: int|
                0 <= j < i ==> (#[trigger] out.deep_view()[j]).doc_id == docs.deep_view()[j].id
                    && is_timeline_of(
                    out.deep_view()[j].timeline,
                    rows.deep_view(),
                    "doc"@,
                    docs.deep_view()[j].id,
                ),
        decreases docs.len() - i,
    {
        let ghost prev = out.deep_view();
        let timeline = match find_timeline(rows, "doc", docs[i].id) {
            Some(at) => Some(rows[at].clone()),
            None => None,
        };
        out.push(DocTimeline { doc_id: docs[i].id, timeline });
        proof {
            let now = out.deep_view();
            assert forall|j: int| 0 <= j < i + 1 implies (#[trigger] now[j]).doc_id
                == docs.deep_view()[j].id && is_timeline_of(
                now[j].timeline,
                rows.deep_view(),
                "doc"@,
                docs.deep_view()[j].id,
            ) by {
                if j < i {
                    assert(now[j] == prev[j]);
                }
            }
        }
        i += 1;
    }
    out
}

/// The drafts of those of the documents that have any.
pub fn collect_drafts(store: &Store, docs: &Vec<Doc>) -> (r: Vec<DocDrafts>)
    requires
        store.wf(),
    ensures
        lists_drafts(r.deep_view(), docs.deep_view(), store@.drafts),
{
    let ghost dv = docs.deep_view();
    let ghost drafts = store@.drafts;
    let mut out: Vec<DocDrafts> = Vec::new();
    let ghost mut src: Seq<int> = Seq::empty();
    let mut i: usize = 0;
    while i < docs.len()
        invariant
            i <= docs.len(),
            store.wf(),
            dv == docs.deep_view(),
            drafts == store@.drafts,
            src.len() == out.len(),
            forall|e: int|
                0 <= e < out.len() ==> (#[trigger] out.deep_view()[e]).drafts.len() > 0
                    && is_listing(
                    out.deep_view()[e].drafts,
                    drafts,
                    draft_of(out.deep_view()[e].doc_id),
                    draft_key(),
                ),
            forall|e: int| 0 <= e < src.len() ==> 0 <= #[trigger] src[e] < i,
            forall|e: int, f: int| 0 <= e < f < src.len() ==> #[trigger] src[e] < #[trigger] src[f],
            forall|e: int|
                0 <= e < src.len() ==> (#[trigger] out.deep_view()[e]).doc_id == dv[src[e]].id,
            forall|j: int|
                0 <= j < i && (exists|r: int|
                    0 <= r < drafts.len() && (#[trigger] drafts[r]).doc_id == dv[j].id)
                    ==> src.contains(j),
        decreases docs.len() - i,
    {
        let ghost prev = out.deep_view();
        let ghost prev_src = src;
        let doc_id = docs[i].id;
        let found = match list_drafts(store, doc_id) {
            Ok(rows) => rows,
            Err(_) => Vec::new(),
        };
        proof {
            if exists|r: int| 0 <= r < drafts.len() && (#[trigger] drafts[r]).doc_id == doc_id {
                let r = choose|r: int|
                    0 <= r < drafts.len() && (#[trigger] drafts[r]).doc_id == doc_id;
                assert(draft_of(doc_id)(drafts[r]));
                assert(found.deep_view().contains(drafts[r]));
            }
        }
        if found.len() > 0 {
            out.push(DocDrafts { doc_id, drafts: found });
            proof {
                src = src.push(i as int);
                let now = out.deep_view();
                assert forall|e: int| 0 <= e < now.len() implies (#[trigger] now[e]).drafts.len()
                    > 0 && is_listing(
                    now[e].drafts,
                    drafts,
                    draft_of(now[e].doc_id),
                    draft_key(),
                ) by {
                    if e < prev.len() {
                        assert(now[e] == prev[e]);
                    }
                }
                assert forall|e: int| 0 <= e < src.len() implies (#[trigger] now[e]).doc_id
                    == dv[src[e]].id by {
                    if e < prev.len() {
                        assert(now[e] == prev[e]);
                        assert(src[e] == prev_src[e]);
                    }
                }
                assert forall|e: int, f: int| 0 <= e < f < src.len() implies #[trigger] src[e]
                    < #[trigger] src[f] by {
                    assert(src[e] == prev_src[e]);
                    if f < prev_src.len() {
                        assert(src[f] == prev_src[f]);
                    }
                }
            }
        }
        proof {
            assert forall|j: int|
                0 <= j < i + 1 && (exists|r: int|
                    0 <= r < drafts.len() && (#[trigger] drafts[r]).doc_id
                        == dv[j].id) implies src.contains(j) by {
                if j < i {
                    assert(prev_src.contains(j));
                    let w = choose|w: int| 0 <= w < prev_src.len() && prev_src[w] == j;
                    assert(src[w] == j);
                } else {
                    assert(src[src.len() - 1] == j);
                }
            }
        }
        i += 1;
    }
    proof {
        let entries = out.deep_view();
        assert(src.len() == entries.len());
        assert(forall|e: int| 0 <= e < src.len() ==> 0 <= #[trigger] src[e] < dv.len());
    }
    out
}

/// The manifest of the project, stamped as written at `exported_at`.
/// Fails where the project does not exist.
pub fn build_manifest(store: &Store, project_id: i64, exported_at: String) -> (r: Result<
    Manifest,
    StoreError,
>)
    requires
        store.wf(),
    ensures
        match r {
            Ok(m) => is_manifest_of(m@, store@, project_id, exported_at@),
            Err(e) => !has_key(store@.projects, project_id) && e == StoreError::NotFound,
        },
{
    let at = match position(&store.projects, project_id) {
        Some(i) => i,
        None => {
            return Err(StoreError::NotFound);
        },
    };
    let project = store.projects[at].clone();
    let groups = match list_doc_groups(store, project_id) {
        Ok(rows) => rows,
        Err(e) => {
            return Err(e);
        },
    };
    let docs = match list_docs(store, project_id) {
        Ok(rows) => rows,
        Err(e) => {
            return Err(e);
        },
    };
    let characters = match crate::characters::list(store, project_id) {
        Ok(rows) => rows,
        Err(e) => {
            return Err(e);
        },
    };
    let events = match crate::events::list(store, project_id) {
        Ok(rows) => rows,
        Err(e) => {
            return Err(e);
        },
    };
    let places = match crate::places::list(store, project_id) {
        Ok(rows) => rows,
        Err(e) => {
            return Err(e);
        },
    };
    let doc_characters = collect_links(&docs, &store.doc_characters);
    let doc_events = collect_links(&docs, &store.doc_events);
    let doc_places = collect_links(&docs, &store.doc_places);
    let project_timeline = match find_timeline(&store.timelines, "project", project_id) {
        Some(i) => Some(store.timelines[i].clone()),
        None => None,
    };
    let doc_timelines = collect_timelines(&docs, &store.timelines);
    let drafts_by_doc = collect_drafts(store, &docs);
    let meta = MetaHeader {
        app: Some(String::from_str("cora")),
        version: Some(1),
        exported_at: Some(exported_at),
    };
    Ok(
        Manifest {
            meta: Some(meta),
            project,
            groups,
            docs,
            characters,
            events,
            places,
            doc_characters,
            doc_events,
            doc_places,
            project_timeline,
            doc_timelines,
            drafts_by_doc,
        },
    )
}

/// The manifest of the project, stamped with the present moment.
/// Whatever the clock says, the manifest is that of the project at some
/// moment. Fails where the project does not exist.
pub fn build_manifest_now(store: &Store, project_id: i64) -> (r: Result<Manifest, StoreError>)
    requires
        store.wf(),
    ensures
        match r {
            Ok(m) => m@.meta is Some && m@.meta->0.exported_at is Some && is_manifest_of(
                m@,
                store@,
                project_id,
                m@.meta->0.exported_at->0,
            ),
            Err(e) => !has_key(store@.projects, project_id) && e == StoreError::NotFound,
        },
{
    let now = timestamp_now();
    build_manifest(store, project_id, now)
}

} // verus!
