//! Projects: the roots under which everything else is kept.

use vstd::prelude::*;
use crate::models::{opt_text, replace_opt_text, replace_text, Project, ProjectCreate, ProjectView};
use crate::doc_groups::{group_slots, groups_dense_in};
use crate::docs::{doc_slots, docs_dense_in};
use crate::models::{DocGroupView, DocView, DraftView, FolderDraftView};
use crate::order::{lemma_empty_dense, lemma_subtable_dense};
use crate::store::{
    ascending, has_key, parents_first, place_of, position, row_of, Keyed, Link, Owned, Store,
    StoreError, StoreView,
};
use crate::tables::{
    keys_owned_by, kept_places, lemma_filter_ascending, lemma_filter_ext, lemma_filter_filed,
    lemma_filter_links, lemma_filter_owned, lemma_kept_places, link_clear_of, links_without,
    not_owned_by, owned_key, owner_not_in, rows_not_owned_by, rows_owner_not_in,
};
use crate::text::{is_blank, is_blank_text};

verus! {

/// Creates a project from the payload, with no timeline.
pub fn create(store: &mut Store, payload: ProjectCreate) -> (r: Result<Project, StoreError>)
    requires
        old(store).wf(),
    ensures
        final(store).wf(),
        match r {
            Ok(p) => {
                &&& old(store)@.next_id < i64::MAX
                &&& p@ == (ProjectView {
                    id: old(store)@.next_id,
                    name: payload.name@,
                    desc: opt_text(payload.desc),
                    path: opt_text(payload.path),
                    notes: opt_text(payload.notes),
                    timeline_start: None,
                    timeline_end: None,
                })
                &&& final(store)@ == (StoreView {
                    projects: old(store)@.projects.push(p@),
                    next_id: (old(store)@.next_id + 1) as i64,
                    ..old(store)@
                })
            },
            Err(e) => {
                &&& old(store)@.next_id == i64::MAX
                &&& e == StoreError::Exhausted
                &&& final(store)@ == old(store)@
            },
        },
{
    if store.next_id == i64::MAX {
        return Err(StoreError::Exhausted);
    }
    let id = store.next_id;
    let row = Project {
        id,
        name: payload.name,
        desc: payload.desc,
        path: payload.path,
        notes: payload.notes,
        timeline_start: None,
        timeline_end: None,
    };
    let out = row.clone();
    store.projects.push(row);
    store.next_id = id + 1;
    proof {
        assert(store@.projects =~= old(store)@.projects.push(out@));
    }
    Ok(out)
}

/// The project with that identifier, if there is one.
pub fn get(store: &Store, id: i64) -> (r: Result<Option<Project>, StoreError>)
    requires
        store.wf(),
    ensures
        r matches Ok(found) && (match found {
            Some(p) => row_of(store@.projects, id) == Some(p@),
            None => !has_key(store@.projects, id),
        }),
{
    match position(&store.projects, id) {
        Some(i) => Ok(Some(store.projects[i].clone())),
        None => Ok(None),
    }
}

/// All projects, in the order of their identifiers.
pub fn list(store: &Store) -> (r: Result<Vec<Project>, StoreError>)
    requires
        store.wf(),
    ensures
        r matches Ok(rows) && rows.deep_view() == store@.projects,
{
    let mut out: Vec<Project> = Vec::new();
    let mut i: usize = 0;
    while i < store.projects.len()
        invariant
            i <= store.projects.len(),
            out.deep_view() == store@.projects.take(i as int),
        decreases store.projects.len() - i,
    {
        let ghost prev = out.deep_view();
        out.push(store.projects[i].clone());
        assert(out.deep_view() =~= prev.push(store@.projects[i as int]));
        assert(store@.projects.take(i as int).push(store@.projects[i as int])
            =~= store@.projects.take(i + 1));
        i += 1;
    }
    assert(store@.projects.take(store.projects.len() as int) =~= store@.projects);
    Ok(out)
}

/// The project with the fields given replaced and the others kept.
pub open spec fn updated_project(
    p: ProjectView,
    name: Option<String>,
    desc: Option<String>,
    path: Option<String>,
    notes: Option<String>,
) -> ProjectView {
    ProjectView {
        name: match name {
            Some(s) => s@,
            None => p.name,
        },
        desc: match desc {
            Some(s) => Some(s@),
            None => p.desc,
        },
        path: match path {
            Some(s) => Some(s@),
            None => p.path,
        },
        notes: match notes {
            Some(s) => Some(s@),
            None => p.notes,
        },
        ..p
    }
}

/// Why a project cannot be updated, if it cannot: it does not exist, or
/// the name that it would carry is blank.
pub open spec fn project_update_error(v: StoreView, id: i64, name: Option<String>) -> Option<
    StoreError,
> {
    if !has_key(v.projects, id) {
        Some(StoreError::NotFound)
    } else if is_blank(
        match name {
            Some(s) => s@,
            None => v.projects[place_of(v.projects, id)].name,
        },
    ) {
        Some(StoreError::EmptyName)
    } else {
        None
    }
}

/// Replaces the fields given and keeps the others; returns the project
/// as it then stands.
pub fn update(
    store: &mut Store,
    id: i64,
    name: Option<String>,
    desc: Option<String>,
    path: Option<String>,
    notes: Option<String>,
) -> (r: Result<Project, StoreError>)
    requires
        old(store).wf(),
    ensures
        final(store).wf(),
        match r {
            Ok(p) => {
                &&& project_update_error(old(store)@, id, name) is None
                &&& p@ == updated_project(
                    old(store)@.projects[place_of(old(store)@.projects, id)],
                    name,
                    desc,
                    path,
                    notes,
                )
                &&& final(store)@ == (StoreView {
                    projects: old(store)@.projects.update(
                        place_of(old(store)@.projects, id),
                        p@,
                    ),
                    ..old(store)@
                })
            },
            Err(e) => {
                &&& project_update_error(old(store)@, id, name) == Some(e)
                &&& final(store)@ == old(store)@
            },
        },
{
    let at = match position(&store.projects, id) {
        Some(i) => i,
        None => {
            return Err(StoreError::NotFound);
        },
    };
    let new_name = replace_text(name, &store.projects[at].name);
    if is_blank_text(new_name.as_str()) {
        return Err(StoreError::EmptyName);
    }
    let new_desc = replace_opt_text(desc, &store.projects[at].desc);
    let new_path = replace_opt_text(path, &store.projects[at].path);
    let new_notes = replace_opt_text(notes, &store.projects[at].notes);
    store.projects[at].name = new_name;
    store.projects[at].desc = new_desc;
    store.projects[at].path = new_path;
    store.projects[at].notes = new_notes;
    let out = store.projects[at].clone();
    proof {
        assert(store@.projects =~= old(store)@.projects.update(at as int, out@));
    }
    Ok(out)
}

/// The rows that hang on no row of the project: `rows` is the table of
/// the rows that they hang on.
pub open spec fn hangs_outside<A: Keyed + Owned, R: Owned>(rows: Seq<A>, project_id: i64) -> spec_fn(
    R,
) -> bool {
    |r: R| !owned_key(rows, project_id, r.owner())
}

/// The pairs of which neither side belongs to the project.
pub open spec fn link_outside<A: Keyed + Owned, B: Keyed + Owned>(
    owners: Seq<A>,
    items: Seq<B>,
    project_id: i64,
) -> spec_fn(Link) -> bool {
    |l: Link| !owned_key(owners, project_id, l.owner) && !owned_key(items, project_id, l.item)
}

/// The store without the project `id`: the project is gone, and with it
/// its folders, documents, characters, events, places and drafts, the
/// drafts of those documents and folders, and every relation that
/// touches one of those rows.
pub open spec fn without_project(v: StoreView, id: i64) -> StoreView {
    StoreView {
        projects: v.projects.remove(place_of(v.projects, id)),
        groups: v.groups.filter(not_owned_by(id)),
        docs: v.docs.filter(not_owned_by(id)),
        drafts: v.drafts.filter(hangs_outside(v.docs, id)),
        characters: v.characters.filter(not_owned_by(id)),
        events: v.events.filter(not_owned_by(id)),
        places: v.places.filter(not_owned_by(id)),
        project_drafts: v.project_drafts.filter(not_owned_by(id)),
        folder_drafts: v.folder_drafts.filter(hangs_outside(v.groups, id)),
        doc_characters: v.doc_characters.filter(link_outside(v.docs, v.characters, id)),
        doc_events: v.doc_events.filter(link_outside(v.docs, v.events, id)),
        doc_places: v.doc_places.filter(link_outside(v.docs, v.places, id)),
        group_characters: v.group_characters.filter(link_outside(v.groups, v.characters, id)),
        group_events: v.group_events.filter(link_outside(v.groups, v.events, id)),
        group_places: v.group_places.filter(link_outside(v.groups, v.places, id)),
        ..v
    }
}

/// Taking the rows of one project out of a table of slots leaves every
/// dense sibling set dense.
pub proof fn lemma_project_removed_dense(
    slots: Seq<crate::order::Slot>,
    kept: Seq<crate::order::Slot>,
    src: Seq<int>,
    id: i64,
    p: i64,
    q: Option<i64>,
)
    requires
        crate::order::dense_in(slots, p, q),
        crate::order::picks(slots.len(), src),
        src.len() == kept.len(),
        forall|i: int| 0 <= i < kept.len() ==> #[trigger] kept[i] == slots[src[i]],
        forall|i: int| 0 <= i < kept.len() ==> (#[trigger] kept[i]).project != id,
        forall|j: int| 0 <= j < slots.len() && (#[trigger] slots[j]).project != id ==> src.contains(j),
    ensures
        crate::order::dense_in(kept, p, q),
{
    if p == id {
        lemma_empty_dense(kept, p, q);
    } else {
        lemma_subtable_dense(slots, kept, src, p, q);
    }
}

/// Removes the project with all that belongs to it. Returns whether
/// there was such a project; where there was none, nothing changes.
/// Dense sibling sets stay dense.
pub fn delete(store: &mut Store, id: i64) -> (r: Result<bool, StoreError>)
    requires
        old(store).wf(),
    ensures
        final(store).wf(),
        r matches Ok(found) && found == has_key(old(store)@.projects, id),
        final(store)@ == (if has_key(old(store)@.projects, id) {
            without_project(old(store)@, id)
        } else {
            old(store)@
        }),
        forall|p: i64, q: Option<i64>|
            groups_dense_in(old(store)@.groups, p, q) ==> #[trigger] groups_dense_in(
                final(store)@.groups,
                p,
                q,
            ),
        forall|p: i64, q: Option<i64>|
            docs_dense_in(old(store)@.docs, p, q) ==> #[trigger] docs_dense_in(
                final(store)@.docs,
                p,
                q,
            ),
{
    let at = match position(&store.projects, id) {
        Some(i) => i,
        None => {
            return Ok(false);
        },
    };
    let ghost v = store@;
    let gone_groups = keys_owned_by(&store.groups, id);
    let gone_docs = keys_owned_by(&store.docs, id);
    let gone_characters = keys_owned_by(&store.characters, id);
    let gone_events = keys_owned_by(&store.events, id);
    let gone_places = keys_owned_by(&store.places, id);
    let groups = rows_not_owned_by(&store.groups, id);
    let docs = rows_not_owned_by(&store.docs, id);
    let characters = rows_not_owned_by(&store.characters, id);
    let events = rows_not_owned_by(&store.events, id);
    let places = rows_not_owned_by(&store.places, id);
    let project_drafts = rows_not_owned_by(&store.project_drafts, id);
    let drafts = rows_owner_not_in(&store.drafts, &gone_docs);
    let folder_drafts = rows_owner_not_in(&store.folder_drafts, &gone_groups);
    let doc_characters = links_without(&store.doc_characters, &gone_docs, &gone_characters);
    let doc_events = links_without(&store.doc_events, &gone_docs, &gone_events);
    let doc_places = links_without(&store.doc_places, &gone_docs, &gone_places);
    let group_characters = links_without(&store.group_characters, &gone_groups, &gone_characters);
    let group_events = links_without(&store.group_events, &gone_groups, &gone_events);
    let group_places = links_without(&store.group_places, &gone_groups, &gone_places);
    proof {
        lemma_filter_ext(
            v.drafts,
            owner_not_in::<DraftView>(gone_docs@),
            hangs_outside(v.docs, id),
        );
        lemma_filter_ext(
            v.folder_drafts,
            owner_not_in::<FolderDraftView>(gone_groups@),
            hangs_outside(v.groups, id),
        );
        lemma_filter_ext(
            v.doc_characters,
            link_clear_of(gone_docs@, gone_characters@),
            link_outside(v.docs, v.characters, id),
        );
        lemma_filter_ext(
            v.doc_events,
            link_clear_of(gone_docs@, gone_events@),
            link_outside(v.docs, v.events, id),
        );
        lemma_filter_ext(
            v.doc_places,
            link_clear_of(gone_docs@, gone_places@),
            link_outside(v.docs, v.places, id),
        );
        lemma_filter_ext(
            v.group_characters,
            link_clear_of(gone_groups@, gone_characters@),
            link_outside(v.groups, v.characters, id),
        );
        lemma_filter_ext(
            v.group_events,
            link_clear_of(gone_groups@, gone_events@),
            link_outside(v.groups, v.events, id),
        );
        lemma_filter_ext(
            v.group_places,
            link_clear_of(gone_groups@, gone_places@),
            link_outside(v.groups, v.places, id),
        );
    }
    store.projects.remove(at);
    store.groups = groups;
    store.docs = docs;
    store.characters = characters;
    store.events = events;
    store.places = places;
    store.project_drafts = project_drafts;
    store.drafts = drafts;
    store.folder_drafts = folder_drafts;
    store.doc_characters = doc_characters;
    store.doc_events = doc_events;
    store.doc_places = doc_places;
    store.group_characters = group_characters;
    store.group_events = group_events;
    store.group_places = group_places;
    proof {
        let w = without_project(v, id);
        assert(store@.projects =~= v.projects.remove(at as int));
        assert(store@ == w);
        let next = v.next_id;
        lemma_project_table(v, id);
        lemma_project_rows(v, id);
        lemma_project_links(v, id);
        lemma_project_dense(v, id);
    }
    Ok(true)
}

/// Without the project, the table of projects is still valid.
pub proof fn lemma_project_table(v: StoreView, id: i64)
    requires
        v.wf(),
        has_key(v.projects, id),
    ensures
        ascending(without_project(v, id).projects, v.next_id),
{
    let at = place_of(v.projects, id);
    let before = v.projects;
    let after = before.remove(at);
    assert forall|j: int| 0 <= j < after.len() implies 0 < (#[trigger] after[j]).key()
        < v.next_id by {
        let src = if j < at {
            j
        } else {
            j + 1
        };
        assert(after[j] == before[src]);
    }
    assert forall|i: int, j: int| 0 <= i < j < after.len() implies (#[trigger] after[i]).key() < (
    #[trigger] after[j]).key() by {
        let si = if i < at {
            i
        } else {
            i + 1
        };
        let sj = if j < at {
            j
        } else {
            j + 1
        };
        assert(after[i] == before[si]);
        assert(after[j] == before[sj]);
        assert(before[si].key() < before[sj].key());
    }
}

/// Without the project, the tables of rows are still valid.
pub proof fn lemma_project_rows(v: StoreView, id: i64)
    requires
        v.wf(),
    ensures
        ascending(without_project(v, id).groups, v.next_id),
        ascending(without_project(v, id).docs, v.next_id),
        ascending(without_project(v, id).drafts, v.next_id),
        ascending(without_project(v, id).characters, v.next_id),
        ascending(without_project(v, id).events, v.next_id),
        ascending(without_project(v, id).places, v.next_id),
        ascending(without_project(v, id).project_drafts, v.next_id),
        ascending(without_project(v, id).folder_drafts, v.next_id),
        parents_first(without_project(v, id).groups),
        crate::store::owners_below(without_project(v, id).groups, v.next_id),
        crate::store::owners_below(without_project(v, id).docs, v.next_id),
        crate::store::filed_below(without_project(v, id).docs, v.next_id),
        crate::store::owners_below(without_project(v, id).drafts, v.next_id),
        crate::store::owners_below(without_project(v, id).characters, v.next_id),
        crate::store::owners_below(without_project(v, id).events, v.next_id),
        crate::store::owners_below(without_project(v, id).places, v.next_id),
        crate::store::owners_below(without_project(v, id).project_drafts, v.next_id),
        crate::store::owners_below(without_project(v, id).folder_drafts, v.next_id),
{
    let n = v.next_id;
    lemma_filter_ascending(v.groups, not_owned_by(id), n);
    lemma_filter_ascending(v.docs, not_owned_by(id), n);
    lemma_filter_ascending(v.drafts, hangs_outside(v.docs, id), n);
    lemma_filter_ascending(v.characters, not_owned_by(id), n);
    lemma_filter_ascending(v.events, not_owned_by(id), n);
    lemma_filter_ascending(v.places, not_owned_by(id), n);
    lemma_filter_ascending(v.project_drafts, not_owned_by(id), n);
    lemma_filter_ascending(v.folder_drafts, hangs_outside(v.groups, id), n);
    lemma_filter_owned(v.groups, not_owned_by(id), n);
    lemma_filter_owned(v.docs, not_owned_by(id), n);
    lemma_filter_filed(v.docs, not_owned_by(id), n);
    lemma_filter_owned(v.drafts, hangs_outside(v.docs, id), n);
    lemma_filter_owned(v.characters, not_owned_by(id), n);
    lemma_filter_owned(v.events, not_owned_by(id), n);
    lemma_filter_owned(v.places, not_owned_by(id), n);
    lemma_filter_owned(v.project_drafts, not_owned_by(id), n);
    lemma_filter_owned(v.folder_drafts, hangs_outside(v.groups, id), n);
    let pred = not_owned_by::<DocGroupView>(id);
    lemma_kept_places(v.groups, pred);
    let kept = v.groups.filter(pred);
    let kp = kept_places(v.groups, pred);
    assert forall|j: int| 0 <= j < kept.len() implies ((#[trigger] kept[j]).parent_id matches Some(
        p,
    ) ==> p < kept[j].id) by {
        assert(kept[j] == v.groups[kp[j]]);
    }
}

/// Without the project, no relation holds a pair twice or refers to a
/// row that is yet to be created.
pub proof fn lemma_project_links(v: StoreView, id: i64)
    requires
        v.wf(),
    ensures
        crate::store::links_distinct(without_project(v, id).doc_characters),
        crate::store::links_distinct(without_project(v, id).doc_events),
        crate::store::links_distinct(without_project(v, id).doc_places),
        crate::store::links_distinct(without_project(v, id).group_characters),
        crate::store::links_distinct(without_project(v, id).group_events),
        crate::store::links_distinct(without_project(v, id).group_places),
        crate::store::links_below(without_project(v, id).doc_characters, v.next_id),
        crate::store::links_below(without_project(v, id).doc_events, v.next_id),
        crate::store::links_below(without_project(v, id).doc_places, v.next_id),
        crate::store::links_below(without_project(v, id).group_characters, v.next_id),
        crate::store::links_below(without_project(v, id).group_events, v.next_id),
        crate::store::links_below(without_project(v, id).group_places, v.next_id),
{
    lemma_filter_links(v.doc_characters, link_outside(v.docs, v.characters, id));
    lemma_filter_links(v.doc_events, link_outside(v.docs, v.events, id));
    lemma_filter_links(v.doc_places, link_outside(v.docs, v.places, id));
    lemma_filter_links(v.group_characters, link_outside(v.groups, v.characters, id));
    lemma_filter_links(v.group_events, link_outside(v.groups, v.events, id));
    lemma_filter_links(v.group_places, link_outside(v.groups, v.places, id));
}

/// Without the project, every dense sibling set is still dense.
pub proof fn lemma_project_dense(v: StoreView, id: i64)
    ensures
        forall|p: i64, q: Option<i64>|
            groups_dense_in(v.groups, p, q) ==> #[trigger] groups_dense_in(
                without_project(v, id).groups,
                p,
                q,
            ),
        forall|p: i64, q: Option<i64>|
            docs_dense_in(v.docs, p, q) ==> #[trigger] docs_dense_in(
                without_project(v, id).docs,
                p,
                q,
            ),
{
    let gp = not_owned_by::<DocGroupView>(id);
    let dp = not_owned_by::<DocView>(id);
    lemma_kept_places(v.groups, gp);
    lemma_kept_places(v.docs, dp);
    let gk = v.groups.filter(gp);
    let dk = v.docs.filter(dp);
    let gsrc = kept_places(v.groups, gp);
    let dsrc = kept_places(v.docs, dp);
    assert forall|p: i64, q: Option<i64>| groups_dense_in(v.groups, p, q) implies #[trigger]
        groups_dense_in(gk, p, q) by {
        let slots = group_slots(v.groups);
        let kept = group_slots(gk);
        assert forall|i: int| 0 <= i < kept.len() implies #[trigger] kept[i] == slots[gsrc[i]] by {
            assert(gk[i] == v.groups[gsrc[i]]);
        }
        assert forall|i: int| 0 <= i < kept.len() implies (#[trigger] kept[i]).project != id by {
            assert(gp(v.groups[gsrc[i]]));
            assert(gk[i] == v.groups[gsrc[i]]);
        }
        assert forall|j: int|
            0 <= j < slots.len() && (#[trigger] slots[j]).project != id implies gsrc.contains(j) by {
            assert(gp(v.groups[j]));
        }
        lemma_project_removed_dense(slots, kept, gsrc, id, p, q);
    }
    assert forall|p: i64, q: Option<i64>| docs_dense_in(v.docs, p, q) implies #[trigger]
        docs_dense_in(dk, p, q) by {
        let slots = doc_slots(v.docs);
        let kept = doc_slots(dk);
        assert forall|i: int| 0 <= i < kept.len() implies #[trigger] kept[i] == slots[dsrc[i]] by {
            assert(dk[i] == v.docs[dsrc[i]]);
        }
        assert forall|i: int| 0 <= i < kept.len() implies (#[trigger] kept[i]).project != id by {
            assert(dp(v.docs[dsrc[i]]));
            assert(dk[i] == v.docs[dsrc[i]]);
        }
        assert forall|j: int|
            0 <= j < slots.len() && (#[trigger] slots[j]).project != id implies dsrc.contains(j) by {
            assert(dp(v.docs[j]));
        }
        lemma_project_removed_dense(slots, kept, dsrc, id, p, q);
    }
}

} // verus!
