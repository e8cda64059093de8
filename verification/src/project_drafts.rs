//! Drafts of a whole project: snapshots that are stamped with the moment
//! of their creation and of their last change, and listed with the one
//! changed last first.

use vstd::prelude::*;
use crate::clock::timestamp_now;
use crate::models::{
    replace_text, ProjectDraft, ProjectDraftCreate, ProjectDraftUpdate, ProjectDraftView,
};
use crate::sorting::{is_listing, list_sorted};
use crate::store::{
    ascending, has_key, place_of, position, row_of, Keyed, Store, StoreError, StoreView,
};
use crate::tables::{
    lemma_filter_ascending, lemma_filter_owned, not_owned_by, rows_not_owned_by,
};
use crate::text::{latest_first_key, latest_first_key_of};

verus! {

/// Why a draft cannot be created, if it cannot.
pub open spec fn project_draft_create_error(v: StoreView, project_id: i64) -> Option<StoreError> {
    if !has_key(v.projects, project_id) {
        Some(StoreError::NotFound)
    } else if v.next_id == i64::MAX {
        Some(StoreError::Exhausted)
    } else {
        None
    }
}

/// Creates a draft of the project, stamped with the moment `now`.
pub fn create_at(store: &mut Store, project_id: i64, req: ProjectDraftCreate, now: String) -> (r: Result<
    ProjectDraft,
    StoreError,
>)
    requires
        old(store).wf(),
    ensures
        final(store).wf(),
        match r {
            Ok(d) => {
                &&& project_draft_create_error(old(store)@, project_id) is None
                &&& d@ == (ProjectDraftView {
                    id: old(store)@.next_id,
                    project_id,
                    name: req.name@,
                    content: req.content@,
                    created_at: now@,
                    updated_at: now@,
                })
                &&& final(store)@ == (StoreView {
                    project_drafts: old(store)@.project_drafts.push(d@),
                    next_id: (old(store)@.next_id + 1) as i64,
                    ..old(store)@
                })
            },
            Err(e) => {
                &&& project_draft_create_error(old(store)@, project_id) == Some(e)
                &&& final(store)@ == old(store)@
            },
        },
{
    if position(&store.projects, project_id).is_none() {
        return Err(StoreError::NotFound);
    }
    if store.next_id == i64::MAX {
        return Err(StoreError::Exhausted);
    }
    let id = store.next_id;
    let row = ProjectDraft {
        id,
        project_id,
        name: req.name,
        content: req.content,
        created_at: now.clone(),
        updated_at: now,
    };
    let out = row.clone();
    store.project_drafts.push(row);
    store.next_id = id + 1;
    proof {
        assert(store@.project_drafts =~= old(store)@.project_drafts.push(out@));
    }
    Ok(out)
}

/// Creates a draft of the project, stamped with the present moment.
/// Whatever the clock says, the draft carries one stamp for its creation
/// and its last change.
pub fn create(store: &mut Store, project_id: i64, req: ProjectDraftCreate) -> (r: Result<
    ProjectDraft,
    StoreError,
>)
    requires
        old(store).wf(),
    ensures
        final(store).wf(),
        match r {
            Ok(d) => {
                &&& project_draft_create_error(old(store)@, project_id) is None
                &&& d@ == (ProjectDraftView {
                    id: old(store)@.next_id,
                    project_id,
                    name: req.name@,
                    content: req.content@,
                    created_at: d@.created_at,
                    updated_at: d@.created_at,
                })
                &&& final(store)@ == (StoreView {
                    project_drafts: old(store)@.project_drafts.push(d@),
                    next_id: (old(store)@.next_id + 1) as i64,
                    ..old(store)@
                })
            },
            Err(e) => {
                &&& project_draft_create_error(old(store)@, project_id) == Some(e)
                &&& final(store)@ == old(store)@
            },
        },
{
    let now = timestamp_now();
    create_at(store, project_id, req, now)
}

/// The draft with that identifier, if there is one.
pub fn get(store: &Store, id: i64) -> (r: Result<Option<ProjectDraft>, StoreError>)
    requires
        store.wf(),
    ensures
        r matches Ok(found) && (match found {
            Some(d) => row_of(store@.project_drafts, id) == Some(d@),
            None => !has_key(store@.project_drafts, id),
        }),
{
    match position(&store.project_drafts, id) {
        Some(i) => Ok(Some(store.project_drafts[i].clone())),
        None => Ok(None),
    }
}

/// The drafts of the project.
pub open spec fn project_draft_of(project_id: i64) -> spec_fn(ProjectDraftView) -> bool {
    |d: ProjectDraftView| d.project_id == project_id
}

/// The key by which drafts are listed: the one changed last first.
pub open spec fn project_draft_key() -> spec_fn(ProjectDraftView) -> Seq<i64> {
    |d: ProjectDraftView| latest_first_key(d.updated_at, d.id)
}

/// The drafts of the project, the one changed last first.
pub fn list(store: &Store, project_id: i64) -> (r: Result<Vec<ProjectDraft>, StoreError>)
    requires
        store.wf(),
    ensures
        r matches Ok(rows) && is_listing(
            rows.deep_view(),
            store@.project_drafts,
            project_draft_of(project_id),
            project_draft_key(),
        ),
{
    let ghost view = store.project_drafts.deep_view();
    let mut picked: Vec<usize> = Vec::new();
    let mut keys: Vec<Vec<i64>> = Vec::new();
    let mut i: usize = 0;
    while i < store.project_drafts.len()
        invariant
            i <= store.project_drafts.len(),
            view == store.project_drafts.deep_view(),
            ascending(view, store.next_id),
            keys.len() == picked.len(),
            forall|m: int|
                0 <= m < picked.len() ==> #[trigger] picked[m] < i && project_draft_of(project_id)(
                    view[picked[m] as int],
                ),
            forall|m: int, n: int|
                0 <= m < n < picked.len() ==> #[trigger] picked[m] < #[trigger] picked[n],
            forall|j: int|
                0 <= j < i && project_draft_of(project_id)(#[trigger] view[j]) ==> picked@.contains(
                    j as usize,
                ),
            forall|m: int|
                0 <= m < picked.len() ==> (#[trigger] keys[m])@ == project_draft_key()(
                    view[picked[m] as int],
                ),
        decreases store.project_drafts.len() - i,
    {
        let d = &store.project_drafts[i];
        if d.project_id == project_id {
            let ghost before = picked@;
            assert(0 < view[i as int].key());
            let key = latest_first_key_of(d.updated_at.as_str(), d.id);
            picked.push(i);
            keys.push(key);
            proof {
                assert forall|j: int|
                    0 <= j < i + 1 && project_draft_of(project_id)(#[trigger] view[j]) implies picked@.contains(
                    j as usize,
                ) by {
                    if j < i {
                        assert(before.contains(j as usize));
                        let m = choose|m: int| 0 <= m < before.len() && before[m] == j as usize;
                        assert(picked@[m] == j as usize);
                    } else {
                        assert(picked@[picked.len() - 1] == j as usize);
                    }
                }
            }
        }
        i += 1;
    }
    Ok(list_sorted(&store.project_drafts, &picked, &keys, Ghost(project_draft_of(project_id)), Ghost(project_draft_key())))
}

/// The draft with the fields given replaced, stamped as changed at
/// `now`.
pub open spec fn updated_project_draft(d: ProjectDraftView, req: ProjectDraftUpdate, now: Seq<char>) -> ProjectDraftView {
    ProjectDraftView {
        name: match req.name {
            Some(s) => s@,
            None => d.name,
        },
        content: match req.content {
            Some(s) => s@,
            None => d.content,
        },
        updated_at: now,
        ..d
    }
}

/// Replaces the fields given, keeps the others, and stamps the draft as
/// changed at the moment `now`. Fails where the draft does not exist.
pub fn update_at(store: &mut Store, id: i64, req: ProjectDraftUpdate, now: String) -> (r: Result<
    ProjectDraft,
    StoreError,
>)
    requires
        old(store).wf(),
    ensures
        final(store).wf(),
        match r {
            Ok(d) => {
                &&& has_key(old(store)@.project_drafts, id)
                &&& d@ == updated_project_draft(
                    old(store)@.project_drafts[place_of(old(store)@.project_drafts, id)],
                    req,
                    now@,
                )
                &&& final(store)@ == (StoreView {
                    project_drafts: old(store)@.project_drafts.update(place_of(old(store)@.project_drafts, id), d@),
                    ..old(store)@
                })
            },
            Err(e) => {
                &&& !has_key(old(store)@.project_drafts, id)
                &&& e == StoreError::NotFound
                &&& final(store)@ == old(store)@
            },
        },
{
    let at = match position(&store.project_drafts, id) {
        Some(i) => i,
        None => {
            return Err(StoreError::NotFound);
        },
    };
    let new_name = replace_text(req.name, &store.project_drafts[at].name);
    let new_content = replace_text(req.content, &store.project_drafts[at].content);
    store.project_drafts[at].name = new_name;
    store.project_drafts[at].content = new_content;
    store.project_drafts[at].updated_at = now;
    let out = store.project_drafts[at].clone();
    proof {
        assert(store@.project_drafts =~= old(store)@.project_drafts.update(at as int, out@));
    }
    Ok(out)
}

/// Replaces the fields given, keeps the others, and stamps the draft as
/// changed at the present moment. Fails where the draft does not exist.
pub fn update(store: &mut Store, id: i64, req: ProjectDraftUpdate) -> (r: Result<ProjectDraft, StoreError>)
    requires
        old(store).wf(),
    ensures
        final(store).wf(),
        match r {
            Ok(d) => {
                &&& has_key(old(store)@.project_drafts, id)
                &&& d@ == updated_project_draft(
                    old(store)@.project_drafts[place_of(old(store)@.project_drafts, id)],
                    req,
                    d@.updated_at,
                )
                &&& final(store)@ == (StoreView {
                    project_drafts: old(store)@.project_drafts.update(place_of(old(store)@.project_drafts, id), d@),
                    ..old(store)@
                })
            },
            Err(e) => {
                &&& !has_key(old(store)@.project_drafts, id)
                &&& e == StoreError::NotFound
                &&& final(store)@ == old(store)@
            },
        },
{
    let now = timestamp_now();
    update_at(store, id, req, now)
}

/// Removes the draft. Fails where the draft does not exist.
pub fn delete(store: &mut Store, id: i64) -> (r: Result<(), StoreError>)
    requires
        old(store).wf(),
    ensures
        final(store).wf(),
        match r {
            Ok(_) => {
                &&& has_key(old(store)@.project_drafts, id)
                &&& final(store)@ == (StoreView {
                    project_drafts: old(store)@.project_drafts.remove(place_of(old(store)@.project_drafts, id)),
                    ..old(store)@
                })
            },
            Err(e) => {
                &&& !has_key(old(store)@.project_drafts, id)
                &&& e == StoreError::NotFound
                &&& final(store)@ == old(store)@
            },
        },
{
    let at = match position(&store.project_drafts, id) {
        Some(i) => i,
        None => {
            return Err(StoreError::NotFound);
        },
    };
    store.project_drafts.remove(at);
    proof {
        let before = old(store)@.project_drafts;
        let after = store@.project_drafts;
        assert(after =~= before.remove(at as int));
        assert forall|j: int| 0 <= j < after.len() implies 0 < (#[trigger] after[j]).key()
            < store@.next_id by {
            let src = if j < at {
                j
            } else {
                j + 1
            };
            assert(after[j] == before[src]);
        }
        assert forall|i: int, j: int| 0 <= i < j < after.len() implies (#[trigger] after[i]).key()
            < (#[trigger] after[j]).key() by {
            let si = if i < at {
                i
            } else {
                i + 1
            };
            let sj = if j < at {
                j
            } else {
                j + 1
            };
            assert(after[i] == before[si]);
            assert(after[j] == before[sj]);
            assert(before[si].key() < before[sj].key());
        }
    }
    Ok(())
}

/// Removes every draft of the project.
pub fn delete_all_for_project(store: &mut Store, project_id: i64) -> (r: Result<(), StoreError>)
    requires
        old(store).wf(),
    ensures
        final(store).wf(),
        r is Ok,
        final(store)@ == (StoreView {
            project_drafts: old(store)@.project_drafts.filter(not_owned_by(project_id)),
            ..old(store)@
        }),
{
    let kept = rows_not_owned_by(&store.project_drafts, project_id);
    store.project_drafts = kept;
    proof {
        lemma_filter_ascending(
            old(store)@.project_drafts,
            not_owned_by(project_id),
            old(store)@.next_id,
        );
        lemma_filter_owned(
            old(store)@.project_drafts,
            not_owned_by(project_id),
            old(store)@.next_id,
        );
    }
    Ok(())
}

} // verus!
