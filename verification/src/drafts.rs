//! Drafts: snapshots of a document's text. A draft is stamped with the
//! moment of its creation, and the drafts of a document are listed with
//! the latest first.

use vstd::prelude::*;
use crate::clock::timestamp_now;
use crate::docs::draft_not_of;
use crate::models::{replace_text, DocView, Draft, DraftCreate, DraftUpdate, DraftView};
use crate::sorting::{is_listing, list_sorted};
use crate::store::{
    ascending, has_key, place_of, position, row_of, Keyed, Store, StoreError, StoreView,
};
use crate::tables::{lemma_filter_ascending, lemma_filter_owned, retain_rows};
use crate::text::{latest_first_key, latest_first_key_of};

verus! {

/// Why a draft cannot be created, if it cannot.
pub open spec fn draft_create_error(v: StoreView, doc_id: i64) -> Option<StoreError> {
    if !has_key(v.docs, doc_id) {
        Some(StoreError::NotFound)
    } else if v.next_id == i64::MAX {
        Some(StoreError::Exhausted)
    } else {
        None
    }
}

/// Creates a draft of the document, stamped with the moment `now`.
pub fn create_draft_at(store: &mut Store, doc_id: i64, req: DraftCreate, now: String) -> (r: Result<
    Draft,
    StoreError,
>)
    requires
        old(store).wf(),
    ensures
        final(store).wf(),
        match r {
            Ok(d) => {
                &&& draft_create_error(old(store)@, doc_id) is None
                &&& d@ == (DraftView {
                    id: old(store)@.next_id,
                    doc_id,
                    name: req.name@,
                    content: req.content@,
                    created_at: now@,
                    updated_at: now@,
                })
                &&& final(store)@ == (StoreView {
                    drafts: old(store)@.drafts.push(d@),
                    next_id: (old(store)@.next_id + 1) as i64,
                    ..old(store)@
                })
            },
            Err(e) => {
                &&& draft_create_error(old(store)@, doc_id) == Some(e)
                &&& final(store)@ == old(store)@
            },
        },
{
    if position(&store.docs, doc_id).is_none() {
        return Err(StoreError::NotFound);
    }
    if store.next_id == i64::MAX {
        return Err(StoreError::Exhausted);
    }
    let id = store.next_id;
    let row = Draft {
        id,
        doc_id,
        name: req.name,
        content: req.content,
        created_at: now.clone(),
        updated_at: now,
    };
    let out = row.clone();
    store.drafts.push(row);
    store.next_id = id + 1;
    proof {
        assert(store@.drafts =~= old(store)@.drafts.push(out@));
    }
    Ok(out)
}

/// Creates a draft of the document, stamped with the present moment.
/// Whatever the clock says, the draft carries one stamp for its creation
/// and its last change.
pub fn create_draft(store: &mut Store, doc_id: i64, req: DraftCreate) -> (r: Result<
    Draft,
    StoreError,
>)
    requires
        old(store).wf(),
    ensures
        final(store).wf(),
        match r {
            Ok(d) => {
                &&& draft_create_error(old(store)@, doc_id) is None
                &&& d@ == (DraftView {
                    id: old(store)@.next_id,
                    doc_id,
                    name: req.name@,
                    content: req.content@,
                    created_at: d@.created_at,
                    updated_at: d@.created_at,
                })
                &&& final(store)@ == (StoreView {
                    drafts: old(store)@.drafts.push(d@),
                    next_id: (old(store)@.next_id + 1) as i64,
                    ..old(store)@
                })
            },
            Err(e) => {
                &&& draft_create_error(old(store)@, doc_id) == Some(e)
                &&& final(store)@ == old(store)@
            },
        },
{
    let now = timestamp_now();
    create_draft_at(store, doc_id, req, now)
}

/// The draft with that identifier, if there is one.
pub fn get_draft(store: &Store, id: i64) -> (r: Result<Option<Draft>, StoreError>)
    requires
        store.wf(),
    ensures
        r matches Ok(found) && (match found {
            Some(d) => row_of(store@.drafts, id) == Some(d@),
            None => !has_key(store@.drafts, id),
        }),
{
    match position(&store.drafts, id) {
        Some(i) => Ok(Some(store.drafts[i].clone())),
        None => Ok(None),
    }
}

/// The drafts of the document.
pub open spec fn draft_of(doc_id: i64) -> spec_fn(DraftView) -> bool {
    |d: DraftView| d.doc_id == doc_id
}

/// The key by which drafts are listed: the latest first.
pub open spec fn draft_key() -> spec_fn(DraftView) -> Seq<i64> {
    |d: DraftView| latest_first_key(d.created_at, d.id)
}

/// The drafts of the document, the latest first.
pub fn list_drafts(store: &Store, doc_id: i64) -> (r: Result<Vec<Draft>, StoreError>)
    requires
        store.wf(),
    ensures
        r matches Ok(rows) && is_listing(
            rows.deep_view(),
            store@.drafts,
            draft_of(doc_id),
            draft_key(),
        ),
{
    let ghost view = store.drafts.deep_view();
    let mut picked: Vec<usize> = Vec::new();
    let mut keys: Vec<Vec<i64>> = Vec::new();
    let mut i: usize = 0;
    while i < store.drafts.len()
        invariant
            i <= store.drafts.len(),
            view == store.drafts.deep_view(),
            ascending(view, store.next_id),
            keys.len() == picked.len(),
            forall|m: int|
                0 <= m < picked.len() ==> #[trigger] picked[m] < i && draft_of(doc_id)(
                    view[picked[m] as int],
                ),
            forall|m: int, n: int|
                0 <= m < n < picked.len() ==> #[trigger] picked[m] < #[trigger] picked[n],
            forall|j: int|
                0 <= j < i && draft_of(doc_id)(#[trigger] view[j]) ==> picked@.contains(
                    j as usize,
                ),
            forall|m: int|
                0 <= m < picked.len() ==> (#[trigger] keys[m])@ == draft_key()(
                    view[picked[m] as int],
                ),
        decreases store.drafts.len() - i,
    {
        let d = &store.drafts[i];
        if d.doc_id == doc_id {
            let ghost before = picked@;
            assert(0 < view[i as int].key());
            let key = latest_first_key_of(d.created_at.as_str(), d.id);
            picked.push(i);
            keys.push(key);
            proof {
                assert forall|j: int|
                    0 <= j < i + 1 && draft_of(doc_id)(#[trigger] view[j]) implies picked@.contains(
                    j as usize,
                ) by {
                    if j < i {
                        assert(before.contains(j as usize));
                        let m = choose|m: int| 0 <= m < before.len() && before[m] == j as usize;
                        assert(picked@[m] == j as usize);
                    } else {
                        assert(picked@[picked.len() - 1] == j as usize);
                    }
                }
            }
        }
        i += 1;
    }
    Ok(list_sorted(&store.drafts, &picked, &keys, Ghost(draft_of(doc_id)), Ghost(draft_key())))
}

/// The draft with the fields given replaced, stamped as changed at
/// `now`.
pub open spec fn updated_draft(d: DraftView, req: DraftUpdate, now: Seq<char>) -> DraftView {
    DraftView {
        name: match req.name {
            Some(s) => s@,
            None => d.name,
        },
        content: match req.content {
            Some(s) => s@,
            None => d.content,
        },
        updated_at: now,
        ..d
    }
}

/// Replaces the fields given, keeps the others, and stamps the draft as
/// changed at the moment `now`. Fails where the draft does not exist.
pub fn update_draft_at(store: &mut Store, id: i64, req: DraftUpdate, now: String) -> (r: Result<
    Draft,
    StoreError,
>)
    requires
        old(store).wf(),
    ensures
        final(store).wf(),
        match r {
            Ok(d) => {
                &&& has_key(old(store)@.drafts, id)
                &&& d@ == updated_draft(
                    old(store)@.drafts[place_of(old(store)@.drafts, id)],
                    req,
                    now@,
                )
                &&& final(store)@ == (StoreView {
                    drafts: old(store)@.drafts.update(place_of(old(store)@.drafts, id), d@),
                    ..old(store)@
                })
            },
            Err(e) => {
                &&& !has_key(old(store)@.drafts, id)
                &&& e == StoreError::NotFound
                &&& final(store)@ == old(store)@
            },
        },
{
    let at = match position(&store.drafts, id) {
        Some(i) => i,
        None => {
            return Err(StoreError::NotFound);
        },
    };
    let new_name = replace_text(req.name, &store.drafts[at].name);
    let new_content = replace_text(req.content, &store.drafts[at].content);
    store.drafts[at].name = new_name;
    store.drafts[at].content = new_content;
    store.drafts[at].updated_at = now;
    let out = store.drafts[at].clone();
    proof {
        assert(store@.drafts =~= old(store)@.drafts.update(at as int, out@));
    }
    Ok(out)
}

/// Replaces the fields given, keeps the others, and stamps the draft as
/// changed at the present moment. Fails where the draft does not exist.
pub fn update_draft(store: &mut Store, id: i64, req: DraftUpdate) -> (r: Result<Draft, StoreError>)
    requires
        old(store).wf(),
    ensures
        final(store).wf(),
        match r {
            Ok(d) => {
                &&& has_key(old(store)@.drafts, id)
                &&& d@ == updated_draft(
                    old(store)@.drafts[place_of(old(store)@.drafts, id)],
                    req,
                    d@.updated_at,
                )
                &&& final(store)@ == (StoreView {
                    drafts: old(store)@.drafts.update(place_of(old(store)@.drafts, id), d@),
                    ..old(store)@
                })
            },
            Err(e) => {
                &&& !has_key(old(store)@.drafts, id)
                &&& e == StoreError::NotFound
                &&& final(store)@ == old(store)@
            },
        },
{
    let now = timestamp_now();
    update_draft_at(store, id, req, now)
}

/// Removes the draft. Fails where the draft does not exist.
pub fn delete_draft(store: &mut Store, id: i64) -> (r: Result<(), StoreError>)
    requires
        old(store).wf(),
    ensures
        final(store).wf(),
        match r {
            Ok(_) => {
                &&& has_key(old(store)@.drafts, id)
                &&& final(store)@ == (StoreView {
                    drafts: old(store)@.drafts.remove(place_of(old(store)@.drafts, id)),
                    ..old(store)@
                })
            },
            Err(e) => {
                &&& !has_key(old(store)@.drafts, id)
                &&& e == StoreError::NotFound
                &&& final(store)@ == old(store)@
            },
        },
{
    let at = match position(&store.drafts, id) {
        Some(i) => i,
        None => {
            return Err(StoreError::NotFound);
        },
    };
    store.drafts.remove(at);
    proof {
        let before = old(store)@.drafts;
        let after = store@.drafts;
        assert(after =~= before.remove(at as int));
        assert forall|j: int| 0 <= j < after.len() implies 0 < (#[trigger] after[j]).key()
            < store@.next_id by {
            let src = if j < at {
                j
            } else {
                j + 1
            };
            assert(after[j] == before[src]);
        }
        assert forall|i: int, j: int| 0 <= i < j < after.len() implies (#[trigger] after[i]).key()
            < (#[trigger] after[j]).key() by {
            let si = if i < at {
                i
            } else {
                i + 1
            };
            let sj = if j < at {
                j
            } else {
                j + 1
            };
            assert(after[i] == before[si]);
            assert(after[j] == before[sj]);
            assert(before[si].key() < before[sj].key());
        }
    }
    Ok(())
}

/// The store after the text of the draft was put back into its
/// document. Where the document is gone, nothing changes.
pub open spec fn restored(v: StoreView, draft_id: i64) -> StoreView {
    let d = v.drafts[place_of(v.drafts, draft_id)];
    if has_key(v.docs, d.doc_id) {
        let i = place_of(v.docs, d.doc_id);
        StoreView { docs: v.docs.update(i, DocView { text: Some(d.content), ..v.docs[i] }), ..v }
    } else {
        v
    }
}

/// Puts the text of the draft back into its document. Fails where the
/// draft does not exist.
pub fn restore_draft_to_doc(store: &mut Store, draft_id: i64) -> (r: Result<(), StoreError>)
    requires
        old(store).wf(),
    ensures
        final(store).wf(),
        match r {
            Ok(_) => {
                &&& has_key(old(store)@.drafts, draft_id)
                &&& final(store)@ == restored(old(store)@, draft_id)
            },
            Err(e) => {
                &&& !has_key(old(store)@.drafts, draft_id)
                &&& e == StoreError::NotFound
                &&& final(store)@ == old(store)@
            },
        },
{
    let at = match position(&store.drafts, draft_id) {
        Some(i) => i,
        None => {
            return Err(StoreError::NotFound);
        },
    };
    let doc_id = store.drafts[at].doc_id;
    match position(&store.docs, doc_id) {
        Some(i) => {
            let text = store.drafts[at].content.clone();
            store.docs[i].text = Some(text);
            proof {
                let before = old(store)@.docs;
                assert(store@.docs =~= before.update(
                    i as int,
                    DocView { text: Some(old(store)@.drafts[at as int].content), ..before[i as int] },
                ));
            }
        },
        None => {},
    }
    Ok(())
}

/// Removes every draft of the document.
pub fn delete_all_drafts_for_doc(store: &mut Store, doc_id: i64) -> (r: Result<(), StoreError>)
    requires
        old(store).wf(),
    ensures
        final(store).wf(),
        r is Ok,
        final(store)@ == (StoreView {
            drafts: old(store)@.drafts.filter(draft_not_of(doc_id)),
            ..old(store)@
        }),
{
    let ghost pred = draft_not_of(doc_id);
    let mut keep: Vec<bool> = Vec::new();
    let mut i: usize = 0;
    while i < store.drafts.len()
        invariant
            i <= store.drafts.len(),
            pred == draft_not_of(doc_id),
            keep.len() == i,
            forall|j: int|
                0 <= j < i ==> #[trigger] keep[j] == pred(store.drafts.deep_view()[j]),
        decreases store.drafts.len() - i,
    {
        keep.push(store.drafts[i].doc_id != doc_id);
        i += 1;
    }
    let kept = retain_rows(&store.drafts, &keep, Ghost(pred));
    store.drafts = kept;
    proof {
        lemma_filter_ascending(old(store)@.drafts, pred, old(store)@.next_id);
        lemma_filter_owned(old(store)@.drafts, pred, old(store)@.next_id);
    }
    Ok(())
}

} // verus!
