//! Drafts of a folder: snapshots that stand in an order of their own
//! among the drafts of their folder.

use vstd::prelude::*;
use crate::clock::timestamp_now;
use crate::models::{
    replace_text, FolderDraft, FolderDraftCreate, FolderDraftUpdate, FolderDraftView,
};
use crate::sorting::{is_listing, lemma_listing_unique, list_sorted};
use crate::text::text_eq;
use crate::store::{
    ascending, has_key, lemma_place_of, place_of, position, row_of, Keyed, Owned, Store,
    StoreError, StoreView,
};
use crate::tables::{
    lemma_filter_ascending, lemma_filter_owned, not_owned_by, rows_not_owned_by,
};

verus! {

/// The drafts of the folder.
pub open spec fn folder_draft_of(doc_group_id: i64) -> spec_fn(FolderDraftView) -> bool {
    |d: FolderDraftView| d.doc_group_id == doc_group_id
}

/// The key by which the drafts of a folder are listed: the sort order,
/// drafts without one first.
pub open spec fn folder_draft_key() -> spec_fn(FolderDraftView) -> Seq<i64> {
    |d: FolderDraftView|
        seq![
            if d.sort_order is Some {
                1i64
            } else {
                0i64
            },
            match d.sort_order {
                Some(o) => o,
                None => 0i64,
            },
        ]
}

/// The greatest sort order among the first `n` drafts of the table that
/// belong to the folder, if one of them has a sort order.
pub open spec fn top_draft_order(rows: Seq<FolderDraftView>, doc_group_id: i64, n: nat) -> Option<i64>
    decreases n,
{
    if n == 0 || n > rows.len() {
        None
    } else {
        let rest = top_draft_order(rows, doc_group_id, (n - 1) as nat);
        let d = rows[n - 1];
        if d.doc_group_id == doc_group_id && d.sort_order is Some {
            match rest {
                Some(m) => if m >= d.sort_order->0 {
                    rest
                } else {
                    d.sort_order
                },
                None => d.sort_order,
            }
        } else {
            rest
        }
    }
}

/// The sort order that a new draft of the folder receives: one more
/// than the greatest, or 1 where no draft of the folder has one.
pub open spec fn next_draft_order(rows: Seq<FolderDraftView>, doc_group_id: i64) -> int {
    match top_draft_order(rows, doc_group_id, rows.len()) {
        Some(m) => m + 1,
        None => 1,
    }
}

/// The greatest sort order among the drafts of the folder.
pub fn top_draft_order_of(rows: &Vec<FolderDraft>, doc_group_id: i64) -> (r: Option<i64>)
    ensures
        r == top_draft_order(rows.deep_view(), doc_group_id, rows.len() as nat),
{
    let mut top: Option<i64> = None;
    let mut i: usize = 0;
    while i < rows.len()
        invariant
            i <= rows.len(),
            top == top_draft_order(rows.deep_view(), doc_group_id, i as nat),
        decreases rows.len() - i,
    {
        let d = &rows[i];
        if d.doc_group_id == doc_group_id {
            if let Some(o) = d.sort_order {
                top = match top {
                    Some(m) => if m >= o {
                        Some(m)
                    } else {
                        Some(o)
                    },
                    None => Some(o),
                };
            }
        }
        i += 1;
    }
    top
}

/// The listing of the drafts of the folder: in their order, drafts
/// without a sort order first, and drafts with one sort order in the
/// order of their creation.
pub open spec fn draft_listing(rows: Seq<FolderDraftView>, doc_group_id: i64) -> Seq<
    FolderDraftView,
> {
    choose|l: Seq<FolderDraftView>|
        is_listing(l, rows, folder_draft_of(doc_group_id), folder_draft_key())
}

/// The drafts of the folder, in their order.
pub fn list(store: &Store, doc_group_id: i64) -> (r: Result<Vec<FolderDraft>, StoreError>)
    requires
        store.wf(),
    ensures
        r matches Ok(rows) && rows.deep_view() == draft_listing(
            store@.folder_drafts,
            doc_group_id,
        ) && is_listing(
            rows.deep_view(),
            store@.folder_drafts,
            folder_draft_of(doc_group_id),
            folder_draft_key(),
        ) && rows.len() <= store.folder_drafts.len(),
{
    let ghost view = store.folder_drafts.deep_view();
    let mut picked: Vec<usize> = Vec::new();
    let mut keys: Vec<Vec<i64>> = Vec::new();
    let mut i: usize = 0;
    while i < store.folder_drafts.len()
        invariant
            i <= store.folder_drafts.len(),
            view == store.folder_drafts.deep_view(),
            keys.len() == picked.len(),
            forall|m: int|
                0 <= m < picked.len() ==> #[trigger] picked[m] < i && folder_draft_of(
                    doc_group_id,
                )(view[picked[m] as int]),
            forall|m: int, n: int|
                0 <= m < n < picked.len() ==> #[trigger] picked[m] < #[trigger] picked[n],
            forall|j: int|
                0 <= j < i && folder_draft_of(doc_group_id)(#[trigger] view[j]) ==> picked@.contains(
                    j as usize,
                ),
            forall|m: int|
                0 <= m < picked.len() ==> (#[trigger] keys[m])@ == folder_draft_key()(
                    view[picked[m] as int],
                ),
        decreases store.folder_drafts.len() - i,
    {
        let d = &store.folder_drafts[i];
        if d.doc_group_id == doc_group_id {
            let ghost before = picked@;
            let mut key: Vec<i64> = Vec::new();
            key.push(
                if d.sort_order.is_some() {
                    1
                } else {
                    0
                },
            );
            key.push(
                match d.sort_order {
                    Some(o) => o,
                    None => 0,
                },
            );
            assert(key@ =~= folder_draft_key()(view[i as int]));
            picked.push(i);
            keys.push(key);
            proof {
                assert forall|j: int|
                    0 <= j < i + 1 && folder_draft_of(doc_group_id)(
                        #[trigger] view[j],
                    ) implies picked@.contains(j as usize) by {
                    if j < i {
                        assert(before.contains(j as usize));
                        let m = choose|m: int| 0 <= m < before.len() && before[m] == j as usize;
                        assert(picked@[m] == j as usize);
                    } else {
                        assert(picked@[picked.len() - 1] == j as usize);
                    }
                }
            }
        }
        i += 1;
    }
    let out = list_sorted(
        &store.folder_drafts,
        &picked,
        &keys,
        Ghost(folder_draft_of(doc_group_id)),
        Ghost(folder_draft_key()),
    );
    proof {
        lemma_listing_unique(
            out.deep_view(),
            draft_listing(view, doc_group_id),
            view,
            folder_draft_of(doc_group_id),
            folder_draft_key(),
        );
        let places = crate::sorting::places_view(picked@);
        assert forall|a: int, b: int| 0 <= a < b < places.len() implies #[trigger] places[a]
            != #[trigger] places[b] by {
            assert(picked[a] < picked[b]);
        }
        crate::sorting::lemma_selection_fits(view.len(), places);
    }
    Ok(out)
}

/// The draft with that identifier, if there is one.
pub fn get(store: &Store, id: i64) -> (r: Result<Option<FolderDraft>, StoreError>)
    requires
        store.wf(),
    ensures
        r matches Ok(found) && (match found {
            Some(d) => row_of(store@.folder_drafts, id) == Some(d@),
            None => !has_key(store@.folder_drafts, id),
        }),
{
    match position(&store.folder_drafts, id) {
        Some(i) => Ok(Some(store.folder_drafts[i].clone())),
        None => Ok(None),
    }
}

/// The identifiers other than `id`.
pub open spec fn other_than(id: i64) -> spec_fn(i64) -> bool {
    |x: i64| x != id
}

/// The identifiers of the drafts of a listing, with the draft `id` taken
/// out and put back at the place `index`, or at the end where the
/// listing is shorter.
pub open spec fn rearranged(listing: Seq<FolderDraftView>, id: i64, index: int) -> Seq<i64> {
    let ids = Seq::new(listing.len(), |i: int| listing[i].id);
    let rest = ids.filter(other_than(id));
    if index >= rest.len() {
        rest.push(id)
    } else {
        rest.insert(index, id)
    }
}

/// The draft with the place that the arrangement gives it, where it
/// belongs to the folder and the arrangement names it.
pub open spec fn renumbered(d: FolderDraftView, doc_group_id: i64, arrangement: Seq<i64>) -> FolderDraftView {
    if d.doc_group_id == doc_group_id {
        match arrangement.index_of_first(d.id) {
            Some(place) => FolderDraftView { sort_order: Some(place as i64), ..d },
            None => d,
        }
    } else {
        d
    }
}

/// The store after the draft `id` was moved to the place `index` among
/// the drafts of its folder, and those were numbered anew from 0.
pub open spec fn moved_to_index(v: StoreView, id: i64, index: int) -> StoreView {
    let gid = v.folder_drafts[place_of(v.folder_drafts, id)].doc_group_id;
    let arrangement = rearranged(draft_listing(v.folder_drafts, gid), id, index);
    StoreView {
        folder_drafts: Seq::new(
            v.folder_drafts.len(),
            |i: int| renumbered(v.folder_drafts[i], gid, arrangement),
        ),
        ..v
    }
}

/// The place of the identifier in the list, if the list holds it: the
/// first, where it holds it more than once.
pub fn find_id(ids: &Vec<i64>, id: i64) -> (r: Option<usize>)
    ensures
        match r {
            Some(i) => ids@.index_of_first(id) == Some(i as int) && i < ids.len(),
            None => ids@.index_of_first(id) is None,
        },
{
    let mut i: usize = 0;
    while i < ids.len()
        invariant
            i <= ids.len(),
            forall|j: int| 0 <= j < i ==> ids[j] != id,
        decreases ids.len() - i,
    {
        if ids[i] == id {
            proof {
                assert(ids@[i as int] == id);
                assert(ids@.contains(id));
                ids@.index_of_first_ensures(id);
                let f = ids@.index_of_first(id)->0;
                if f < i {
                    assert(ids[f] != id);
                }
            }
            return Some(i);
        }
        i += 1;
    }
    proof {
        ids@.index_of_first_ensures(id);
        if ids@.index_of_first(id) is Some {
            let f = ids@.index_of_first(id)->0;
            assert(ids[f] != id);
        }
    }
    None
}

/// Moves the draft to the place `new_index` among the drafts of its
/// folder, or to the end where there are fewer, and numbers the drafts
/// of the folder anew from 0. Fails where the draft does not exist.
pub fn move_to_index(store: &mut Store, id: i64, new_index: usize) -> (r: Result<(), StoreError>)
    requires
        old(store).wf(),
    ensures
        final(store).wf(),
        match r {
            Ok(_) => has_key(old(store)@.folder_drafts, id) && final(store)@ == moved_to_index(
                old(store)@,
                id,
                new_index as int,
            ),
            Err(e) => !has_key(old(store)@.folder_drafts, id) && e == StoreError::NotFound
                && final(store)@ == old(store)@,
        },
{
    let at = match position(&store.folder_drafts, id) {
        Some(i) => i,
        None => {
            return Err(StoreError::NotFound);
        },
    };
    let gid = store.folder_drafts[at].doc_group_id;
    let ghost v = store@;
    let listing = match list(store, gid) {
        Ok(rows) => rows,
        Err(e) => {
            return Err(e);
        },
    };
    let ghost lv = listing.deep_view();
    let ghost ids = Seq::new(lv.len(), |i: int| lv[i].id);
    let ghost skip = other_than(id);
    let mut rest: Vec<i64> = Vec::new();
    let mut i: usize = 0;
    proof {
        reveal(Seq::filter);
        assert(ids.take(0).filter(skip) =~= rest@);
    }
    while i < listing.len()
        invariant
            i <= listing.len(),
            lv == listing.deep_view(),
            ids == Seq::new(lv.len(), |i: int| lv[i].id),
            skip == other_than(id),
            rest@ == ids.take(i as int).filter(skip),
            rest.len() <= i,
        decreases listing.len() - i,
    {
        proof {
            crate::tables::lemma_filter_push(ids.take(i as int), ids[i as int], skip);
            assert(ids.take(i as int).push(ids[i as int]) =~= ids.take(i + 1));
        }
        if listing[i].id != id {
            rest.push(listing[i].id);
        }
        i += 1;
    }
    proof {
        assert(ids.take(listing.len() as int) =~= ids);
    }
    if new_index >= rest.len() {
        rest.push(id);
    } else {
        rest.insert(new_index, id);
    }
    let ghost arrangement = rest@;
    assert(arrangement == rearranged(lv, id, new_index as int));
    proof {
        crate::import::lemma_ascending_len(v.folder_drafts, v.next_id);
    }
    let mut k: usize = 0;
    while k < store.folder_drafts.len()
        invariant
            k <= store.folder_drafts.len(),
            store.folder_drafts.len() == v.folder_drafts.len(),
            arrangement == rest@,
            rest.len() <= i64::MAX,
            forall|j: int|
                0 <= j < k ==> #[trigger] store.folder_drafts.deep_view()[j] == renumbered(
                    v.folder_drafts[j],
                    gid,
                    arrangement,
                ),
            forall|j: int|
                k <= j < v.folder_drafts.len() ==> #[trigger] store.folder_drafts.deep_view()[j]
                    == v.folder_drafts[j],
            store@ == (StoreView { folder_drafts: store.folder_drafts.deep_view(), ..v }),
        decreases store.folder_drafts.len() - k,
    {
        let ghost prev = store.folder_drafts.deep_view();
        assert(prev[k as int] == v.folder_drafts[k as int]);
        if store.folder_drafts[k].doc_group_id == gid {
            match find_id(&rest, store.folder_drafts[k].id) {
                Some(place) => {
                    store.folder_drafts[k].sort_order = Some(place as i64);
                },
                None => {},
            }
        }
        proof {
            let now = store.folder_drafts.deep_view();
            assert forall|j: int| 0 <= j < k + 1 implies #[trigger] now[j] == renumbered(
                v.folder_drafts[j],
                gid,
                arrangement,
            ) by {
                if j < k {
                    assert(now[j] == prev[j]);
                }
            }
            assert forall|j: int| k + 1 <= j < v.folder_drafts.len() implies #[trigger] now[j]
                == v.folder_drafts[j] by {
                assert(now[j] == prev[j]);
            }
        }
        k += 1;
    }
    proof {
        let w = moved_to_index(v, id, new_index as int);
        lemma_place_of(v.folder_drafts, at as int);
        assert(store@.folder_drafts =~= w.folder_drafts);
        assert forall|j: int| 0 <= j < w.folder_drafts.len() implies (
        #[trigger] w.folder_drafts[j]).key() == v.folder_drafts[j].key() && w.folder_drafts[j].owner()
            == v.folder_drafts[j].owner() by {}
        assert(ascending(w.folder_drafts, w.next_id));
    }
    Ok(())
}

/// Why a draft of a folder cannot be created, if it cannot.
pub open spec fn folder_draft_create_error(v: StoreView, doc_group_id: i64) -> Option<StoreError> {
    if !has_key(v.groups, doc_group_id) {
        Some(StoreError::NotFound)
    } else if v.next_id == i64::MAX || next_draft_order(v.folder_drafts, doc_group_id) > i64::MAX {
        Some(StoreError::Exhausted)
    } else {
        None
    }
}

/// The store after a draft of the folder was created behind the others,
/// stamped with the moment `now`.
pub open spec fn folder_draft_added(
    v: StoreView,
    doc_group_id: i64,
    name: Seq<char>,
    content: Seq<char>,
    now: Seq<char>,
) -> StoreView {
    StoreView {
        folder_drafts: v.folder_drafts.push(
            FolderDraftView {
                id: v.next_id,
                doc_group_id,
                name,
                content,
                created_at: now,
                updated_at: now,
                sort_order: Some(next_draft_order(v.folder_drafts, doc_group_id) as i64),
            },
        ),
        next_id: (v.next_id + 1) as i64,
        ..v
    }
}

/// The store after a draft of the folder was created: behind the
/// others, or at the place asked for, with the drafts of the folder
/// numbered anew from 0.
pub open spec fn folder_draft_created(
    v: StoreView,
    doc_group_id: i64,
    req: FolderDraftCreate,
    now: Seq<char>,
) -> StoreView {
    let added = folder_draft_added(v, doc_group_id, req.name@, req.content@, now);
    match req.insert_at_index {
        Some(index) => moved_to_index(added, v.next_id, index as int),
        None => added,
    }
}

/// Creates a draft of the folder, stamped with the moment `now`: behind
/// the other drafts of the folder, or at the place asked for. Returns
/// the draft as it then stands.
pub fn create_at(store: &mut Store, doc_group_id: i64, req: FolderDraftCreate, now: String) -> (r:
    Result<FolderDraft, StoreError>)
    requires
        old(store).wf(),
    ensures
        final(store).wf(),
        match r {
            Ok(d) => {
                &&& folder_draft_create_error(old(store)@, doc_group_id) is None
                &&& final(store)@ == folder_draft_created(old(store)@, doc_group_id, req, now@)
                &&& row_of(final(store)@.folder_drafts, old(store)@.next_id) == Some(d@)
            },
            Err(e) => {
                &&& folder_draft_create_error(old(store)@, doc_group_id) == Some(e)
                &&& final(store)@ == old(store)@
            },
        },
{
    if position(&store.groups, doc_group_id).is_none() {
        return Err(StoreError::NotFound);
    }
    if store.next_id == i64::MAX {
        return Err(StoreError::Exhausted);
    }
    let order: i64 = match top_draft_order_of(&store.folder_drafts, doc_group_id) {
        Some(m) => {
            if m == i64::MAX {
                return Err(StoreError::Exhausted);
            }
            m + 1
        },
        None => 1,
    };
    let id = store.next_id;
    let ghost v = store@;
    let row = FolderDraft {
        id,
        doc_group_id,
        name: req.name,
        content: req.content,
        created_at: now.clone(),
        updated_at: now,
        sort_order: Some(order),
    };
    store.folder_drafts.push(row);
    store.next_id = id + 1;
    proof {
        let added = folder_draft_added(v, doc_group_id, req.name@, req.content@, now@);
        assert(store@.folder_drafts =~= added.folder_drafts);
        assert(store@ == added);
    }
    match req.insert_at_index {
        Some(index) => {
            match move_to_index(store, id, index) {
                Ok(_) => {},
                Err(_) => {
                    proof {
                        let added = store@.folder_drafts;
                        assert(added[added.len() - 1].key() == id);
                        assert(false);
                    }
                },
            }
        },
        None => {},
    }
    let out = match position(&store.folder_drafts, id) {
        Some(i) => store.folder_drafts[i].clone(),
        None => {
            proof {
                let added = folder_draft_added(v, doc_group_id, req.name@, req.content@, now@);
                let last = added.folder_drafts.len() - 1;
                assert(added.folder_drafts[last].key() == id);
                assert(store@.folder_drafts[last].key() == id);
                assert(false);
            }
            return Err(StoreError::NotFound);
        },
    };
    Ok(out)
}

/// Creates a draft of the folder, stamped with the present moment.
pub fn create(store: &mut Store, doc_group_id: i64, req: FolderDraftCreate) -> (r: Result<
    FolderDraft,
    StoreError,
>)
    requires
        old(store).wf(),
    ensures
        final(store).wf(),
        match r {
            Ok(d) => {
                &&& folder_draft_create_error(old(store)@, doc_group_id) is None
                &&& final(store)@ == folder_draft_created(
                    old(store)@,
                    doc_group_id,
                    req,
                    d@.created_at,
                )
                &&& row_of(final(store)@.folder_drafts, old(store)@.next_id) == Some(d@)
            },
            Err(e) => {
                &&& folder_draft_create_error(old(store)@, doc_group_id) == Some(e)
                &&& final(store)@ == old(store)@
            },
        },
{
    let now = timestamp_now();
    let ghost stamp = now@;
    let ghost v = store@;
    let r = create_at(store, doc_group_id, req, now);
    proof {
        if r is Ok {
            lemma_created_stamp(v, doc_group_id, req, stamp);
        }
    }
    r
}

/// The draft that was created carries the stamp of its creation.
pub proof fn lemma_created_stamp(v: StoreView, doc_group_id: i64, req: FolderDraftCreate, now: Seq<char>)
    requires
        v.wf(),
        v.next_id < i64::MAX,
    ensures
        has_key(folder_draft_created(v, doc_group_id, req, now).folder_drafts, v.next_id),
        folder_draft_created(v, doc_group_id, req, now).folder_drafts[place_of(
            folder_draft_created(v, doc_group_id, req, now).folder_drafts,
            v.next_id,
        )].created_at == now,
{
    let added = folder_draft_added(v, doc_group_id, req.name@, req.content@, now);
    let made = folder_draft_created(v, doc_group_id, req, now);
    let last = added.folder_drafts.len() - 1;
    assert(added.folder_drafts[last].key() == v.next_id);
    assert(made.folder_drafts[last].key() == v.next_id);
    assert(made.folder_drafts[last].created_at == now);
    assert forall|i: int, j: int| 0 <= i < j < made.folder_drafts.len() implies (
    #[trigger] made.folder_drafts[i]).key() < (#[trigger] made.folder_drafts[j]).key() by {
        assert(made.folder_drafts[i].key() == added.folder_drafts[i].key());
        assert(made.folder_drafts[j].key() == added.folder_drafts[j].key());
        if j < last {
            assert(added.folder_drafts[i] == v.folder_drafts[i]);
            assert(added.folder_drafts[j] == v.folder_drafts[j]);
        } else {
            assert(added.folder_drafts[i] == v.folder_drafts[i]);
            assert(v.folder_drafts[i].key() < v.next_id);
        }
    }
    lemma_place_of(made.folder_drafts, last);
}

/// The draft with the fields given replaced, stamped as changed at
/// `now`.
pub open spec fn updated_folder_draft(d: FolderDraftView, req: FolderDraftUpdate, now: Seq<char>) -> FolderDraftView {
    FolderDraftView {
        name: match req.name {
            Some(s) => s@,
            None => d.name,
        },
        content: match req.content {
            Some(s) => s@,
            None => d.content,
        },
        updated_at: now,
        ..d
    }
}

/// Replaces the fields given, keeps the others, and stamps the draft as
/// changed at the moment `now`. Fails where the draft does not exist.
pub fn update_at(store: &mut Store, id: i64, req: FolderDraftUpdate, now: String) -> (r: Result<
    FolderDraft,
    StoreError,
>)
    requires
        old(store).wf(),
    ensures
        final(store).wf(),
        match r {
            Ok(d) => {
                &&& has_key(old(store)@.folder_drafts, id)
                &&& d@ == updated_folder_draft(
                    old(store)@.folder_drafts[place_of(old(store)@.folder_drafts, id)],
                    req,
                    now@,
                )
                &&& final(store)@ == (StoreView {
                    folder_drafts: old(store)@.folder_drafts.update(
                        place_of(old(store)@.folder_drafts, id),
                        d@,
                    ),
                    ..old(store)@
                })
            },
            Err(e) => {
                &&& !has_key(old(store)@.folder_drafts, id)
                &&& e == StoreError::NotFound
                &&& final(store)@ == old(store)@
            },
        },
{
    let at = match position(&store.folder_drafts, id) {
        Some(i) => i,
        None => {
            return Err(StoreError::NotFound);
        },
    };
    let new_name = replace_text(req.name, &store.folder_drafts[at].name);
    let new_content = replace_text(req.content, &store.folder_drafts[at].content);
    store.folder_drafts[at].name = new_name;
    store.folder_drafts[at].content = new_content;
    store.folder_drafts[at].updated_at = now;
    let out = store.folder_drafts[at].clone();
    proof {
        assert(store@.folder_drafts =~= old(store)@.folder_drafts.update(at as int, out@));
    }
    Ok(out)
}

/// Replaces the fields given, keeps the others, and stamps the draft as
/// changed at the present moment. Fails where the draft does not exist.
pub fn update(store: &mut Store, id: i64, req: FolderDraftUpdate) -> (r: Result<
    FolderDraft,
    StoreError,
>)
    requires
        old(store).wf(),
    ensures
        final(store).wf(),
        match r {
            Ok(d) => {
                &&& has_key(old(store)@.folder_drafts, id)
                &&& d@ == updated_folder_draft(
                    old(store)@.folder_drafts[place_of(old(store)@.folder_drafts, id)],
                    req,
                    d@.updated_at,
                )
                &&& final(store)@ == (StoreView {
                    folder_drafts: old(store)@.folder_drafts.update(
                        place_of(old(store)@.folder_drafts, id),
                        d@,
                    ),
                    ..old(store)@
                })
            },
            Err(e) => {
                &&& !has_key(old(store)@.folder_drafts, id)
                &&& e == StoreError::NotFound
                &&& final(store)@ == old(store)@
            },
        },
{
    let now = timestamp_now();
    update_at(store, id, req, now)
}

/// Removes the draft. Fails where the draft does not exist.
pub fn delete(store: &mut Store, id: i64) -> (r: Result<(), StoreError>)
    requires
        old(store).wf(),
    ensures
        final(store).wf(),
        match r {
            Ok(_) => {
                &&& has_key(old(store)@.folder_drafts, id)
                &&& final(store)@ == (StoreView {
                    folder_drafts: old(store)@.folder_drafts.remove(
                        place_of(old(store)@.folder_drafts, id),
                    ),
                    ..old(store)@
                })
            },
            Err(e) => {
                &&& !has_key(old(store)@.folder_drafts, id)
                &&& e == StoreError::NotFound
                &&& final(store)@ == old(store)@
            },
        },
{
    let at = match position(&store.folder_drafts, id) {
        Some(i) => i,
        None => {
            return Err(StoreError::NotFound);
        },
    };
    store.folder_drafts.remove(at);
    proof {
        let before = old(store)@.folder_drafts;
        let after = store@.folder_drafts;
        assert(after =~= before.remove(at as int));
        assert forall|j: int| 0 <= j < after.len() implies 0 < (#[trigger] after[j]).key()
            < store@.next_id && after[j].owner() < store@.next_id by {
            let src = if j < at {
                j
            } else {
                j + 1
            };
            assert(after[j] == before[src]);
            assert(before[src].owner() < store@.next_id);
        }
        assert forall|i: int, j: int| 0 <= i < j < after.len() implies (#[trigger] after[i]).key()
            < (#[trigger] after[j]).key() by {
            let si = if i < at {
                i
            } else {
                i + 1
            };
            let sj = if j < at {
                j
            } else {
                j + 1
            };
            assert(after[i] == before[si]);
            assert(after[j] == before[sj]);
            assert(before[si].key() < before[sj].key());
        }
    }
    Ok(())
}

/// Removes every draft of the folder.
pub fn delete_all_for_group(store: &mut Store, doc_group_id: i64) -> (r: Result<(), StoreError>)
    requires
        old(store).wf(),
    ensures
        final(store).wf(),
        r is Ok,
        final(store)@ == (StoreView {
            folder_drafts: old(store)@.folder_drafts.filter(not_owned_by(doc_group_id)),
            ..old(store)@
        }),
{
    let kept = rows_not_owned_by(&store.folder_drafts, doc_group_id);
    store.folder_drafts = kept;
    proof {
        lemma_filter_ascending(
            old(store)@.folder_drafts,
            not_owned_by(doc_group_id),
            old(store)@.next_id,
        );
        lemma_filter_owned(
            old(store)@.folder_drafts,
            not_owned_by(doc_group_id),
            old(store)@.next_id,
        );
    }
    Ok(())
}

/// The draft lies on the side asked for: below the place `current` for
/// a move up, above it for a move down.
pub open spec fn lies_beyond(d: FolderDraftView, doc_group_id: i64, current: i64, up: bool) -> bool {
    d.doc_group_id == doc_group_id && d.sort_order is Some && (if up {
        d.sort_order->0 < current
    } else {
        d.sort_order->0 > current
    })
}

/// Among the first `n` drafts of the table, the draft at place `p` is
/// the neighbour on the side asked for: the nearest one that lies there,
/// and the first in the table of those that lie as near.
pub open spec fn is_neighbour(
    rows: Seq<FolderDraftView>,
    n: int,
    doc_group_id: i64,
    current: i64,
    up: bool,
    p: int,
) -> bool {
    &&& 0 <= p < n
    &&& lies_beyond(rows[p], doc_group_id, current, up)
    &&& forall|q: int|
        0 <= q < n && lies_beyond(#[trigger] rows[q], doc_group_id, current, up) ==> (if up {
            rows[q].sort_order->0 <= rows[p].sort_order->0
        } else {
            rows[q].sort_order->0 >= rows[p].sort_order->0
        }) && (rows[q].sort_order == rows[p].sort_order ==> p <= q)
}

/// The draft has a neighbour on the side asked for.
pub open spec fn has_neighbour(rows: Seq<FolderDraftView>, doc_group_id: i64, current: i64, up: bool) -> bool {
    exists|p: int| is_neighbour(rows, rows.len() as int, doc_group_id, current, up, p)
}

/// The place of the neighbour on the side asked for.
pub open spec fn neighbour(rows: Seq<FolderDraftView>, doc_group_id: i64, current: i64, up: bool) -> int {
    choose|p: int| is_neighbour(rows, rows.len() as int, doc_group_id, current, up, p)
}

/// The place of the neighbour on the side asked for, if there is one.
pub fn find_neighbour(rows: &Vec<FolderDraft>, doc_group_id: i64, current: i64, up: bool) -> (r:
    Option<usize>)
    ensures
        match r {
            Some(p) => has_neighbour(rows.deep_view(), doc_group_id, current, up) && p == neighbour(
                rows.deep_view(),
                doc_group_id,
                current,
                up,
            ) && p < rows.len() && rows.deep_view()[p as int].sort_order is Some,
            None => !has_neighbour(rows.deep_view(), doc_group_id, current, up),
        },
{
    let ghost view = rows.deep_view();
    let mut best: Option<usize> = None;
    let mut i: usize = 0;
    while i < rows.len()
        invariant
            i <= rows.len(),
            view == rows.deep_view(),
            match best {
                Some(p) => is_neighbour(view, i as int, doc_group_id, current, up, p as int),
                None => forall|q: int|
                    0 <= q < i ==> !lies_beyond(#[trigger] view[q], doc_group_id, current, up),
            },
        decreases rows.len() - i,
    {
        let d = &rows[i];
        let mut beyond = false;
        let mut order: i64 = 0;
        if d.doc_group_id == doc_group_id {
            if let Some(o) = d.sort_order {
                order = o;
                beyond = if up {
                    o < current
                } else {
                    o > current
                };
            }
        }
        assert(beyond == lies_beyond(view[i as int], doc_group_id, current, up));
        if beyond {
            match best {
                Some(p) => {
                    let held = match rows[p].sort_order {
                        Some(h) => h,
                        None => 0,
                    };
                    let nearer = if up {
                        order > held
                    } else {
                        order < held
                    };
                    if nearer {
                        best = Some(i);
                    }
                },
                None => {
                    best = Some(i);
                },
            }
        }
        i += 1;
    }
    proof {
        match best {
            Some(p) => {
                let c = neighbour(view, doc_group_id, current, up);
                assert(is_neighbour(view, view.len() as int, doc_group_id, current, up, p as int));
                assert(is_neighbour(view, view.len() as int, doc_group_id, current, up, c));
                assert(lies_beyond(view[c], doc_group_id, current, up));
                assert(lies_beyond(view[p as int], doc_group_id, current, up));
            },
            None => {
                if has_neighbour(view, doc_group_id, current, up) {
                    let c = neighbour(view, doc_group_id, current, up);
                    assert(lies_beyond(view[c], doc_group_id, current, up));
                }
            },
        }
    }
    best
}

/// The store after the draft changed places with its neighbour on the
/// side asked for; as it was where it has none there, or where the
/// direction is neither "up" nor "down".
pub open spec fn reordered_draft(v: StoreView, id: i64, direction: Seq<char>) -> StoreView {
    let at = place_of(v.folder_drafts, id);
    let d = v.folder_drafts[at];
    let current = match d.sort_order {
        Some(o) => o,
        None => 0i64,
    };
    if direction != "up"@ && direction != "down"@ {
        v
    } else {
        let up = direction == "up"@;
        if has_neighbour(v.folder_drafts, d.doc_group_id, current, up) {
            let p = neighbour(v.folder_drafts, d.doc_group_id, current, up);
            StoreView {
                folder_drafts: v.folder_drafts.update(
                    at,
                    FolderDraftView { sort_order: v.folder_drafts[p].sort_order, ..d },
                ).update(p, FolderDraftView { sort_order: Some(current), ..v.folder_drafts[p] }),
                ..v
            }
        } else {
            v
        }
    }
}

/// Moves the draft one place up or down among the drafts of its folder:
/// it changes places with the nearest draft on that side. Fails where
/// the draft does not exist.
pub fn reorder(store: &mut Store, id: i64, direction: &str) -> (r: Result<(), StoreError>)
    requires
        old(store).wf(),
    ensures
        final(store).wf(),
        match r {
            Ok(_) => has_key(old(store)@.folder_drafts, id) && final(store)@ == reordered_draft(
                old(store)@,
                id,
                direction@,
            ),
            Err(e) => !has_key(old(store)@.folder_drafts, id) && e == StoreError::NotFound
                && final(store)@ == old(store)@,
        },
{
    let at = match position(&store.folder_drafts, id) {
        Some(i) => i,
        None => {
            return Err(StoreError::NotFound);
        },
    };
    let up = text_eq(direction, "up");
    let down = text_eq(direction, "down");
    if !up && !down {
        return Ok(());
    }
    let gid = store.folder_drafts[at].doc_group_id;
    let current = match store.folder_drafts[at].sort_order {
        Some(o) => o,
        None => 0,
    };
    let ghost v = store@;
    match find_neighbour(&store.folder_drafts, gid, current, up) {
        Some(p) => {
            let theirs = store.folder_drafts[p].sort_order;
            store.folder_drafts[at].sort_order = theirs;
            store.folder_drafts[p].sort_order = Some(current);
            proof {
                let w = reordered_draft(v, id, direction@);
                assert(store@.folder_drafts =~= w.folder_drafts);
                assert forall|j: int| 0 <= j < w.folder_drafts.len() implies (
                #[trigger] w.folder_drafts[j]).key() == v.folder_drafts[j].key()
                    && w.folder_drafts[j].owner() == v.folder_drafts[j].owner() by {}
                assert(ascending(w.folder_drafts, w.next_id));
            }
        },
        None => {},
    }
    Ok(())
}

} // verus!
