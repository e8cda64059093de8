//! The documents of a project: each optionally filed in a folder, and kept
//! in dense order among the documents of that folder. The documents that
//! are filed nowhere form one sibling set of their own.

use vstd::prelude::*;
use crate::histories::{
    changed, lemma_drop_doc, lemma_move_doc, lemma_new_doc, lemma_new_doc_after, lemma_turn_doc,
    Change,
};
use crate::doc_groups::target_order;
use crate::models::{Doc, DocView};
use crate::cascade::drafts_clear_of;
use crate::cascade::links_clear_of;
use crate::models::DraftView;
use crate::order::{
    bumped, dense_in, has_room, lemma_push_outside, lowered, next_order, occupied, ranked, set_len,
    top_order, Slot,
};
use crate::store::{
    growing, has_key, place_of, position, row_of, Keyed, Link, Owned, Store, StoreError, StoreView,
};
use crate::tables::{retain_links, retain_rows};
use crate::sorting::{is_listing, list_sorted};
use crate::text::text_eq;

verus! {

/// What ordering reads of a document: its project, its folder, its
/// order.
pub open spec fn doc_slot(d: DocView) -> Slot {
    Slot { project: d.project_id, scope: d.doc_group_id, order: d.sort_order }
}

/// The documents of a table, each reduced to what ordering reads.
pub open spec fn doc_slots(docs: Seq<DocView>) -> Seq<Slot> {
    Seq::new(docs.len(), |i: int| doc_slot(docs[i]))
}

/// The documents of the folder (of no folder, for `None`) in the project
/// are in dense order.
pub open spec fn docs_dense_in(docs: Seq<DocView>, project_id: i64, doc_group_id: Option<i64>) -> bool {
    dense_in(doc_slots(docs), project_id, doc_group_id)
}

/// Why a document cannot be created, if it cannot.
pub open spec fn doc_create_error(
    v: StoreView,
    project_id: i64,
    doc_group_id: Option<i64>,
    order: int,
) -> Option<StoreError> {
    if !has_key(v.projects, project_id) {
        Some(StoreError::NotFound)
    } else if doc_group_id is Some && !has_key(v.groups, doc_group_id->0) {
        Some(StoreError::NotFound)
    } else if v.next_id == i64::MAX || order > i64::MAX {
        Some(StoreError::Exhausted)
    } else {
        None
    }
}

/// The greatest order among the documents of the folder in the project.
pub fn top_doc_order(docs: &Vec<Doc>, project_id: i64, doc_group_id: Option<i64>) -> (r:
    Option<i64>)
    ensures
        r == top_order(doc_slots(docs.deep_view()), project_id, doc_group_id),
{
    let ghost slots = doc_slots(docs.deep_view());
    let mut top: Option<i64> = None;
    let mut i: usize = 0;
    while i < docs.len()
        invariant
            i <= docs.len(),
            slots == doc_slots(docs.deep_view()),
            top == top_order(slots.take(i as int), project_id, doc_group_id),
        decreases docs.len() - i,
    {
        let g = &docs[i];
        proof {
            assert(slots.take(i + 1).drop_last() =~= slots.take(i as int));
            assert(slots.take(i + 1).last() == doc_slot(g@));
        }
        if g.project_id == project_id && g.doc_group_id == doc_group_id {
            if let Some(o) = g.sort_order {
                top = match top {
                    Some(m) => if m >= o {
                        Some(m)
                    } else {
                        Some(o)
                    },
                    None => Some(o),
                };
            }
        }
        i += 1;
    }
    proof {
        assert(slots.take(docs.len() as int) =~= slots);
    }
    top
}

/// Creates a document as the last document of the folder.
///
/// The document receives the next identifier and the order one above the
/// greatest of its siblings, or 0 where it has none. Nothing else changes.
/// A dense sibling set stays dense.
pub fn create_doc(
    store: &mut Store,
    project_id: i64,
    name: &str,
    doc_group_id: Option<i64>,
) -> (r: Result<Doc, StoreError>)
    requires
        old(store).wf(),
    ensures
        final(store).wf(),
        final(store)@ == changed(
            old(store)@,
            (Change::NewDoc { project_id, name: name@, doc_group_id }),
        ),
        match r {
            Ok(g) => {
                &&& doc_create_error(
                    old(store)@,
                    project_id,
                    doc_group_id,
                    next_order(doc_slots(old(store)@.docs), project_id, doc_group_id),
                ) is None
                &&& g@ == (DocView {
                    id: old(store)@.next_id,
                    project_id,
                    path: Seq::empty(),
                    name: Some(name@),
                    timeline_id: None,
                    text: Some(Seq::empty()),
                    notes: None,
                    doc_group_id,
                    sort_order: Some(
                        next_order(doc_slots(old(store)@.docs), project_id, doc_group_id) as i64,
                    ),
                })
                &&& final(store)@ == (StoreView {
                    docs: old(store)@.docs.push(g@),
                    next_id: (old(store)@.next_id + 1) as i64,
                    ..old(store)@
                })
            },
            Err(e) => {
                &&& doc_create_error(
                    old(store)@,
                    project_id,
                    doc_group_id,
                    next_order(doc_slots(old(store)@.docs), project_id, doc_group_id),
                ) == Some(e)
                &&& final(store)@ == old(store)@
            },
        },
        forall|p: i64, q: Option<i64>|
            docs_dense_in(old(store)@.docs, p, q) ==> #[trigger] docs_dense_in(
                final(store)@.docs,
                p,
                q,
            ),
{
    if position(&store.projects, project_id).is_none() {
        return Err(StoreError::NotFound);
    }
    if let Some(p) = doc_group_id {
        if position(&store.groups, p).is_none() {
            return Err(StoreError::NotFound);
        }
    }
    let top = top_doc_order(&store.docs, project_id, doc_group_id);
    if store.next_id == i64::MAX {
        return Err(StoreError::Exhausted);
    }
    let order: i64 = match top {
        Some(m) => {
            if m == i64::MAX {
                return Err(StoreError::Exhausted);
            }
            m + 1
        },
        None => 0,
    };
    let id = store.next_id;
    let row = Doc {
        id,
        project_id,
        path: String::new(),
        name: Some(String::from_str(name)),
        timeline_id: None,
        text: Some(String::new()),
        notes: None,
        doc_group_id,
        sort_order: Some(order),
    };
    let out = row.clone();
    store.docs.push(row);
    store.next_id = id + 1;
    proof {
        let before = old(store)@.docs;
        let after = store@.docs;
        assert(after =~= before.push(out@));
        assert(store@ == (StoreView {
            docs: before.push(out@),
            next_id: (id + 1) as i64,
            ..old(store)@
        }));
        lemma_new_doc(old(store)@, project_id, name@, doc_group_id);
    }
    Ok(out)
}

/// The document with room made behind `after` among the documents of
/// the folder.
pub open spec fn bump_doc(
    d: DocView,
    project_id: i64,
    doc_group_id: Option<i64>,
    after: i64,
) -> DocView {
    if d.project_id == project_id && d.doc_group_id == doc_group_id {
        DocView { sort_order: bumped(d.sort_order, after), ..d }
    } else {
        d
    }
}

/// The table with room made behind `after` among the documents of
/// the folder.
pub open spec fn make_doc_room(
    docs: Seq<DocView>,
    project_id: i64,
    doc_group_id: Option<i64>,
    after: i64,
) -> Seq<DocView> {
    Seq::new(docs.len(), |i: int| bump_doc(docs[i], project_id, doc_group_id, after))
}

/// Why a document cannot be put behind `after`, if it cannot.
pub open spec fn doc_insert_error(
    v: StoreView,
    project_id: i64,
    doc_group_id: Option<i64>,
    after: i64,
) -> Option<StoreError> {
    if !has_key(v.projects, project_id) {
        Some(StoreError::NotFound)
    } else if doc_group_id is Some && !has_key(v.groups, doc_group_id->0) {
        Some(StoreError::NotFound)
    } else if v.next_id == i64::MAX || !has_room(
        doc_slots(v.docs),
        project_id,
        doc_group_id,
        after,
    ) {
        Some(StoreError::Exhausted)
    } else {
        None
    }
}

/// Whether a document of the folder sits at `order`.
pub fn doc_at(docs: &Vec<Doc>, project_id: i64, doc_group_id: Option<i64>, order: i64) -> (r:
    bool)
    ensures
        r == occupied(doc_slots(docs.deep_view()), project_id, doc_group_id, order),
{
    let ghost slots = doc_slots(docs.deep_view());
    let mut i: usize = 0;
    while i < docs.len()
        invariant
            i <= docs.len(),
            slots == doc_slots(docs.deep_view()),
            forall|j: int|
                0 <= j < i ==> !(ranked(#[trigger] slots[j], project_id, doc_group_id)
                    && slots[j].order == Some(order)),
        decreases docs.len() - i,
    {
        let g = &docs[i];
        assert(slots[i as int] == doc_slot(g@));
        if g.project_id == project_id && g.doc_group_id == doc_group_id && g.sort_order == Some(order) {
            return true;
        }
        i += 1;
    }
    false
}

/// Creates a document directly behind the place `after_sort_order` among
/// the documents of the folder.
///
/// Every sibling above that place moves up by one, then the document takes
/// the place `after_sort_order + 1`. A dense sibling set stays dense when
/// `after_sort_order` is one of its places or -1; other sibling sets are
/// not touched.
pub fn create_doc_after(
    store: &mut Store,
    project_id: i64,
    name: &str,
    doc_group_id: Option<i64>,
    after_sort_order: i64,
) -> (r: Result<Doc, StoreError>)
    requires
        old(store).wf(),
    ensures
        final(store).wf(),
        final(store)@ == changed(
            old(store)@,
            (Change::NewDocAfter { project_id, name: name@, doc_group_id, after: after_sort_order }),
        ),
        match r {
            Ok(g) => {
                &&& doc_insert_error(old(store)@, project_id, doc_group_id, after_sort_order)
                    is None
                &&& g@ == (DocView {
                    id: old(store)@.next_id,
                    project_id,
                    path: Seq::empty(),
                    name: Some(name@),
                    timeline_id: None,
                    text: Some(Seq::empty()),
                    notes: None,
                    doc_group_id,
                    sort_order: Some((after_sort_order + 1) as i64),
                })
                &&& final(store)@ == (StoreView {
                    docs: make_doc_room(
                        old(store)@.docs,
                        project_id,
                        doc_group_id,
                        after_sort_order,
                    ).push(g@),
                    next_id: (old(store)@.next_id + 1) as i64,
                    ..old(store)@
                })
            },
            Err(e) => {
                &&& doc_insert_error(old(store)@, project_id, doc_group_id, after_sort_order)
                    == Some(e)
                &&& final(store)@ == old(store)@
            },
        },
        forall|p: i64, q: Option<i64>|
            (p != project_id || q != doc_group_id) && docs_dense_in(old(store)@.docs, p, q)
                ==> #[trigger] docs_dense_in(final(store)@.docs, p, q),
        docs_dense_in(old(store)@.docs, project_id, doc_group_id) && -1 <= after_sort_order
            < set_len(doc_slots(old(store)@.docs), project_id, doc_group_id)
            ==> docs_dense_in(final(store)@.docs, project_id, doc_group_id),
{
    if position(&store.projects, project_id).is_none() {
        return Err(StoreError::NotFound);
    }
    if let Some(p) = doc_group_id {
        if position(&store.groups, p).is_none() {
            return Err(StoreError::NotFound);
        }
    }
    if store.next_id == i64::MAX || after_sort_order == i64::MAX || doc_at(
        &store.docs,
        project_id,
        doc_group_id,
        i64::MAX,
    ) {
        return Err(StoreError::Exhausted);
    }
    let ghost before = store@.docs;
    let ghost slots = doc_slots(before);
    let mut i: usize = 0;
    while i < store.docs.len()
        invariant
            i <= store.docs.len(),
            store.docs.len() == before.len(),
            before == old(store)@.docs,
            slots == doc_slots(before),
            !occupied(slots, project_id, doc_group_id, i64::MAX),
            forall|j: int|
                0 <= j < i ==> #[trigger] store.docs.deep_view()[j] == bump_doc(
                    before[j],
                    project_id,
                    doc_group_id,
                    after_sort_order,
                ),
            forall|j: int|
                i <= j < before.len() ==> #[trigger] store.docs.deep_view()[j] == before[j],
            store@ == (StoreView { docs: store.docs.deep_view(), ..old(store)@ }),
        decreases store.docs.len() - i,
    {
        let ghost prev = store.docs.deep_view();
        assert(prev[i as int] == before[i as int]);
        assert(slots[i as int] == doc_slot(before[i as int]));
        if store.docs[i].project_id == project_id && store.docs[i].doc_group_id == doc_group_id {
            if let Some(o) = store.docs[i].sort_order {
                if o > after_sort_order {
                    assert(o != i64::MAX);
                    store.docs[i].sort_order = Some(o + 1);
                }
            }
        }
        proof {
            let now = store.docs.deep_view();
            assert(now[i as int] == bump_doc(
                before[i as int],
                project_id,
                doc_group_id,
                after_sort_order,
            ));
            assert forall|j: int| 0 <= j < i + 1 implies #[trigger] now[j] == bump_doc(
                before[j],
                project_id,
                doc_group_id,
                after_sort_order,
            ) by {
                if j < i {
                    assert(now[j] == prev[j]);
                }
            }
            assert forall|j: int| i + 1 <= j < before.len() implies #[trigger] now[j]
                == before[j] by {
                assert(now[j] == prev[j]);
            }
        }
        i += 1;
    }
    let id = store.next_id;
    let row = Doc {
        id,
        project_id,
        path: String::new(),
        name: Some(String::from_str(name)),
        timeline_id: None,
        text: Some(String::new()),
        notes: None,
        doc_group_id,
        sort_order: Some(after_sort_order + 1),
    };
    let out = row.clone();
    let ghost made = store.docs.deep_view();
    store.docs.push(row);
    store.next_id = id + 1;
    proof {
        let after = store@.docs;
        assert(made =~= make_doc_room(before, project_id, doc_group_id, after_sort_order));
        assert(after =~= made.push(out@));
        assert(store@ == (StoreView {
            docs: made.push(out@),
            next_id: (id + 1) as i64,
            ..old(store)@
        }));
        lemma_new_doc_after(old(store)@, project_id, name@, doc_group_id, after_sort_order);
    }
    Ok(out)
}

/// Gives the document a new name. A document that does not exist is no
/// error: nothing changes then.
pub fn rename_doc(store: &mut Store, id: i64, new_name: &str) -> (r: Result<(), StoreError>)
    requires
        old(store).wf(),
    ensures
        final(store).wf(),
        r is Ok,
        final(store)@ == (if has_key(old(store)@.docs, id) {
            let i = place_of(old(store)@.docs, id);
            StoreView {
                docs: old(store)@.docs.update(
                    i,
                    DocView { name: Some(new_name@), ..old(store)@.docs[i] },
                ),
                ..old(store)@
            }
        } else {
            old(store)@
        }),
{
    match position(&store.docs, id) {
        Some(i) => {
            store.docs[i].name = Some(String::from_str(new_name));
            proof {
                let before = old(store)@.docs;
                assert(store@.docs =~= before.update(
                    i as int,
                    DocView { name: Some(new_name@), ..before[i as int] },
                ));
            }
        },
        None => {},
    }
    Ok(())
}

/// Replaces the notes of the document. A document that does not exist is no
/// error: nothing changes then.
pub fn update_doc_notes(store: &mut Store, id: i64, notes: &str) -> (r: Result<
    (),
    StoreError,
>)
    requires
        old(store).wf(),
    ensures
        final(store).wf(),
        r is Ok,
        final(store)@ == (if has_key(old(store)@.docs, id) {
            let i = place_of(old(store)@.docs, id);
            StoreView {
                docs: old(store)@.docs.update(
                    i,
                    DocView { notes: Some(notes@), ..old(store)@.docs[i] },
                ),
                ..old(store)@
            }
        } else {
            old(store)@
        }),
{
    match position(&store.docs, id) {
        Some(i) => {
            store.docs[i].notes = Some(String::from_str(notes));
            proof {
                let before = old(store)@.docs;
                assert(store@.docs =~= before.update(
                    i as int,
                    DocView { notes: Some(notes@), ..before[i as int] },
                ));
            }
        },
        None => {},
    }
    Ok(())
}

/// The document after the document `id`, which sat at `current`, changed
/// places with its sibling at `target`.
pub open spec fn turn_doc(
    g: DocView,
    id: i64,
    project_id: i64,
    doc_group_id: Option<i64>,
    current: i64,
    target: i64,
) -> DocView {
    if g.id == id {
        DocView { sort_order: Some(target), ..g }
    } else if g.project_id == project_id && g.doc_group_id == doc_group_id && g.sort_order == Some(
        target,
    ) {
        DocView { sort_order: Some(current), ..g }
    } else {
        g
    }
}

/// The store after the document `id` moved one place in `direction`. Where
/// no sibling sits at the place aimed at, nothing changes.
pub open spec fn reordered_docs(v: StoreView, id: i64, direction: Seq<char>) -> StoreView {
    let g = v.docs[place_of(v.docs, id)];
    let current = g.sort_order->0;
    match target_order(current, direction) {
        Some(t) => if i64::MIN <= t <= i64::MAX && occupied(
            doc_slots(v.docs),
            g.project_id,
            g.doc_group_id,
            t as i64,
        ) {
            StoreView {
                docs: Seq::new(
                    v.docs.len(),
                    |i: int|
                        turn_doc(v.docs[i], id, g.project_id, g.doc_group_id, current, t as i64),
                ),
                ..v
            }
        } else {
            v
        },
        None => v,
    }
}

/// Why a row cannot be moved or removed, if it cannot: it does not
/// exist, or it has no sort order.
pub open spec fn doc_order_error(v: StoreView, id: i64) -> Option<StoreError> {
    if !has_key(v.docs, id) {
        Some(StoreError::NotFound)
    } else if v.docs[place_of(v.docs, id)].sort_order is None {
        Some(StoreError::Unordered)
    } else {
        None
    }
}

/// Why a document cannot be moved in `direction`, if it cannot: it does
/// not exist, it has no sort order, or the direction is neither "up" nor
/// "down".
pub open spec fn doc_reorder_error(v: StoreView, id: i64, direction: Seq<char>) -> Option<
    StoreError,
> {
    if doc_order_error(v, id) is Some {
        doc_order_error(v, id)
    } else if direction != "up"@ && direction != "down"@ {
        Some(StoreError::InvalidDirection)
    } else {
        None
    }
}

/// Moves the document one place up or down among its siblings.
///
/// The document changes places with the sibling that sits at the place
/// aimed at. Where no sibling sits there (the first document moving up,
/// the last one moving down) nothing changes. A dense sibling set stays
/// dense.
pub fn reorder_doc(store: &mut Store, id: i64, direction: &str) -> (r: Result<
    (),
    StoreError,
>)
    requires
        old(store).wf(),
    ensures
        final(store).wf(),
        final(store)@ == changed(
            old(store)@,
            (Change::TurnDoc { id, direction: direction@ }),
        ),
        match r {
            Ok(_) => {
                &&& doc_reorder_error(old(store)@, id, direction@) is None
                &&& final(store)@ == reordered_docs(old(store)@, id, direction@)
            },
            Err(e) => {
                &&& doc_reorder_error(old(store)@, id, direction@) == Some(e)
                &&& final(store)@ == old(store)@
            },
        },
        forall|p: i64, q: Option<i64>|
            docs_dense_in(old(store)@.docs, p, q) ==> #[trigger] docs_dense_in(
                final(store)@.docs,
                p,
                q,
            ),
{
    let at = match position(&store.docs, id) {
        Some(i) => i,
        None => {
            return Err(StoreError::NotFound);
        },
    };
    let current = match store.docs[at].sort_order {
        Some(o) => o,
        None => {
            return Err(StoreError::Unordered);
        },
    };
    let project_id = store.docs[at].project_id;
    let doc_group_id = store.docs[at].doc_group_id;
    let target: i64 = if text_eq(direction, "up") {
        if current == i64::MIN {
            return Ok(());
        }
        current - 1
    } else if text_eq(direction, "down") {
        if current == i64::MAX {
            return Ok(());
        }
        current + 1
    } else {
        return Err(StoreError::InvalidDirection);
    };
    if !doc_at(&store.docs, project_id, doc_group_id, target) {
        return Ok(());
    }
    let ghost before = store@.docs;
    let ghost slots = doc_slots(before);
    let mut i: usize = 0;
    while i < store.docs.len()
        invariant
            i <= store.docs.len(),
            at < store.docs.len(),
            store.docs.len() == before.len(),
            before == old(store)@.docs,
            before[at as int].id == id,
            growing(before),
            current != target,
            forall|j: int|
                0 <= j < i ==> #[trigger] store.docs.deep_view()[j] == turn_doc(
                    before[j],
                    id,
                    project_id,
                    doc_group_id,
                    current,
                    target,
                ),
            forall|j: int|
                i <= j < before.len() ==> #[trigger] store.docs.deep_view()[j] == before[j],
            store@ == (StoreView { docs: store.docs.deep_view(), ..old(store)@ }),
        decreases store.docs.len() - i,
    {
        let ghost prev = store.docs.deep_view();
        assert(prev[i as int] == before[i as int]);
        if i == at {
            store.docs[i].sort_order = Some(target);
        } else if store.docs[i].project_id == project_id && store.docs[i].doc_group_id
            == doc_group_id && store.docs[i].sort_order == Some(target) {
            store.docs[i].sort_order = Some(current);
        }
        proof {
            let now = store.docs.deep_view();
            if i != at {
                assert(before[i as int].id != id) by {
                    if i < at {
                        assert(before[i as int].key() < before[at as int].key());
                    } else {
                        assert(before[at as int].key() < before[i as int].key());
                    }
                }
            }
            assert forall|j: int| 0 <= j < i + 1 implies #[trigger] now[j] == turn_doc(
                before[j],
                id,
                project_id,
                doc_group_id,
                current,
                target,
            ) by {
                if j < i {
                    assert(now[j] == prev[j]);
                }
            }
            assert forall|j: int| i + 1 <= j < before.len() implies #[trigger] now[j]
                == before[j] by {
                assert(now[j] == prev[j]);
            }
        }
        i += 1;
    }
    proof {
        let after = store@.docs;
        assert(after =~= Seq::new(
            before.len(),
            |i: int| turn_doc(before[i], id, project_id, doc_group_id, current, target),
        ));
        assert(store@ == reordered_docs(old(store)@, id, direction@));
        lemma_turn_doc(old(store)@, id, direction@);
    }
    Ok(())
}

/// The document with that identifier, if there is one.
pub fn get_doc(store: &Store, id: i64) -> (r: Result<Option<Doc>, StoreError>)
    requires
        store.wf(),
    ensures
        r matches Ok(found) && (match found {
            Some(d) => row_of(store@.docs, id) == Some(d@),
            None => !has_key(store@.docs, id),
        }),
{
    match position(&store.docs, id) {
        Some(i) => Ok(Some(store.docs[i].clone())),
        None => Ok(None),
    }
}

/// The document with that identifier, if there is one.
pub fn get(store: &Store, id: i64) -> (r: Result<Option<Doc>, StoreError>)
    requires
        store.wf(),
    ensures
        r matches Ok(found) && (match found {
            Some(d) => row_of(store@.docs, id) == Some(d@),
            None => !has_key(store@.docs, id),
        }),
{
    get_doc(store, id)
}

/// Replaces the text of the document. A document that does not exist is
/// no error: nothing changes then.
pub fn update_doc(store: &mut Store, id: i64, text: &str) -> (r: Result<(), StoreError>)
    requires
        old(store).wf(),
    ensures
        final(store).wf(),
        r is Ok,
        final(store)@ == (if has_key(old(store)@.docs, id) {
            let i = place_of(old(store)@.docs, id);
            StoreView {
                docs: old(store)@.docs.update(
                    i,
                    DocView { text: Some(text@), ..old(store)@.docs[i] },
                ),
                ..old(store)@
            }
        } else {
            old(store)@
        }),
{
    match position(&store.docs, id) {
        Some(i) => {
            store.docs[i].text = Some(String::from_str(text));
            proof {
                let before = old(store)@.docs;
                assert(store@.docs =~= before.update(
                    i as int,
                    DocView { text: Some(text@), ..before[i as int] },
                ));
            }
        },
        None => {},
    }
    Ok(())
}

/// Replaces the text of the document; another name of [`update_doc`].
pub fn update_doc_text(store: &mut Store, id: i64, text: &str) -> (r: Result<(), StoreError>)
    requires
        old(store).wf(),
    ensures
        final(store).wf(),
        r is Ok,
        final(store)@ == (if has_key(old(store)@.docs, id) {
            let i = place_of(old(store)@.docs, id);
            StoreView {
                docs: old(store)@.docs.update(
                    i,
                    DocView { text: Some(text@), ..old(store)@.docs[i] },
                ),
                ..old(store)@
            }
        } else {
            old(store)@
        }),
{
    update_doc(store, id, text)
}

/// Why a document cannot be created on the older path, if it cannot.
pub open spec fn plain_create_error(v: StoreView, project_id: i64) -> Option<StoreError> {
    if !has_key(v.projects, project_id) {
        Some(StoreError::NotFound)
    } else if v.next_id == i64::MAX {
        Some(StoreError::Exhausted)
    } else {
        None
    }
}

/// Creates a document on the older path: by a free path, in no folder and
/// without a sort order. Such a document takes no part in ordering, so no
/// sibling set changes.
pub fn create(
    store: &mut Store,
    project_id: i64,
    path: &str,
    name: Option<String>,
    timeline_id: Option<i64>,
    text: Option<String>,
) -> (r: Result<Doc, StoreError>)
    requires
        old(store).wf(),
    ensures
        final(store).wf(),
        match r {
            Ok(d) => {
                &&& plain_create_error(old(store)@, project_id) is None
                &&& d@ == (DocView {
                    id: old(store)@.next_id,
                    project_id,
                    path: path@,
                    name: crate::models::opt_text(name),
                    timeline_id,
                    text: crate::models::opt_text(text),
                    notes: None,
                    doc_group_id: None,
                    sort_order: None,
                })
                &&& final(store)@ == (StoreView {
                    docs: old(store)@.docs.push(d@),
                    next_id: (old(store)@.next_id + 1) as i64,
                    ..old(store)@
                })
            },
            Err(e) => {
                &&& plain_create_error(old(store)@, project_id) == Some(e)
                &&& final(store)@ == old(store)@
            },
        },
        forall|p: i64, q: Option<i64>|
            docs_dense_in(old(store)@.docs, p, q) ==> #[trigger] docs_dense_in(
                final(store)@.docs,
                p,
                q,
            ),
{
    if position(&store.projects, project_id).is_none() {
        return Err(StoreError::NotFound);
    }
    if store.next_id == i64::MAX {
        return Err(StoreError::Exhausted);
    }
    let id = store.next_id;
    let row = Doc {
        id,
        project_id,
        path: String::from_str(path),
        name,
        timeline_id,
        text,
        notes: None,
        doc_group_id: None,
        sort_order: None,
    };
    let out = row.clone();
    store.docs.push(row);
    store.next_id = id + 1;
    proof {
        let before = old(store)@.docs;
        let after = store@.docs;
        assert(after =~= before.push(out@));
        assert(store@ == (StoreView {
            docs: before.push(out@),
            next_id: (id + 1) as i64,
            ..old(store)@
        }));
        assert(doc_slots(after) =~= doc_slots(before).push(doc_slot(out@)));
        assert forall|p: i64, q: Option<i64>| docs_dense_in(before, p, q) implies #[trigger]
            docs_dense_in(after, p, q) by {
            lemma_push_outside(doc_slots(before), doc_slot(out@), p, q);
        }
    }
    Ok(out)
}

/// The document with the gap at `gone` closed among the documents of the
/// folder.
pub open spec fn lower_doc(
    d: DocView,
    project_id: i64,
    doc_group_id: Option<i64>,
    gone: i64,
) -> DocView {
    if d.project_id == project_id && d.doc_group_id == doc_group_id {
        DocView { sort_order: lowered(d.sort_order, gone), ..d }
    } else {
        d
    }
}

/// The table with the gap at `gone` closed among the documents of the
/// folder.
pub open spec fn close_doc_gap(
    docs: Seq<DocView>,
    project_id: i64,
    doc_group_id: Option<i64>,
    gone: i64,
) -> Seq<DocView> {
    Seq::new(docs.len(), |i: int| lower_doc(docs[i], project_id, doc_group_id, gone))
}

/// The drafts of other documents than `doc_id`.
pub open spec fn draft_not_of(doc_id: i64) -> spec_fn(DraftView) -> bool {
    |r: DraftView| r.doc_id != doc_id
}

/// The pairs of other owners than `owner`.
pub open spec fn link_not_of(owner: i64) -> spec_fn(Link) -> bool {
    |l: Link| l.owner != owner
}

/// The store without the document `id`: the document is gone, with its
/// drafts and its relations, and the siblings above it have moved down by
/// one.
pub open spec fn without_doc(v: StoreView, id: i64) -> StoreView {
    let at = place_of(v.docs, id);
    let d = v.docs[at];
    StoreView {
        docs: close_doc_gap(v.docs.remove(at), d.project_id, d.doc_group_id, d.sort_order->0),
        drafts: v.drafts.filter(draft_not_of(id)),
        doc_characters: v.doc_characters.filter(link_not_of(id)),
        doc_events: v.doc_events.filter(link_not_of(id)),
        doc_places: v.doc_places.filter(link_not_of(id)),
        ..v
    }
}

/// Lowers, in place, the order of every document of the folder that sits
/// above `gone`.
pub fn lower_docs_above(
    docs: &mut Vec<Doc>,
    project_id: i64,
    doc_group_id: Option<i64>,
    gone: i64,
)
    ensures
        final(docs).deep_view() == close_doc_gap(
            old(docs).deep_view(),
            project_id,
            doc_group_id,
            gone,
        ),
{
    let ghost before = docs.deep_view();
    let mut i: usize = 0;
    while i < docs.len()
        invariant
            i <= docs.len(),
            docs.len() == before.len(),
            forall|j: int|
                0 <= j < i ==> #[trigger] docs.deep_view()[j] == lower_doc(
                    before[j],
                    project_id,
                    doc_group_id,
                    gone,
                ),
            forall|j: int| i <= j < before.len() ==> #[trigger] docs.deep_view()[j] == before[j],
        decreases docs.len() - i,
    {
        let ghost prev = docs.deep_view();
        assert(prev[i as int] == before[i as int]);
        if docs[i].project_id == project_id && docs[i].doc_group_id == doc_group_id {
            if let Some(o) = docs[i].sort_order {
                if o > gone {
                    docs[i].sort_order = Some(o - 1);
                }
            }
        }
        proof {
            let now = docs.deep_view();
            assert forall|j: int| 0 <= j < i + 1 implies #[trigger] now[j] == lower_doc(
                before[j],
                project_id,
                doc_group_id,
                gone,
            ) by {
                if j < i {
                    assert(now[j] == prev[j]);
                }
            }
            assert forall|j: int| i + 1 <= j < before.len() implies #[trigger] now[j]
                == before[j] by {
                assert(now[j] == prev[j]);
            }
        }
        i += 1;
    }
    proof {
        assert(docs.deep_view() =~= close_doc_gap(before, project_id, doc_group_id, gone));
    }
}

/// Removes the document, with its drafts and relations, and closes the
/// gap that it leaves: every sibling above it moves down by one.
///
/// Fails, and changes nothing, where the document does not exist or has
/// no sort order. Dense sibling sets stay dense.
pub fn delete_doc(store: &mut Store, id: i64) -> (r: Result<(), StoreError>)
    requires
        old(store).wf(),
    ensures
        final(store).wf(),
        final(store)@ == changed(
            old(store)@,
            (Change::DropDoc { id }),
        ),
        match r {
            Ok(_) => {
                &&& doc_order_error(old(store)@, id) is None
                &&& final(store)@ == without_doc(old(store)@, id)
            },
            Err(e) => {
                &&& doc_order_error(old(store)@, id) == Some(e)
                &&& final(store)@ == old(store)@
            },
        },
        forall|p: i64, q: Option<i64>|
            docs_dense_in(old(store)@.docs, p, q) ==> #[trigger] docs_dense_in(
                final(store)@.docs,
                p,
                q,
            ),
{
    let at = match position(&store.docs, id) {
        Some(i) => i,
        None => {
            return Err(StoreError::NotFound);
        },
    };
    let gone = match store.docs[at].sort_order {
        Some(o) => o,
        None => {
            return Err(StoreError::Unordered);
        },
    };
    let project_id = store.docs[at].project_id;
    let doc_group_id = store.docs[at].doc_group_id;
    let ghost v = store@;
    let mut only: Vec<i64> = Vec::new();
    only.push(id);
    assert forall|x: i64| only@.contains(x) == (x == id) by {
        if x == id {
            assert(only@[0] == id);
        }
    }
    let keep_drafts = drafts_clear_of(&store.drafts, &only);
    let drafts = retain_rows(&store.drafts, &keep_drafts, Ghost(draft_not_of(id)));
    let keep_dc = links_clear_of(&store.doc_characters, &only);
    let doc_characters = retain_links(&store.doc_characters, &keep_dc, Ghost(link_not_of(id)));
    let keep_de = links_clear_of(&store.doc_events, &only);
    let doc_events = retain_links(&store.doc_events, &keep_de, Ghost(link_not_of(id)));
    let keep_dp = links_clear_of(&store.doc_places, &only);
    let doc_places = retain_links(&store.doc_places, &keep_dp, Ghost(link_not_of(id)));
    store.docs.remove(at);
    assert(store.docs.deep_view() =~= v.docs.remove(at as int));
    lower_docs_above(&mut store.docs, project_id, doc_group_id, gone);
    store.drafts = drafts;
    store.doc_characters = doc_characters;
    store.doc_events = doc_events;
    store.doc_places = doc_places;
    proof {
        let w = without_doc(v, id);
        assert(store@ == w);
        lemma_drop_doc(v, id);
    }
    Ok(())
}

/// Why a document cannot be moved to the folder, if it cannot.
pub open spec fn doc_move_error(v: StoreView, doc_id: i64, new_group_id: Option<i64>) -> Option<
    StoreError,
> {
    if doc_order_error(v, doc_id) is Some {
        doc_order_error(v, doc_id)
    } else if new_group_id is Some && !has_key(v.groups, new_group_id->0) {
        Some(StoreError::NotFound)
    } else if next_order(
        doc_slots(v.docs),
        v.docs[place_of(v.docs, doc_id)].project_id,
        new_group_id,
    ) > i64::MAX {
        Some(StoreError::Exhausted)
    } else {
        None
    }
}

/// The store after the document moved to the folder `new_group_id`: the
/// document sits behind the last document of that folder, and the
/// documents that stood above it in its old folder have moved down by
/// one.
pub open spec fn moved_doc(v: StoreView, doc_id: i64, new_group_id: Option<i64>) -> StoreView {
    let at = place_of(v.docs, doc_id);
    let d = v.docs[at];
    let next = next_order(doc_slots(v.docs), d.project_id, new_group_id);
    StoreView {
        docs: close_doc_gap(
            v.docs.update(
                at,
                DocView { doc_group_id: new_group_id, sort_order: Some(next as i64), ..d },
            ),
            d.project_id,
            d.doc_group_id,
            d.sort_order->0,
        ),
        ..v
    }
}

/// Moves the document to another folder, or to no folder with `None`.
///
/// The document is put behind the last document of the new folder, and
/// the gap that it leaves in the old one is closed. Fails, and changes
/// nothing, where the document does not exist or has no sort order, or
/// where the new folder does not exist. Dense sibling sets stay dense:
/// the one that the document leaves, the one that it joins, and all
/// others.
pub fn move_doc_to_group(store: &mut Store, doc_id: i64, new_group_id: Option<i64>) -> (r: Result<
    (),
    StoreError,
>)
    requires
        old(store).wf(),
    ensures
        final(store).wf(),
        final(store)@ == changed(
            old(store)@,
            (Change::MoveDoc { id: doc_id, to: new_group_id }),
        ),
        match r {
            Ok(_) => {
                &&& doc_move_error(old(store)@, doc_id, new_group_id) is None
                &&& final(store)@ == moved_doc(old(store)@, doc_id, new_group_id)
            },
            Err(e) => {
                &&& doc_move_error(old(store)@, doc_id, new_group_id) == Some(e)
                &&& final(store)@ == old(store)@
            },
        },
        forall|p: i64, q: Option<i64>|
            docs_dense_in(old(store)@.docs, p, q) ==> #[trigger] docs_dense_in(
                final(store)@.docs,
                p,
                q,
            ),
{
    let at = match position(&store.docs, doc_id) {
        Some(i) => i,
        None => {
            return Err(StoreError::NotFound);
        },
    };
    let gone = match store.docs[at].sort_order {
        Some(o) => o,
        None => {
            return Err(StoreError::Unordered);
        },
    };
    let project_id = store.docs[at].project_id;
    let old_group_id = store.docs[at].doc_group_id;
    if let Some(g) = new_group_id {
        if position(&store.groups, g).is_none() {
            return Err(StoreError::NotFound);
        }
    }
    let top = top_doc_order(&store.docs, project_id, new_group_id);
    let next: i64 = match top {
        Some(m) => {
            if m == i64::MAX {
                return Err(StoreError::Exhausted);
            }
            m + 1
        },
        None => 0,
    };
    let ghost v = store@;
    store.docs[at].doc_group_id = new_group_id;
    store.docs[at].sort_order = Some(next);
    let ghost placed = store.docs.deep_view();
    assert(placed =~= v.docs.update(
        at as int,
        DocView { doc_group_id: new_group_id, sort_order: Some(next), ..v.docs[at as int] },
    ));
    lower_docs_above(&mut store.docs, project_id, old_group_id, gone);
    proof {
        let w = moved_doc(v, doc_id, new_group_id);
        assert(store@ == w);
        lemma_move_doc(v, doc_id, new_group_id);
    }
    Ok(())
}

/// The documents of the project.
pub open spec fn doc_in(project_id: i64) -> spec_fn(DocView) -> bool {
    |d: DocView| d.project_id == project_id
}

/// The key by which documents are listed: the folder first, unfiled
/// documents before all others, then the sort order, documents without
/// one before the others.
pub open spec fn doc_key() -> spec_fn(DocView) -> Seq<i64> {
    |d: DocView|
        seq![
            if d.doc_group_id is Some {
                1i64
            } else {
                0i64
            },
            match d.doc_group_id {
                Some(g) => g,
                None => 0i64,
            },
            if d.sort_order is Some {
                1i64
            } else {
                0i64
            },
            match d.sort_order {
                Some(o) => o,
                None => 0i64,
            },
        ]
}

/// All documents of the project, the documents of one folder together
/// and in their order, unfiled documents first.
pub fn list_docs(store: &Store, project_id: i64) -> (r: Result<Vec<Doc>, StoreError>)
    requires
        store.wf(),
    ensures
        r matches Ok(rows) && is_listing(
            rows.deep_view(),
            store@.docs,
            doc_in(project_id),
            doc_key(),
        ),
{
    let ghost view = store.docs.deep_view();
    let mut picked: Vec<usize> = Vec::new();
    let mut keys: Vec<Vec<i64>> = Vec::new();
    let mut i: usize = 0;
    while i < store.docs.len()
        invariant
            i <= store.docs.len(),
            view == store.docs.deep_view(),
            keys.len() == picked.len(),
            forall|m: int|
                0 <= m < picked.len() ==> #[trigger] picked[m] < i && doc_in(project_id)(
                    view[picked[m] as int],
                ),
            forall|m: int, n: int|
                0 <= m < n < picked.len() ==> #[trigger] picked[m] < #[trigger] picked[n],
            forall|j: int|
                0 <= j < i && doc_in(project_id)(#[trigger] view[j]) ==> picked@.contains(
                    j as usize,
                ),
            forall|m: int|
                0 <= m < picked.len() ==> (#[trigger] keys[m])@ == doc_key()(
                    view[picked[m] as int],
                ),
        decreases store.docs.len() - i,
    {
        let d = &store.docs[i];
        if d.project_id == project_id {
            let ghost before = picked@;
            let mut key: Vec<i64> = Vec::new();
            key.push(
                if d.doc_group_id.is_some() {
                    1
                } else {
                    0
                },
            );
            key.push(
                match d.doc_group_id {
                    Some(g) => g,
                    None => 0,
                },
            );
            key.push(
                if d.sort_order.is_some() {
                    1
                } else {
                    0
                },
            );
            key.push(
                match d.sort_order {
                    Some(o) => o,
                    None => 0,
                },
            );
            assert(key@ =~= doc_key()(view[i as int]));
            picked.push(i);
            keys.push(key);
            proof {
                assert forall|j: int|
                    0 <= j < i + 1 && doc_in(project_id)(
                        #[trigger] view[j],
                    ) implies picked@.contains(j as usize) by {
                    if j < i {
                        assert(before.contains(j as usize));
                        let m = choose|m: int| 0 <= m < before.len() && before[m] == j as usize;
                        assert(picked@[m] == j as usize);
                    } else {
                        assert(picked@[picked.len() - 1] == j as usize);
                    }
                }
            }
        }
        i += 1;
    }
    Ok(list_sorted(&store.docs, &picked, &keys, Ghost(doc_in(project_id)), Ghost(doc_key())))
}

} // verus!
