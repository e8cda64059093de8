//! Histories: what holds of the tree of folders and documents after any
//! sequence of changes to it.
//!
//! A [`Change`] stands for one call of an operation on folders or
//! documents, and [`changed`] for the store that the call leaves, in the
//! words of that operation's own contract. The law of this module,
//! [`lemma_history_is_dense`], says that a valid store whose sibling sets
//! are dense stays so through every sequence of changes.

use vstd::prelude::*;
use crate::cascade::{
    doc_link_stays, doc_stays, draft_stays, folder_draft_stays, group_link_stays, group_stays,
};
use crate::doc_groups::{
    group_create_error, group_insert_error, group_order_error, group_slot, group_slots,
    groups_dense_in, lemma_doc_cascade_dense, lemma_group_cascade_dense, make_group_room,
    reordered_groups, target_order, turn_group, without_group,
};
use crate::docs::{
    doc_create_error, doc_insert_error, doc_move_error, doc_order_error, doc_reorder_error,
    doc_slot, doc_slots, docs_dense_in, draft_not_of, link_not_of, make_doc_room, moved_doc,
    reordered_docs, turn_doc, without_doc,
};
use crate::laws::all_dense;
use crate::models::{DocGroupView, DocView};
use crate::order::{
    bump_slot, lemma_append_dense, lemma_dense_untouched, lemma_insert_dense, lemma_join_dense,
    lemma_leave_dense, lemma_push_outside, lemma_remove_dense,
    lemma_remove_outside, lemma_swap_dense, lemma_to_end_dense, lower_slot, next_order,
    occupied, ranked, set_len, swap_slot, Slot,
};
use crate::store::{ascending, place_of, Keyed, Owned, StoreView};
use crate::tables::{
    kept_places, lemma_filter_ascending, lemma_filter_filed, lemma_filter_links,
    lemma_filter_owned, lemma_kept_places,
};

verus! {

/// One change to the tree: a folder or a document is created, at the end
/// of its sibling set or behind a given place; removed; moved one place
/// up or down; or, a document, moved to another folder.
pub enum Change {
    NewGroup { project_id: i64, name: Seq<char>, parent_id: Option<i64> },
    NewGroupAfter { project_id: i64, name: Seq<char>, parent_id: Option<i64>, after: i64 },
    DropGroup { id: i64 },
    TurnGroup { id: i64, direction: Seq<char> },
    NewDoc { project_id: i64, name: Seq<char>, doc_group_id: Option<i64> },
    NewDocAfter { project_id: i64, name: Seq<char>, doc_group_id: Option<i64>, after: i64 },
    DropDoc { id: i64 },
    TurnDoc { id: i64, direction: Seq<char> },
    MoveDoc { id: i64, to: Option<i64> },
}

/// The folder that a creation adds to the store.
pub open spec fn fresh_group(
    v: StoreView,
    project_id: i64,
    name: Seq<char>,
    parent_id: Option<i64>,
    order: int,
) -> DocGroupView {
    DocGroupView {
        id: v.next_id,
        project_id,
        name,
        parent_id,
        sort_order: Some(order as i64),
        notes: None,
    }
}

/// The document that a creation adds to the store.
pub open spec fn fresh_doc(
    v: StoreView,
    project_id: i64,
    name: Seq<char>,
    doc_group_id: Option<i64>,
    order: int,
) -> DocView {
    DocView {
        id: v.next_id,
        project_id,
        path: Seq::empty(),
        name: Some(name),
        timeline_id: None,
        text: Some(Seq::empty()),
        notes: None,
        doc_group_id,
        sort_order: Some(order as i64),
    }
}

/// The store with a new folder behind the last child of `parent_id`.
pub open spec fn with_new_group(
    v: StoreView,
    project_id: i64,
    name: Seq<char>,
    parent_id: Option<i64>,
) -> StoreView {
    let order = next_order(group_slots(v.groups), project_id, parent_id);
    StoreView {
        groups: v.groups.push(fresh_group(v, project_id, name, parent_id, order)),
        next_id: (v.next_id + 1) as i64,
        ..v
    }
}

/// The store with a new folder behind the place `after` among the
/// children of `parent_id`.
pub open spec fn with_new_group_after(
    v: StoreView,
    project_id: i64,
    name: Seq<char>,
    parent_id: Option<i64>,
    after: i64,
) -> StoreView {
    StoreView {
        groups: make_group_room(v.groups, project_id, parent_id, after).push(
            fresh_group(v, project_id, name, parent_id, after + 1),
        ),
        next_id: (v.next_id + 1) as i64,
        ..v
    }
}

/// The store with a new document behind the last document of the folder.
pub open spec fn with_new_doc(
    v: StoreView,
    project_id: i64,
    name: Seq<char>,
    doc_group_id: Option<i64>,
) -> StoreView {
    let order = next_order(doc_slots(v.docs), project_id, doc_group_id);
    StoreView {
        docs: v.docs.push(fresh_doc(v, project_id, name, doc_group_id, order)),
        next_id: (v.next_id + 1) as i64,
        ..v
    }
}

/// The store with a new document behind the place `after` among the
/// documents of the folder.
pub open spec fn with_new_doc_after(
    v: StoreView,
    project_id: i64,
    name: Seq<char>,
    doc_group_id: Option<i64>,
    after: i64,
) -> StoreView {
    StoreView {
        docs: make_doc_room(v.docs, project_id, doc_group_id, after).push(
            fresh_doc(v, project_id, name, doc_group_id, after + 1),
        ),
        next_id: (v.next_id + 1) as i64,
        ..v
    }
}

/// The store that the change leaves. A change that the operation refuses
/// leaves the store as it was.
pub open spec fn changed(v: StoreView, c: Change) -> StoreView {
    match c {
        Change::NewGroup { project_id, name, parent_id } => {
            if group_create_error(
                v,
                project_id,
                parent_id,
                next_order(group_slots(v.groups), project_id, parent_id),
            ) is None {
                with_new_group(v, project_id, name, parent_id)
            } else {
                v
            }
        },
        Change::NewGroupAfter { project_id, name, parent_id, after } => {
            if group_insert_error(v, project_id, parent_id, after) is None {
                with_new_group_after(v, project_id, name, parent_id, after)
            } else {
                v
            }
        },
        Change::DropGroup { id } => {
            if group_order_error(v, id) is None {
                without_group(v, id)
            } else {
                v
            }
        },
        Change::TurnGroup { id, direction } => {
            if group_order_error(v, id) is None {
                reordered_groups(v, id, direction)
            } else {
                v
            }
        },
        Change::NewDoc { project_id, name, doc_group_id } => {
            if doc_create_error(
                v,
                project_id,
                doc_group_id,
                next_order(doc_slots(v.docs), project_id, doc_group_id),
            ) is None {
                with_new_doc(v, project_id, name, doc_group_id)
            } else {
                v
            }
        },
        Change::NewDocAfter { project_id, name, doc_group_id, after } => {
            if doc_insert_error(v, project_id, doc_group_id, after) is None {
                with_new_doc_after(v, project_id, name, doc_group_id, after)
            } else {
                v
            }
        },
        Change::DropDoc { id } => {
            if doc_order_error(v, id) is None {
                without_doc(v, id)
            } else {
                v
            }
        },
        Change::TurnDoc { id, direction } => {
            if doc_reorder_error(v, id, direction) is None {
                reordered_docs(v, id, direction)
            } else {
                v
            }
        },
        Change::MoveDoc { id, to } => {
            if doc_move_error(v, id, to) is None {
                moved_doc(v, id, to)
            } else {
                v
            }
        },
    }
}

/// Whether the change aims at a place that its sibling set has: a row
/// put behind a place is put behind one of the `n` siblings, or, with -1,
/// before the first. Every other change aims well.
pub open spec fn aims_well(v: StoreView, c: Change) -> bool {
    match c {
        Change::NewGroupAfter { project_id, name, parent_id, after } => -1 <= after < set_len(
            group_slots(v.groups),
            project_id,
            parent_id,
        ),
        Change::NewDocAfter { project_id, name, doc_group_id, after } => -1 <= after < set_len(
            doc_slots(v.docs),
            project_id,
            doc_group_id,
        ),
        _ => true,
    }
}

/// The store after the changes, made one after the other.
pub open spec fn after_all(v: StoreView, changes: Seq<Change>) -> StoreView
    decreases changes.len(),
{
    if changes.len() == 0 {
        v
    } else {
        changed(after_all(v, changes.drop_last()), changes.last())
    }
}

/// Whether every one of the changes aims well at the store that it
/// meets.
pub open spec fn all_aim_well(v: StoreView, changes: Seq<Change>) -> bool
    decreases changes.len(),
{
    changes.len() > 0 ==> all_aim_well(v, changes.drop_last()) && aims_well(
        after_all(v, changes.drop_last()),
        changes.last(),
    )
}

/// A new folder at the end of its sibling set leaves the store valid
/// and every dense sibling set dense.
pub proof fn lemma_new_group(
    v: StoreView,
    project_id: i64,
    name: Seq<char>,
    parent_id: Option<i64>,
)
    requires
        v.wf(),
        group_create_error(
            v,
            project_id,
            parent_id,
            next_order(group_slots(v.groups), project_id, parent_id),
        ) is None,
    ensures
        with_new_group(v, project_id, name, parent_id).wf(),
        forall|p: i64, q: Option<i64>|
            groups_dense_in(v.groups, p, q) ==> #[trigger] groups_dense_in(
                with_new_group(v, project_id, name, parent_id).groups,
                p,
                q,
            ),
{
    let w = with_new_group(v, project_id, name, parent_id);
    let order = next_order(group_slots(v.groups), project_id, parent_id);
    let row = fresh_group(v, project_id, name, parent_id, order);
    assert(v.projects[place_of(v.projects, project_id)].key() == project_id);
    if parent_id is Some {
        assert(v.groups[place_of(v.groups, parent_id->0)].key() == parent_id->0);
    }
    assert(group_slots(w.groups) =~= group_slots(v.groups).push(group_slot(row)));
    assert forall|p: i64, q: Option<i64>| groups_dense_in(v.groups, p, q) implies #[trigger]
        groups_dense_in(w.groups, p, q) by {
        if p == project_id && q == parent_id {
            lemma_append_dense(group_slots(v.groups), p, q, order as i64);
        } else {
            lemma_push_outside(group_slots(v.groups), group_slot(row), p, q);
        }
    }
}

/// A new folder behind a place leaves the store valid and every other
/// dense sibling set dense; its own stays dense where the place is one
/// of the set.
pub proof fn lemma_new_group_after(
    v: StoreView,
    project_id: i64,
    name: Seq<char>,
    parent_id: Option<i64>,
    after: i64,
)
    requires
        v.wf(),
        group_insert_error(v, project_id, parent_id, after) is None,
    ensures
        with_new_group_after(v, project_id, name, parent_id, after).wf(),
        forall|p: i64, q: Option<i64>|
            groups_dense_in(v.groups, p, q) && (p != project_id || q != parent_id || -1 <= after
                < set_len(group_slots(v.groups), project_id, parent_id))
                ==> #[trigger] groups_dense_in(
                with_new_group_after(v, project_id, name, parent_id, after).groups,
                p,
                q,
            ),
{
    let w = with_new_group_after(v, project_id, name, parent_id, after);
    let row = fresh_group(v, project_id, name, parent_id, after + 1);
    let made = make_group_room(v.groups, project_id, parent_id, after);
    let slots = group_slots(v.groups);
    assert(v.projects[place_of(v.projects, project_id)].key() == project_id);
    if parent_id is Some {
        assert(v.groups[place_of(v.groups, parent_id->0)].key() == parent_id->0);
    }
    assert forall|j: int| 0 <= j < made.len() implies (#[trigger] made[j]).key()
        == v.groups[j].key() && made[j].owner() == v.groups[j].owner() && made[j].parent_id
        == v.groups[j].parent_id by {}
    assert(group_slots(w.groups) =~= group_slots(made).push(group_slot(row)));
    assert forall|j: int| 0 <= j < slots.len() implies #[trigger] group_slots(made)[j]
        == bump_slot(slots[j], project_id, parent_id, after) by {}
    assert forall|p: i64, q: Option<i64>|
        groups_dense_in(v.groups, p, q) && (p != project_id || q != parent_id || -1 <= after
            < set_len(slots, project_id, parent_id)) implies #[trigger] groups_dense_in(
        w.groups,
        p,
        q,
    ) by {
        if p == project_id && q == parent_id {
            lemma_insert_dense(slots, group_slots(made), project_id, parent_id, after);
        } else {
            lemma_dense_untouched(slots, group_slots(made), p, q);
            lemma_push_outside(group_slots(made), group_slot(row), p, q);
        }
    }
}

/// Removing a folder, with all that lies below it, leaves the store
/// valid and every dense sibling set dense.
pub proof fn lemma_drop_group(v: StoreView, id: i64)
    requires
        v.wf(),
        group_order_error(v, id) is None,
    ensures
        without_group(v, id).wf(),
        forall|p: i64, q: Option<i64>|
            groups_dense_in(v.groups, p, q) ==> #[trigger] groups_dense_in(
                without_group(v, id).groups,
                p,
                q,
            ),
        forall|p: i64, q: Option<i64>|
            docs_dense_in(v.docs, p, q) ==> #[trigger] docs_dense_in(
                without_group(v, id).docs,
                p,
                q,
            ),
{
    let w = without_group(v, id);
    let stays = group_stays(v.groups, id);
    let kept = v.groups.filter(stays);
    lemma_filter_ascending(v.groups, stays, v.next_id);
    lemma_filter_owned(v.groups, stays, v.next_id);
    lemma_filter_owned(v.docs, doc_stays(v.groups, id), v.next_id);
    lemma_filter_filed(v.docs, doc_stays(v.groups, id), v.next_id);
    lemma_filter_owned(v.drafts, draft_stays(v, id), v.next_id);
    lemma_filter_owned(v.folder_drafts, folder_draft_stays(v.groups, id), v.next_id);
    assert forall|j: int| 0 <= j < w.groups.len() implies (#[trigger] w.groups[j]).owner()
        < w.next_id by {
        assert(w.groups[j].owner() == kept[j].owner());
    }
    lemma_filter_ascending(v.docs, doc_stays(v.groups, id), v.next_id);
    lemma_filter_ascending(v.drafts, draft_stays(v, id), v.next_id);
    lemma_filter_ascending(v.folder_drafts, folder_draft_stays(v.groups, id), v.next_id);
    lemma_filter_links(v.doc_characters, doc_link_stays(v, id));
    lemma_filter_links(v.doc_events, doc_link_stays(v, id));
    lemma_filter_links(v.doc_places, doc_link_stays(v, id));
    lemma_filter_links(v.group_characters, group_link_stays(v.groups, id));
    lemma_filter_links(v.group_events, group_link_stays(v.groups, id));
    lemma_filter_links(v.group_places, group_link_stays(v.groups, id));
    lemma_kept_places(v.groups, stays);
    let kp = kept_places(v.groups, stays);
    assert forall|j: int| 0 <= j < w.groups.len() implies (#[trigger] w.groups[j]).key()
        == kept[j].key() by {}
    assert(ascending(w.groups, w.next_id));
    assert forall|j: int| 0 <= j < w.groups.len() implies ((
    #[trigger] w.groups[j]).parent_id matches Some(p) ==> p < w.groups[j].id) by {
        assert(kept[j] == v.groups[kp[j]]);
    }
    assert forall|p: i64, q: Option<i64>| groups_dense_in(v.groups, p, q) implies #[trigger]
        groups_dense_in(w.groups, p, q) by {
        lemma_group_cascade_dense(v.groups, v.next_id, id, p, q);
    }
    assert forall|p: i64, q: Option<i64>| docs_dense_in(v.docs, p, q) implies #[trigger]
        docs_dense_in(w.docs, p, q) by {
        lemma_doc_cascade_dense(v.groups, v.docs, id, p, q);
    }
}

/// Moving a folder one place up or down leaves the store valid and
/// every dense sibling set dense.
pub proof fn lemma_turn_group(v: StoreView, id: i64, direction: Seq<char>)
    requires
        v.wf(),
        group_order_error(v, id) is None,
    ensures
        reordered_groups(v, id, direction).wf(),
        forall|p: i64, q: Option<i64>|
            groups_dense_in(v.groups, p, q) ==> #[trigger] groups_dense_in(
                reordered_groups(v, id, direction).groups,
                p,
                q,
            ),
{
    let w = reordered_groups(v, id, direction);
    let at = place_of(v.groups, id);
    let g = v.groups[at];
    let current = g.sort_order->0;
    let slots = group_slots(v.groups);
    if w != v {
        let target = target_order(current, direction)->0 as i64;
        assert(w.groups =~= Seq::new(
            v.groups.len(),
            |i: int| turn_group(v.groups[i], id, g.project_id, g.parent_id, current, target),
        ));
        assert forall|j: int| 0 <= j < w.groups.len() implies (#[trigger] w.groups[j]).key()
            == v.groups[j].key() && w.groups[j].owner() == v.groups[j].owner()
            && w.groups[j].parent_id == v.groups[j].parent_id by {}
        assert(ascending(w.groups, w.next_id));
        assert(slots[at] == group_slot(v.groups[at]));
        assert(occupied(slots, g.project_id, g.parent_id, current));
        assert forall|p: i64, q: Option<i64>| groups_dense_in(v.groups, p, q) implies #[trigger]
            groups_dense_in(w.groups, p, q) by {
            if p == g.project_id && q == g.parent_id {
                assert forall|j: int| 0 <= j < slots.len() implies #[trigger] group_slots(
                    w.groups,
                )[j] == swap_slot(slots[j], g.project_id, g.parent_id, current, target) by {
                    assert(slots[j] == group_slot(v.groups[j]));
                    if j != at {
                        if j < at {
                            assert(v.groups[j].key() < v.groups[at].key());
                        } else {
                            assert(v.groups[at].key() < v.groups[j].key());
                        }
                        if ranked(slots[j], g.project_id, g.parent_id) {
                            if j < at {
                                assert(slots[j].order != slots[at].order);
                            } else {
                                assert(slots[at].order != slots[j].order);
                            }
                        }
                    }
                }
                lemma_swap_dense(
                    slots,
                    group_slots(w.groups),
                    g.project_id,
                    g.parent_id,
                    current,
                    target,
                );
            } else {
                assert forall|j: int| 0 <= j < slots.len() implies ranked(
                    #[trigger] slots[j],
                    p,
                    q,
                ) == ranked(#[trigger] group_slots(w.groups)[j], p, q) by {
                    assert(slots[j] == group_slot(v.groups[j]));
                }
                lemma_dense_untouched(slots, group_slots(w.groups), p, q);
            }
        }
    }
}

/// A new document at the end of its sibling set leaves the store valid
/// and every dense sibling set dense.
pub proof fn lemma_new_doc(
    v: StoreView,
    project_id: i64,
    name: Seq<char>,
    doc_group_id: Option<i64>,
)
    requires
        v.wf(),
        doc_create_error(
            v,
            project_id,
            doc_group_id,
            next_order(doc_slots(v.docs), project_id, doc_group_id),
        ) is None,
    ensures
        with_new_doc(v, project_id, name, doc_group_id).wf(),
        forall|p: i64, q: Option<i64>|
            docs_dense_in(v.docs, p, q) ==> #[trigger] docs_dense_in(
                with_new_doc(v, project_id, name, doc_group_id).docs,
                p,
                q,
            ),
{
    let w = with_new_doc(v, project_id, name, doc_group_id);
    let order = next_order(doc_slots(v.docs), project_id, doc_group_id);
    let row = fresh_doc(v, project_id, name, doc_group_id, order);
    assert(v.projects[place_of(v.projects, project_id)].key() == project_id);
    if doc_group_id is Some {
        assert(v.groups[place_of(v.groups, doc_group_id->0)].key() == doc_group_id->0);
    }
    assert(doc_slots(w.docs) =~= doc_slots(v.docs).push(doc_slot(row)));
    assert forall|p: i64, q: Option<i64>| docs_dense_in(v.docs, p, q) implies #[trigger]
        docs_dense_in(w.docs, p, q) by {
        if p == project_id && q == doc_group_id {
            lemma_append_dense(doc_slots(v.docs), p, q, order as i64);
        } else {
            lemma_push_outside(doc_slots(v.docs), doc_slot(row), p, q);
        }
    }
}

/// A new document behind a place leaves the store valid and every other
/// dense sibling set dense; its own stays dense where the place is one
/// of the set.
pub proof fn lemma_new_doc_after(
    v: StoreView,
    project_id: i64,
    name: Seq<char>,
    doc_group_id: Option<i64>,
    after: i64,
)
    requires
        v.wf(),
        doc_insert_error(v, project_id, doc_group_id, after) is None,
    ensures
        with_new_doc_after(v, project_id, name, doc_group_id, after).wf(),
        forall|p: i64, q: Option<i64>|
            docs_dense_in(v.docs, p, q) && (p != project_id || q != doc_group_id || -1 <= after
                < set_len(doc_slots(v.docs), project_id, doc_group_id))
                ==> #[trigger] docs_dense_in(
                with_new_doc_after(v, project_id, name, doc_group_id, after).docs,
                p,
                q,
            ),
{
    let w = with_new_doc_after(v, project_id, name, doc_group_id, after);
    let row = fresh_doc(v, project_id, name, doc_group_id, after + 1);
    let made = make_doc_room(v.docs, project_id, doc_group_id, after);
    let slots = doc_slots(v.docs);
    assert(v.projects[place_of(v.projects, project_id)].key() == project_id);
    if doc_group_id is Some {
        assert(v.groups[place_of(v.groups, doc_group_id->0)].key() == doc_group_id->0);
    }
    assert forall|j: int| 0 <= j < made.len() implies (#[trigger] made[j]).key()
        == v.docs[j].key() && made[j].owner() == v.docs[j].owner() && made[j].doc_group_id
        == v.docs[j].doc_group_id by {}
    assert(doc_slots(w.docs) =~= doc_slots(made).push(doc_slot(row)));
    assert forall|j: int| 0 <= j < slots.len() implies #[trigger] doc_slots(made)[j]
        == bump_slot(slots[j], project_id, doc_group_id, after) by {}
    assert forall|p: i64, q: Option<i64>|
        docs_dense_in(v.docs, p, q) && (p != project_id || q != doc_group_id || -1 <= after
            < set_len(slots, project_id, doc_group_id)) implies #[trigger] docs_dense_in(
        w.docs,
        p,
        q,
    ) by {
        if p == project_id && q == doc_group_id {
            lemma_insert_dense(slots, doc_slots(made), project_id, doc_group_id, after);
        } else {
            lemma_dense_untouched(slots, doc_slots(made), p, q);
            lemma_push_outside(doc_slots(made), doc_slot(row), p, q);
        }
    }
}

/// Removing a document leaves the store valid and every dense sibling
/// set dense.
pub proof fn lemma_drop_doc(v: StoreView, id: i64)
    requires
        v.wf(),
        doc_order_error(v, id) is None,
    ensures
        without_doc(v, id).wf(),
        forall|p: i64, q: Option<i64>|
            docs_dense_in(v.docs, p, q) ==> #[trigger] docs_dense_in(
                without_doc(v, id).docs,
                p,
                q,
            ),
{
    let w = without_doc(v, id);
    let at = place_of(v.docs, id);
    let d = v.docs[at];
    let gone = d.sort_order->0;
    lemma_filter_ascending(v.drafts, draft_not_of(id), v.next_id);
    lemma_filter_owned(v.drafts, draft_not_of(id), v.next_id);
    lemma_filter_links(v.doc_characters, link_not_of(id));
    lemma_filter_links(v.doc_events, link_not_of(id));
    lemma_filter_links(v.doc_places, link_not_of(id));
    let rest = v.docs.remove(at);
    assert forall|j: int| 0 <= j < w.docs.len() implies 0 < (#[trigger] w.docs[j]).key()
        < w.next_id && w.docs[j].owner() < w.next_id && (w.docs[j].doc_group_id matches Some(
        g,
    ) ==> g < w.next_id) by {
        let src = if j < at {
            j
        } else {
            j + 1
        };
        assert(w.docs[j].key() == rest[j].key());
        assert(rest[j] == v.docs[src]);
        assert(v.docs[src].owner() < v.next_id);
    }
    assert forall|i: int, j: int| 0 <= i < j < w.docs.len() implies (#[trigger] w.docs[i]).key()
        < (#[trigger] w.docs[j]).key() by {
        let si = if i < at {
            i
        } else {
            i + 1
        };
        let sj = if j < at {
            j
        } else {
            j + 1
        };
        assert(w.docs[i].key() == rest[i].key());
        assert(w.docs[j].key() == rest[j].key());
        assert(rest[i] == v.docs[si]);
        assert(rest[j] == v.docs[sj]);
        assert(v.docs[si].key() < v.docs[sj].key());
    }
    let slots = doc_slots(v.docs);
    let ns = doc_slots(w.docs);
    assert(slots[at] == doc_slot(d));
    assert forall|j: int| 0 <= j < ns.len() implies #[trigger] ns[j] == lower_slot(
        slots.remove(at)[j],
        d.project_id,
        d.doc_group_id,
        gone,
    ) by {
        let src = if j < at {
            j
        } else {
            j + 1
        };
        assert(rest[j] == v.docs[src]);
        assert(slots.remove(at)[j] == slots[src]);
    }
    assert forall|p: i64, q: Option<i64>| docs_dense_in(v.docs, p, q) implies #[trigger]
        docs_dense_in(w.docs, p, q) by {
        if p == d.project_id && q == d.doc_group_id {
            lemma_remove_dense(slots, ns, at, p, q);
        } else {
            lemma_remove_outside(slots, ns, at, p, q);
        }
    }
}

/// Moving a document one place up or down leaves the store valid and
/// every dense sibling set dense.
pub proof fn lemma_turn_doc(v: StoreView, id: i64, direction: Seq<char>)
    requires
        v.wf(),
        doc_order_error(v, id) is None,
    ensures
        reordered_docs(v, id, direction).wf(),
        forall|p: i64, q: Option<i64>|
            docs_dense_in(v.docs, p, q) ==> #[trigger] docs_dense_in(
                reordered_docs(v, id, direction).docs,
                p,
                q,
            ),
{
    let w = reordered_docs(v, id, direction);
    let at = place_of(v.docs, id);
    let g = v.docs[at];
    let current = g.sort_order->0;
    let slots = doc_slots(v.docs);
    if w != v {
        let target = target_order(current, direction)->0 as i64;
        assert(w.docs =~= Seq::new(
            v.docs.len(),
            |i: int| turn_doc(v.docs[i], id, g.project_id, g.doc_group_id, current, target),
        ));
        assert forall|j: int| 0 <= j < w.docs.len() implies (#[trigger] w.docs[j]).key()
            == v.docs[j].key() && w.docs[j].owner() == v.docs[j].owner()
            && w.docs[j].doc_group_id == v.docs[j].doc_group_id by {}
        assert(ascending(w.docs, w.next_id));
        assert(slots[at] == doc_slot(v.docs[at]));
        assert(occupied(slots, g.project_id, g.doc_group_id, current));
        assert forall|p: i64, q: Option<i64>| docs_dense_in(v.docs, p, q) implies #[trigger]
            docs_dense_in(w.docs, p, q) by {
            if p == g.project_id && q == g.doc_group_id {
                assert forall|j: int| 0 <= j < slots.len() implies #[trigger] doc_slots(
                    w.docs,
                )[j] == swap_slot(slots[j], g.project_id, g.doc_group_id, current, target) by {
                    assert(slots[j] == doc_slot(v.docs[j]));
                    if j != at {
                        if j < at {
                            assert(v.docs[j].key() < v.docs[at].key());
                        } else {
                            assert(v.docs[at].key() < v.docs[j].key());
                        }
                        if ranked(slots[j], g.project_id, g.doc_group_id) {
                            if j < at {
                                assert(slots[j].order != slots[at].order);
                            } else {
                                assert(slots[at].order != slots[j].order);
                            }
                        }
                    }
                }
                lemma_swap_dense(
                    slots,
                    doc_slots(w.docs),
                    g.project_id,
                    g.doc_group_id,
                    current,
                    target,
                );
            } else {
                assert forall|j: int| 0 <= j < slots.len() implies ranked(
                    #[trigger] slots[j],
                    p,
                    q,
                ) == ranked(#[trigger] doc_slots(w.docs)[j], p, q) by {
                    assert(slots[j] == doc_slot(v.docs[j]));
                }
                lemma_dense_untouched(slots, doc_slots(w.docs), p, q);
            }
        }
    }
}

/// Moving a document to another folder leaves the store valid and every
/// dense sibling set dense: the one that the document leaves, the one
/// that it joins, and all others.
pub proof fn lemma_move_doc(v: StoreView, id: i64, to: Option<i64>)
    requires
        v.wf(),
        doc_move_error(v, id, to) is None,
    ensures
        moved_doc(v, id, to).wf(),
        forall|p: i64, q: Option<i64>|
            docs_dense_in(v.docs, p, q) ==> #[trigger] docs_dense_in(
                moved_doc(v, id, to).docs,
                p,
                q,
            ),
{
    let w = moved_doc(v, id, to);
    let at = place_of(v.docs, id);
    let d = v.docs[at];
    let gone = d.sort_order->0;
    let next = next_order(doc_slots(v.docs), d.project_id, to) as i64;
    let placed = v.docs.update(at, DocView { doc_group_id: to, sort_order: Some(next), ..d });
    if to is Some {
        assert(v.groups[place_of(v.groups, to->0)].key() == to->0);
    }
    assert forall|j: int| 0 <= j < w.docs.len() implies (#[trigger] w.docs[j]).key()
        == v.docs[j].key() && w.docs[j].owner() == v.docs[j].owner() by {}
    assert(ascending(w.docs, w.next_id));
    assert forall|j: int| 0 <= j < w.docs.len() implies ((
    #[trigger] w.docs[j]).doc_group_id matches Some(g) ==> g < w.next_id) by {
        if j != at {
            assert(w.docs[j].doc_group_id == v.docs[j].doc_group_id);
        }
    }
    let slots = doc_slots(v.docs);
    let ns = doc_slots(w.docs);
    assert forall|j: int| 0 <= j < slots.len() && j != at implies #[trigger] ns[j]
        == lower_slot(slots[j], d.project_id, d.doc_group_id, gone) by {
        assert(placed[j] == v.docs[j]);
        assert(slots[j] == doc_slot(v.docs[j]));
    }
    assert(slots[at] == doc_slot(v.docs[at]));
    assert(ns[at] == lower_slot(
        Slot { scope: to, order: Some(next), ..slots[at] },
        d.project_id,
        d.doc_group_id,
        gone,
    ));
    assert forall|p: i64, q: Option<i64>| docs_dense_in(v.docs, p, q) implies #[trigger]
        docs_dense_in(w.docs, p, q) by {
        if p == d.project_id && q == d.doc_group_id && q == to {
            lemma_to_end_dense(slots, ns, at, p, q);
        } else if p == d.project_id && q == d.doc_group_id {
            lemma_leave_dense(slots, ns, at, p, q);
        } else if p == d.project_id && q == to {
            lemma_join_dense(slots, ns, at, p, q);
        } else {
            assert forall|j: int| 0 <= j < slots.len() implies ranked(#[trigger] slots[j], p, q)
                == ranked(#[trigger] ns[j], p, q) by {}
            lemma_dense_untouched(slots, ns, p, q);
        }
    }
}

/// One change that aims well leaves a valid store valid, and a store
/// whose sibling sets are all dense with all of them dense.
pub proof fn lemma_change_is_dense(v: StoreView, c: Change)
    requires
        v.wf(),
        all_dense(v),
        aims_well(v, c),
    ensures
        changed(v, c).wf(),
        all_dense(changed(v, c)),
{
    let w = changed(v, c);
    if w != v {
        match c {
            Change::NewGroup { project_id, name, parent_id } => {
                lemma_new_group(v, project_id, name, parent_id);
            },
            Change::NewGroupAfter { project_id, name, parent_id, after } => {
                lemma_new_group_after(v, project_id, name, parent_id, after);
            },
            Change::DropGroup { id } => {
                lemma_drop_group(v, id);
            },
            Change::TurnGroup { id, direction } => {
                lemma_turn_group(v, id, direction);
            },
            Change::NewDoc { project_id, name, doc_group_id } => {
                lemma_new_doc(v, project_id, name, doc_group_id);
            },
            Change::NewDocAfter { project_id, name, doc_group_id, after } => {
                lemma_new_doc_after(v, project_id, name, doc_group_id, after);
            },
            Change::DropDoc { id } => {
                lemma_drop_doc(v, id);
            },
            Change::TurnDoc { id, direction } => {
                lemma_turn_doc(v, id, direction);
            },
            Change::MoveDoc { id, to } => {
                lemma_move_doc(v, id, to);
            },
        }
        assert forall|p: i64, q: Option<i64>|
            #![trigger groups_dense_in(w.groups, p, q)]
            #![trigger docs_dense_in(w.docs, p, q)]
            groups_dense_in(w.groups, p, q) && docs_dense_in(w.docs, p, q) by {
            assert(groups_dense_in(v.groups, p, q));
            assert(docs_dense_in(v.docs, p, q));
        }
    }
}

/// The density of sibling sets is kept by every history: after any
/// sequence of creations, removals, moves and reorderings that aim well,
/// made on a valid store whose sibling sets are dense, the store is
/// valid and every sibling set of folders and of documents is dense.
pub proof fn lemma_history_is_dense(v: StoreView, changes: Seq<Change>)
    requires
        v.wf(),
        all_dense(v),
        all_aim_well(v, changes),
    ensures
        after_all(v, changes).wf(),
        all_dense(after_all(v, changes)),
    decreases changes.len(),
{
    if changes.len() > 0 {
        lemma_history_is_dense(v, changes.drop_last());
        lemma_change_is_dense(after_all(v, changes.drop_last()), changes.last());
    }
}

} // verus!
