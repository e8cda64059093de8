//! The folders of a project: a forest in which the children of one parent
//! are kept in dense order.

use vstd::prelude::*;
use crate::histories::{
    changed, lemma_drop_group, lemma_new_group, lemma_new_group_after, lemma_turn_group, Change,
};
use crate::cascade::{
    doc_link_stays, doc_stays, draft_stays, drafts_clear_of, fallen_docs, fallen_groups,
    folder_draft_stays, folder_drafts_clear_of, group_link_stays, group_stays,
    lemma_under_above, links_clear_of, parent_in, under,
};
use crate::docs::{doc_slots, docs_dense_in};
use crate::models::{DocGroup, DocGroupView, DocView};
use crate::order::{
    bumped, dense_in, has_room, lemma_empty_dense, lemma_prune_dense, lemma_subtable_dense,
    lower_slot, lowered, next_order, occupied, ranked, set_len, top_order, Slot,
};
use crate::store::{
    ascending, growing, has_key, lemma_place_of, parents_first, place_of, position, Keyed, Owned,
    Store, StoreError, StoreView,
};
use crate::tables::{kept_places, lemma_kept_places, retain_links, retain_rows};
use crate::sorting::{is_listing, list_sorted};
use crate::text::text_eq;

verus! {

/// What ordering reads of a folder: its project, its parent, its order.
pub open spec fn group_slot(g: DocGroupView) -> Slot {
    Slot { project: g.project_id, scope: g.parent_id, order: g.sort_order }
}

/// The folders of a table, each reduced to what ordering reads.
pub open spec fn group_slots(groups: Seq<DocGroupView>) -> Seq<Slot> {
    Seq::new(groups.len(), |i: int| group_slot(groups[i]))
}

/// The children of `parent_id` in the project are in dense order.
pub open spec fn groups_dense_in(
    groups: Seq<DocGroupView>,
    project_id: i64,
    parent_id: Option<i64>,
) -> bool {
    dense_in(group_slots(groups), project_id, parent_id)
}

/// Why a folder cannot be created, if it cannot.
pub open spec fn group_create_error(
    v: StoreView,
    project_id: i64,
    parent_id: Option<i64>,
    order: int,
) -> Option<StoreError> {
    if !has_key(v.projects, project_id) {
        Some(StoreError::NotFound)
    } else if parent_id is Some && !has_key(v.groups, parent_id->0) {
        Some(StoreError::NotFound)
    } else if v.next_id == i64::MAX || order > i64::MAX {
        Some(StoreError::Exhausted)
    } else {
        None
    }
}

/// The greatest order among the children of `parent_id` in the project.
pub fn top_group_order(groups: &Vec<DocGroup>, project_id: i64, parent_id: Option<i64>) -> (r:
    Option<i64>)
    ensures
        r == top_order(group_slots(groups.deep_view()), project_id, parent_id),
{
    let ghost slots = group_slots(groups.deep_view());
    let mut top: Option<i64> = None;
    let mut i: usize = 0;
    while i < groups.len()
        invariant
            i <= groups.len(),
            slots == group_slots(groups.deep_view()),
            top == top_order(slots.take(i as int), project_id, parent_id),
        decreases groups.len() - i,
    {
        let g = &groups[i];
        proof {
            assert(slots.take(i + 1).drop_last() =~= slots.take(i as int));
            assert(slots.take(i + 1).last() == group_slot(g@));
        }
        if g.project_id == project_id && g.parent_id == parent_id {
            if let Some(o) = g.sort_order {
                top = match top {
                    Some(m) => if m >= o {
                        Some(m)
                    } else {
                        Some(o)
                    },
                    None => Some(o),
                };
            }
        }
        i += 1;
    }
    proof {
        assert(slots.take(groups.len() as int) =~= slots);
    }
    top
}

/// Creates a folder as the last child of `parent_id`.
///
/// The folder receives the next identifier and the order one above the
/// greatest of its siblings, or 0 where it has none. Nothing else changes.
/// A dense sibling set stays dense.
pub fn create_doc_group(
    store: &mut Store,
    project_id: i64,
    name: &str,
    parent_id: Option<i64>,
) -> (r: Result<DocGroup, StoreError>)
    requires
        old(store).wf(),
    ensures
        final(store).wf(),
        final(store)@ == changed(
            old(store)@,
            (Change::NewGroup { project_id, name: name@, parent_id }),
        ),
        match r {
            Ok(g) => {
                &&& group_create_error(
                    old(store)@,
                    project_id,
                    parent_id,
                    next_order(group_slots(old(store)@.groups), project_id, parent_id),
                ) is None
                &&& g@ == (DocGroupView {
                    id: old(store)@.next_id,
                    project_id,
                    name: name@,
                    parent_id,
                    sort_order: Some(
                        next_order(group_slots(old(store)@.groups), project_id, parent_id) as i64,
                    ),
                    notes: None,
                })
                &&& final(store)@ == (StoreView {
                    groups: old(store)@.groups.push(g@),
                    next_id: (old(store)@.next_id + 1) as i64,
                    ..old(store)@
                })
            },
            Err(e) => {
                &&& group_create_error(
                    old(store)@,
                    project_id,
                    parent_id,
                    next_order(group_slots(old(store)@.groups), project_id, parent_id),
                ) == Some(e)
                &&& final(store)@ == old(store)@
            },
        },
        forall|p: i64, q: Option<i64>|
            groups_dense_in(old(store)@.groups, p, q) ==> #[trigger] groups_dense_in(
                final(store)@.groups,
                p,
                q,
            ),
{
    if position(&store.projects, project_id).is_none() {
        return Err(StoreError::NotFound);
    }
    if let Some(p) = parent_id {
        if position(&store.groups, p).is_none() {
            return Err(StoreError::NotFound);
        }
    }
    let top = top_group_order(&store.groups, project_id, parent_id);
    if store.next_id == i64::MAX {
        return Err(StoreError::Exhausted);
    }
    let order: i64 = match top {
        Some(m) => {
            if m == i64::MAX {
                return Err(StoreError::Exhausted);
            }
            m + 1
        },
        None => 0,
    };
    let id = store.next_id;
    let row = DocGroup {
        id,
        project_id,
        name: String::from_str(name),
        parent_id,
        sort_order: Some(order),
        notes: None,
    };
    let out = row.clone();
    store.groups.push(row);
    store.next_id = id + 1;
    proof {
        let before = old(store)@.groups;
        let after = store@.groups;
        assert(after =~= before.push(out@));
        assert(store@ == (StoreView {
            groups: before.push(out@),
            next_id: (id + 1) as i64,
            ..old(store)@
        }));
        lemma_new_group(old(store)@, project_id, name@, parent_id);
    }
    Ok(out)
}

/// The folder with room made behind `after` among the children of
/// `parent_id`.
pub open spec fn bump_group(
    g: DocGroupView,
    project_id: i64,
    parent_id: Option<i64>,
    after: i64,
) -> DocGroupView {
    if g.project_id == project_id && g.parent_id == parent_id {
        DocGroupView { sort_order: bumped(g.sort_order, after), ..g }
    } else {
        g
    }
}

/// The table with room made behind `after` among the children of
/// `parent_id`.
pub open spec fn make_group_room(
    groups: Seq<DocGroupView>,
    project_id: i64,
    parent_id: Option<i64>,
    after: i64,
) -> Seq<DocGroupView> {
    Seq::new(groups.len(), |i: int| bump_group(groups[i], project_id, parent_id, after))
}

/// Why a folder cannot be put behind `after`, if it cannot.
pub open spec fn group_insert_error(
    v: StoreView,
    project_id: i64,
    parent_id: Option<i64>,
    after: i64,
) -> Option<StoreError> {
    if !has_key(v.projects, project_id) {
        Some(StoreError::NotFound)
    } else if parent_id is Some && !has_key(v.groups, parent_id->0) {
        Some(StoreError::NotFound)
    } else if v.next_id == i64::MAX || !has_room(
        group_slots(v.groups),
        project_id,
        parent_id,
        after,
    ) {
        Some(StoreError::Exhausted)
    } else {
        None
    }
}

/// Whether a child of `parent_id` sits at `order`.
pub fn group_at(groups: &Vec<DocGroup>, project_id: i64, parent_id: Option<i64>, order: i64) -> (r:
    bool)
    ensures
        r == occupied(group_slots(groups.deep_view()), project_id, parent_id, order),
{
    let ghost slots = group_slots(groups.deep_view());
    let mut i: usize = 0;
    while i < groups.len()
        invariant
            i <= groups.len(),
            slots == group_slots(groups.deep_view()),
            forall|j: int|
                0 <= j < i ==> !(ranked(#[trigger] slots[j], project_id, parent_id)
                    && slots[j].order == Some(order)),
        decreases groups.len() - i,
    {
        let g = &groups[i];
        assert(slots[i as int] == group_slot(g@));
        if g.project_id == project_id && g.parent_id == parent_id && g.sort_order == Some(order) {
            return true;
        }
        i += 1;
    }
    false
}

/// Creates a folder directly behind the place `after_sort_order` among
/// the children of `parent_id`.
///
/// Every sibling above that place moves up by one, then the folder takes
/// the place `after_sort_order + 1`. A dense sibling set stays dense when
/// `after_sort_order` is one of its places or -1; other sibling sets are
/// not touched.
pub fn create_doc_group_after(
    store: &mut Store,
    project_id: i64,
    name: &str,
    parent_id: Option<i64>,
    after_sort_order: i64,
) -> (r: Result<DocGroup, StoreError>)
    requires
        old(store).wf(),
    ensures
        final(store).wf(),
        final(store)@ == changed(
            old(store)@,
            (Change::NewGroupAfter { project_id, name: name@, parent_id, after: after_sort_order }),
        ),
        match r {
            Ok(g) => {
                &&& group_insert_error(old(store)@, project_id, parent_id, after_sort_order)
                    is None
                &&& g@ == (DocGroupView {
                    id: old(store)@.next_id,
                    project_id,
                    name: name@,
                    parent_id,
                    sort_order: Some((after_sort_order + 1) as i64),
                    notes: None,
                })
                &&& final(store)@ == (StoreView {
                    groups: make_group_room(
                        old(store)@.groups,
                        project_id,
                        parent_id,
                        after_sort_order,
                    ).push(g@),
                    next_id: (old(store)@.next_id + 1) as i64,
                    ..old(store)@
                })
            },
            Err(e) => {
                &&& group_insert_error(old(store)@, project_id, parent_id, after_sort_order)
                    == Some(e)
                &&& final(store)@ == old(store)@
            },
        },
        forall|p: i64, q: Option<i64>|
            (p != project_id || q != parent_id) && groups_dense_in(old(store)@.groups, p, q)
                ==> #[trigger] groups_dense_in(final(store)@.groups, p, q),
        groups_dense_in(old(store)@.groups, project_id, parent_id) && -1 <= after_sort_order
            < set_len(group_slots(old(store)@.groups), project_id, parent_id)
            ==> groups_dense_in(final(store)@.groups, project_id, parent_id),
{
    if position(&store.projects, project_id).is_none() {
        return Err(StoreError::NotFound);
    }
    if let Some(p) = parent_id {
        if position(&store.groups, p).is_none() {
            return Err(StoreError::NotFound);
        }
    }
    if store.next_id == i64::MAX || after_sort_order == i64::MAX || group_at(
        &store.groups,
        project_id,
        parent_id,
        i64::MAX,
    ) {
        return Err(StoreError::Exhausted);
    }
    let ghost before = store@.groups;
    let ghost slots = group_slots(before);
    let mut i: usize = 0;
    while i < store.groups.len()
        invariant
            i <= store.groups.len(),
            store.groups.len() == before.len(),
            before == old(store)@.groups,
            slots == group_slots(before),
            !occupied(slots, project_id, parent_id, i64::MAX),
            forall|j: int|
                0 <= j < i ==> #[trigger] store.groups.deep_view()[j] == bump_group(
                    before[j],
                    project_id,
                    parent_id,
                    after_sort_order,
                ),
            forall|j: int|
                i <= j < before.len() ==> #[trigger] store.groups.deep_view()[j] == before[j],
            store@ == (StoreView { groups: store.groups.deep_view(), ..old(store)@ }),
        decreases store.groups.len() - i,
    {
        let ghost prev = store.groups.deep_view();
        assert(prev[i as int] == before[i as int]);
        assert(slots[i as int] == group_slot(before[i as int]));
        if store.groups[i].project_id == project_id && store.groups[i].parent_id == parent_id {
            if let Some(o) = store.groups[i].sort_order {
                if o > after_sort_order {
                    assert(o != i64::MAX);
                    store.groups[i].sort_order = Some(o + 1);
                }
            }
        }
        proof {
            let now = store.groups.deep_view();
            assert(now[i as int] == bump_group(
                before[i as int],
                project_id,
                parent_id,
                after_sort_order,
            ));
            assert forall|j: int| 0 <= j < i + 1 implies #[trigger] now[j] == bump_group(
                before[j],
                project_id,
                parent_id,
                after_sort_order,
            ) by {
                if j < i {
                    assert(now[j] == prev[j]);
                }
            }
            assert forall|j: int| i + 1 <= j < before.len() implies #[trigger] now[j]
                == before[j] by {
                assert(now[j] == prev[j]);
            }
        }
        i += 1;
    }
    let id = store.next_id;
    let row = DocGroup {
        id,
        project_id,
        name: String::from_str(name),
        parent_id,
        sort_order: Some(after_sort_order + 1),
        notes: None,
    };
    let out = row.clone();
    let ghost made = store.groups.deep_view();
    store.groups.push(row);
    store.next_id = id + 1;
    proof {
        let after = store@.groups;
        assert(made =~= make_group_room(before, project_id, parent_id, after_sort_order));
        assert(after =~= made.push(out@));
        assert(store@ == (StoreView {
            groups: made.push(out@),
            next_id: (id + 1) as i64,
            ..old(store)@
        }));
        lemma_new_group_after(old(store)@, project_id, name@, parent_id, after_sort_order);
    }
    Ok(out)
}

/// Gives the folder a new name. A folder that does not exist is no
/// error: nothing changes then.
pub fn rename_doc_group(store: &mut Store, id: i64, new_name: &str) -> (r: Result<(), StoreError>)
    requires
        old(store).wf(),
    ensures
        final(store).wf(),
        r is Ok,
        final(store)@ == (if has_key(old(store)@.groups, id) {
            let i = place_of(old(store)@.groups, id);
            StoreView {
                groups: old(store)@.groups.update(
                    i,
                    DocGroupView { name: new_name@, ..old(store)@.groups[i] },
                ),
                ..old(store)@
            }
        } else {
            old(store)@
        }),
{
    match position(&store.groups, id) {
        Some(i) => {
            store.groups[i].name = String::from_str(new_name);
            proof {
                let before = old(store)@.groups;
                assert(store@.groups =~= before.update(
                    i as int,
                    DocGroupView { name: new_name@, ..before[i as int] },
                ));
            }
        },
        None => {},
    }
    Ok(())
}

/// Replaces the notes of the folder. A folder that does not exist is no
/// error: nothing changes then.
pub fn update_doc_group_notes(store: &mut Store, id: i64, notes: &str) -> (r: Result<
    (),
    StoreError,
>)
    requires
        old(store).wf(),
    ensures
        final(store).wf(),
        r is Ok,
        final(store)@ == (if has_key(old(store)@.groups, id) {
            let i = place_of(old(store)@.groups, id);
            StoreView {
                groups: old(store)@.groups.update(
                    i,
                    DocGroupView { notes: Some(notes@), ..old(store)@.groups[i] },
                ),
                ..old(store)@
            }
        } else {
            old(store)@
        }),
{
    match position(&store.groups, id) {
        Some(i) => {
            store.groups[i].notes = Some(String::from_str(notes));
            proof {
                let before = old(store)@.groups;
                assert(store@.groups =~= before.update(
                    i as int,
                    DocGroupView { notes: Some(notes@), ..before[i as int] },
                ));
            }
        },
        None => {},
    }
    Ok(())
}

/// The place that a move in `direction` aims at: one down for "up", one
/// up for "down", none for anything else.
pub open spec fn target_order(current: i64, direction: Seq<char>) -> Option<int> {
    if direction == "up"@ {
        Some(current - 1)
    } else if direction == "down"@ {
        Some(current + 1)
    } else {
        None
    }
}

/// The folder after the folder `id`, which sat at `current`, changed
/// places with its sibling at `target`.
pub open spec fn turn_group(
    g: DocGroupView,
    id: i64,
    project_id: i64,
    parent_id: Option<i64>,
    current: i64,
    target: i64,
) -> DocGroupView {
    if g.id == id {
        DocGroupView { sort_order: Some(target), ..g }
    } else if g.project_id == project_id && g.parent_id == parent_id && g.sort_order == Some(
        target,
    ) {
        DocGroupView { sort_order: Some(current), ..g }
    } else {
        g
    }
}

/// The store after the folder `id` moved one place in `direction`. Where
/// no sibling sits at the place aimed at, nothing changes.
pub open spec fn reordered_groups(v: StoreView, id: i64, direction: Seq<char>) -> StoreView {
    let g = v.groups[place_of(v.groups, id)];
    let current = g.sort_order->0;
    match target_order(current, direction) {
        Some(t) => if i64::MIN <= t <= i64::MAX && occupied(
            group_slots(v.groups),
            g.project_id,
            g.parent_id,
            t as i64,
        ) {
            StoreView {
                groups: Seq::new(
                    v.groups.len(),
                    |i: int|
                        turn_group(v.groups[i], id, g.project_id, g.parent_id, current, t as i64),
                ),
                ..v
            }
        } else {
            v
        },
        None => v,
    }
}

/// Why a row cannot be moved or removed, if it cannot: it does not
/// exist, or it has no sort order.
pub open spec fn group_order_error(v: StoreView, id: i64) -> Option<StoreError> {
    if !has_key(v.groups, id) {
        Some(StoreError::NotFound)
    } else if v.groups[place_of(v.groups, id)].sort_order is None {
        Some(StoreError::Unordered)
    } else {
        None
    }
}

/// Moves the folder one place up or down among its siblings.
///
/// The folder changes places with the sibling that sits at the place
/// aimed at. Where no sibling sits there (the first folder moving up, the
/// last one moving down) nothing changes. A direction other than "up" or
/// "down" changes nothing either. A dense sibling set stays dense.
pub fn reorder_doc_group(store: &mut Store, id: i64, direction: &str) -> (r: Result<
    (),
    StoreError,
>)
    requires
        old(store).wf(),
    ensures
        final(store).wf(),
        final(store)@ == changed(
            old(store)@,
            (Change::TurnGroup { id, direction: direction@ }),
        ),
        match r {
            Ok(_) => {
                &&& group_order_error(old(store)@, id) is None
                &&& final(store)@ == reordered_groups(old(store)@, id, direction@)
            },
            Err(e) => {
                &&& group_order_error(old(store)@, id) == Some(e)
                &&& final(store)@ == old(store)@
            },
        },
        forall|p: i64, q: Option<i64>|
            groups_dense_in(old(store)@.groups, p, q) ==> #[trigger] groups_dense_in(
                final(store)@.groups,
                p,
                q,
            ),
{
    let at = match position(&store.groups, id) {
        Some(i) => i,
        None => {
            return Err(StoreError::NotFound);
        },
    };
    let current = match store.groups[at].sort_order {
        Some(o) => o,
        None => {
            return Err(StoreError::Unordered);
        },
    };
    let project_id = store.groups[at].project_id;
    let parent_id = store.groups[at].parent_id;
    let target: i64 = if text_eq(direction, "up") {
        if current == i64::MIN {
            return Ok(());
        }
        current - 1
    } else if text_eq(direction, "down") {
        if current == i64::MAX {
            return Ok(());
        }
        current + 1
    } else {
        return Ok(());
    };
    if !group_at(&store.groups, project_id, parent_id, target) {
        return Ok(());
    }
    let ghost before = store@.groups;
    let ghost slots = group_slots(before);
    let mut i: usize = 0;
    while i < store.groups.len()
        invariant
            i <= store.groups.len(),
            at < store.groups.len(),
            store.groups.len() == before.len(),
            before == old(store)@.groups,
            before[at as int].id == id,
            growing(before),
            current != target,
            forall|j: int|
                0 <= j < i ==> #[trigger] store.groups.deep_view()[j] == turn_group(
                    before[j],
                    id,
                    project_id,
                    parent_id,
                    current,
                    target,
                ),
            forall|j: int|
                i <= j < before.len() ==> #[trigger] store.groups.deep_view()[j] == before[j],
            store@ == (StoreView { groups: store.groups.deep_view(), ..old(store)@ }),
        decreases store.groups.len() - i,
    {
        let ghost prev = store.groups.deep_view();
        assert(prev[i as int] == before[i as int]);
        if i == at {
            store.groups[i].sort_order = Some(target);
        } else if store.groups[i].project_id == project_id && store.groups[i].parent_id
            == parent_id && store.groups[i].sort_order == Some(target) {
            store.groups[i].sort_order = Some(current);
        }
        proof {
            let now = store.groups.deep_view();
            if i != at {
                assert(before[i as int].id != id) by {
                    if i < at {
                        assert(before[i as int].key() < before[at as int].key());
                    } else {
                        assert(before[at as int].key() < before[i as int].key());
                    }
                }
            }
            assert forall|j: int| 0 <= j < i + 1 implies #[trigger] now[j] == turn_group(
                before[j],
                id,
                project_id,
                parent_id,
                current,
                target,
            ) by {
                if j < i {
                    assert(now[j] == prev[j]);
                }
            }
            assert forall|j: int| i + 1 <= j < before.len() implies #[trigger] now[j]
                == before[j] by {
                assert(now[j] == prev[j]);
            }
        }
        i += 1;
    }
    proof {
        let after = store@.groups;
        assert(after =~= Seq::new(
            before.len(),
            |i: int| turn_group(before[i], id, project_id, parent_id, current, target),
        ));
        assert(store@ == reordered_groups(old(store)@, id, direction@));
        lemma_turn_group(old(store)@, id, direction@);
    }
    Ok(())
}

/// The folder with the gap at `gone` closed among the children of
/// `parent_id`.
pub open spec fn lower_group(
    g: DocGroupView,
    project_id: i64,
    parent_id: Option<i64>,
    gone: i64,
) -> DocGroupView {
    if g.project_id == project_id && g.parent_id == parent_id {
        DocGroupView { sort_order: lowered(g.sort_order, gone), ..g }
    } else {
        g
    }
}

/// The table with the gap at `gone` closed among the children of
/// `parent_id`.
pub open spec fn close_group_gap(
    groups: Seq<DocGroupView>,
    project_id: i64,
    parent_id: Option<i64>,
    gone: i64,
) -> Seq<DocGroupView> {
    Seq::new(groups.len(), |i: int| lower_group(groups[i], project_id, parent_id, gone))
}

/// The store without the folder `id`: the folder is gone, and with it
/// the folders below it, the documents filed in any of them, the drafts
/// and relations of those documents, and the drafts and relations of
/// those folders. The siblings above the folder have moved down by one.
pub open spec fn without_group(v: StoreView, id: i64) -> StoreView {
    let g = v.groups[place_of(v.groups, id)];
    StoreView {
        groups: close_group_gap(
            v.groups.filter(group_stays(v.groups, id)),
            g.project_id,
            g.parent_id,
            g.sort_order->0,
        ),
        docs: v.docs.filter(doc_stays(v.groups, id)),
        drafts: v.drafts.filter(draft_stays(v, id)),
        folder_drafts: v.folder_drafts.filter(folder_draft_stays(v.groups, id)),
        doc_characters: v.doc_characters.filter(doc_link_stays(v, id)),
        doc_events: v.doc_events.filter(doc_link_stays(v, id)),
        doc_places: v.doc_places.filter(doc_link_stays(v, id)),
        group_characters: v.group_characters.filter(group_link_stays(v.groups, id)),
        group_events: v.group_events.filter(group_link_stays(v.groups, id)),
        group_places: v.group_places.filter(group_link_stays(v.groups, id)),
        ..v
    }
}

/// Removing a folder with all that lies below it, and closing the gap
/// among its siblings, keeps every dense sibling set of folders dense.
pub proof fn lemma_group_cascade_dense(
    groups: Seq<DocGroupView>,
    next: i64,
    id: i64,
    project_id: i64,
    parent_id: Option<i64>,
)
    requires
        ascending(groups, next),
        parents_first(groups),
        has_key(groups, id),
        groups[place_of(groups, id)].sort_order is Some,
        groups_dense_in(groups, project_id, parent_id),
    ensures
        groups_dense_in(
            close_group_gap(
                groups.filter(group_stays(groups, id)),
                groups[place_of(groups, id)].project_id,
                groups[place_of(groups, id)].parent_id,
                groups[place_of(groups, id)].sort_order->0,
            ),
            project_id,
            parent_id,
        ),
{
    let at = place_of(groups, id);
    let victim = groups[at];
    let stays = group_stays(groups, id);
    let kept = groups.filter(stays);
    let kp = kept_places(groups, stays);
    let done = close_group_gap(kept, victim.project_id, victim.parent_id, victim.sort_order->0);
    let slots = group_slots(groups);
    let ns = group_slots(done);
    lemma_kept_places(groups, stays);
    assert(under(groups, id, id));
    assert forall|i: int| 0 <= i < ns.len() implies #[trigger] ns[i] == lower_slot(
        slots[kp[i]],
        victim.project_id,
        victim.parent_id,
        victim.sort_order->0,
    ) by {
        assert(kept[i] == groups[kp[i]]);
    }
    assert forall|i: int| 0 <= i < kp.len() implies #[trigger] kp[i] != at by {
        assert(stays(groups[kp[i]]));
    }
    let p = project_id;
    let q = parent_id;
    if p == victim.project_id && q == victim.parent_id {
        assert forall|j: int|
            0 <= j < slots.len() && ranked(#[trigger] slots[j], p, q) && j
                != at implies kp.contains(j) by {
            lemma_place_of(groups, j);
            if j < at {
                assert(groups[j].key() < groups[at].key());
            } else {
                assert(groups[at].key() < groups[j].key());
            }
            if q is Some {
                if under(groups, q->0, id) {
                    lemma_under_above(groups, q->0, id);
                }
            }
            assert(parent_in(groups, groups[j].id) == q);
            assert(!under(groups, groups[j].id, id));
            assert(stays(groups[j]));
        }
        lemma_prune_dense(slots, ns, kp, at, p, q);
    } else if q is Some && under(groups, q->0, id) {
        lemma_under_above(groups, q->0, id);
        assert forall|i: int| 0 <= i < ns.len() implies !ranked(#[trigger] ns[i], p, q) by {
            if ranked(ns[i], p, q) {
                let j = kp[i];
                lemma_place_of(groups, j);
                assert(groups[j].parent_id == q);
                assert(0 < groups[at].key());
                assert(parent_in(groups, groups[j].id) == q);
                assert(under(groups, groups[j].id, id));
                assert(stays(groups[j]));
            }
        }
        lemma_empty_dense(ns, p, q);
    } else {
        assert forall|j: int|
            0 <= j < slots.len() && ranked(#[trigger] slots[j], p, q) implies kp.contains(j) by {
            lemma_place_of(groups, j);
            lemma_place_of(groups, at);
            assert(parent_in(groups, groups[j].id) == q);
            if groups[j].id == id {
                if j < at {
                    assert(groups[j].key() < groups[at].key());
                } else if at < j {
                    assert(groups[at].key() < groups[j].key());
                }
            }
            assert(!under(groups, groups[j].id, id));
            assert(stays(groups[j]));
        }
        assert forall|i: int| 0 <= i < ns.len() implies ranked(#[trigger] ns[i], p, q) == ranked(
            slots[kp[i]],
            p,
            q,
        ) by {}
        lemma_subtable_dense(slots, ns, kp, p, q);
    }
}

/// Removing the documents of a folder and of all that lies below it
/// keeps every dense sibling set of documents dense.
pub proof fn lemma_doc_cascade_dense(
    groups: Seq<DocGroupView>,
    docs: Seq<DocView>,
    id: i64,
    project_id: i64,
    doc_group_id: Option<i64>,
)
    requires
        docs_dense_in(docs, project_id, doc_group_id),
    ensures
        docs_dense_in(docs.filter(doc_stays(groups, id)), project_id, doc_group_id),
{
    let stays = doc_stays(groups, id);
    let kept = docs.filter(stays);
    let kp = kept_places(docs, stays);
    let slots = doc_slots(docs);
    let ns = doc_slots(kept);
    let p = project_id;
    let q = doc_group_id;
    lemma_kept_places(docs, stays);
    assert forall|i: int| 0 <= i < ns.len() implies #[trigger] ns[i] == slots[kp[i]] by {
        assert(kept[i] == docs[kp[i]]);
    }
    if q is Some && under(groups, q->0, id) {
        assert forall|i: int| 0 <= i < ns.len() implies !ranked(#[trigger] ns[i], p, q) by {
            if ranked(ns[i], p, q) {
                assert(stays(docs[kp[i]]));
            }
        }
        lemma_empty_dense(ns, p, q);
    } else {
        assert forall|j: int|
            0 <= j < slots.len() && ranked(#[trigger] slots[j], p, q) implies kp.contains(j) by {
            assert(stays(docs[j]));
        }
        lemma_subtable_dense(slots, ns, kp, p, q);
    }
}

/// Removes the folder, with the folders below it and the documents of
/// all of them, and closes the gap that it leaves among its siblings:
/// every sibling above it moves down by one.
///
/// Fails, and changes nothing, where the folder does not exist or has no
/// sort order. Dense sibling sets, of folders and of documents, stay
/// dense.
pub fn delete_doc_group(store: &mut Store, id: i64) -> (r: Result<(), StoreError>)
    requires
        old(store).wf(),
    ensures
        final(store).wf(),
        final(store)@ == changed(
            old(store)@,
            (Change::DropGroup { id }),
        ),
        match r {
            Ok(_) => {
                &&& group_order_error(old(store)@, id) is None
                &&& final(store)@ == without_group(old(store)@, id)
            },
            Err(e) => {
                &&& group_order_error(old(store)@, id) == Some(e)
                &&& final(store)@ == old(store)@
            },
        },
        forall|p: i64, q: Option<i64>|
            groups_dense_in(old(store)@.groups, p, q) ==> #[trigger] groups_dense_in(
                final(store)@.groups,
                p,
                q,
            ),
        forall|p: i64, q: Option<i64>|
            docs_dense_in(old(store)@.docs, p, q) ==> #[trigger] docs_dense_in(
                final(store)@.docs,
                p,
                q,
            ),
{
    let at = match position(&store.groups, id) {
        Some(i) => i,
        None => {
            return Err(StoreError::NotFound);
        },
    };
    let gone = match store.groups[at].sort_order {
        Some(o) => o,
        None => {
            return Err(StoreError::Unordered);
        },
    };
    let project_id = store.groups[at].project_id;
    let parent_id = store.groups[at].parent_id;
    let ghost v = store@;
    let (gone_groups, keep_groups) = fallen_groups(&store.groups, id);
    let (gone_docs, keep_docs) = fallen_docs(&store.docs, &gone_groups, Ghost(v), Ghost(id));
    let mut groups = retain_rows(&store.groups, &keep_groups, Ghost(group_stays(v.groups, id)));
    let ghost kept = groups.deep_view();
    let mut i: usize = 0;
    while i < groups.len()
        invariant
            i <= groups.len(),
            groups.len() == kept.len(),
            forall|j: int|
                0 <= j < i ==> #[trigger] groups.deep_view()[j] == lower_group(
                    kept[j],
                    project_id,
                    parent_id,
                    gone,
                ),
            forall|j: int| i <= j < kept.len() ==> #[trigger] groups.deep_view()[j] == kept[j],
        decreases groups.len() - i,
    {
        let ghost prev = groups.deep_view();
        assert(prev[i as int] == kept[i as int]);
        if groups[i].project_id == project_id && groups[i].parent_id == parent_id {
            if let Some(o) = groups[i].sort_order {
                if o > gone {
                    groups[i].sort_order = Some(o - 1);
                }
            }
        }
        proof {
            let now = groups.deep_view();
            assert forall|j: int| 0 <= j < i + 1 implies #[trigger] now[j] == lower_group(
                kept[j],
                project_id,
                parent_id,
                gone,
            ) by {
                if j < i {
                    assert(now[j] == prev[j]);
                }
            }
            assert forall|j: int| i + 1 <= j < kept.len() implies #[trigger] now[j] == kept[j] by {
                assert(now[j] == prev[j]);
            }
        }
        i += 1;
    }
    let docs = retain_rows(&store.docs, &keep_docs, Ghost(doc_stays(v.groups, id)));
    let keep_drafts = drafts_clear_of(&store.drafts, &gone_docs);
    let drafts = retain_rows(&store.drafts, &keep_drafts, Ghost(draft_stays(v, id)));
    let keep_folder_drafts = folder_drafts_clear_of(&store.folder_drafts, &gone_groups);
    let folder_drafts = retain_rows(
        &store.folder_drafts,
        &keep_folder_drafts,
        Ghost(folder_draft_stays(v.groups, id)),
    );
    let keep_dc = links_clear_of(&store.doc_characters, &gone_docs);
    let doc_characters = retain_links(&store.doc_characters, &keep_dc, Ghost(doc_link_stays(v, id)));
    let keep_de = links_clear_of(&store.doc_events, &gone_docs);
    let doc_events = retain_links(&store.doc_events, &keep_de, Ghost(doc_link_stays(v, id)));
    let keep_dp = links_clear_of(&store.doc_places, &gone_docs);
    let doc_places = retain_links(&store.doc_places, &keep_dp, Ghost(doc_link_stays(v, id)));
    let keep_gc = links_clear_of(&store.group_characters, &gone_groups);
    let group_characters = retain_links(
        &store.group_characters,
        &keep_gc,
        Ghost(group_link_stays(v.groups, id)),
    );
    let keep_ge = links_clear_of(&store.group_events, &gone_groups);
    let group_events = retain_links(
        &store.group_events,
        &keep_ge,
        Ghost(group_link_stays(v.groups, id)),
    );
    let keep_gp = links_clear_of(&store.group_places, &gone_groups);
    let group_places = retain_links(
        &store.group_places,
        &keep_gp,
        Ghost(group_link_stays(v.groups, id)),
    );
    store.groups = groups;
    store.docs = docs;
    store.drafts = drafts;
    store.folder_drafts = folder_drafts;
    store.doc_characters = doc_characters;
    store.doc_events = doc_events;
    store.doc_places = doc_places;
    store.group_characters = group_characters;
    store.group_events = group_events;
    store.group_places = group_places;
    proof {
        let w = without_group(v, id);
        assert(store@.groups =~= w.groups);
        assert(store@ == w);
        lemma_drop_group(v, id);
    }
    Ok(())
}

/// The folders of the project.
pub open spec fn group_in(project_id: i64) -> spec_fn(DocGroupView) -> bool {
    |g: DocGroupView| g.project_id == project_id
}

/// The key by which folders are listed: the parent first, top-level
/// folders before all others, then the sort order, folders without one
/// before the others.
pub open spec fn group_key() -> spec_fn(DocGroupView) -> Seq<i64> {
    |g: DocGroupView|
        seq![
            match g.parent_id {
                Some(p) => p,
                None => 0i64,
            },
            if g.sort_order is Some {
                1i64
            } else {
                0i64
            },
            match g.sort_order {
                Some(o) => o,
                None => 0i64,
            },
        ]
}

/// All folders of the project, the children of one parent together and
/// in their order, top-level folders first. Callers rebuild the forest
/// from the parent links.
pub fn list_doc_groups(store: &Store, project_id: i64) -> (r: Result<Vec<DocGroup>, StoreError>)
    requires
        store.wf(),
    ensures
        r matches Ok(rows) && is_listing(
            rows.deep_view(),
            store@.groups,
            group_in(project_id),
            group_key(),
        ),
{
    let ghost view = store.groups.deep_view();
    let mut picked: Vec<usize> = Vec::new();
    let mut keys: Vec<Vec<i64>> = Vec::new();
    let mut i: usize = 0;
    while i < store.groups.len()
        invariant
            i <= store.groups.len(),
            view == store.groups.deep_view(),
            keys.len() == picked.len(),
            forall|m: int|
                0 <= m < picked.len() ==> #[trigger] picked[m] < i && group_in(project_id)(
                    view[picked[m] as int],
                ),
            forall|m: int, n: int|
                0 <= m < n < picked.len() ==> #[trigger] picked[m] < #[trigger] picked[n],
            forall|j: int|
                0 <= j < i && group_in(project_id)(#[trigger] view[j]) ==> picked@.contains(
                    j as usize,
                ),
            forall|m: int|
                0 <= m < picked.len() ==> (#[trigger] keys[m])@ == group_key()(
                    view[picked[m] as int],
                ),
        decreases store.groups.len() - i,
    {
        let g = &store.groups[i];
        if g.project_id == project_id {
            let ghost before = picked@;
            let mut key: Vec<i64> = Vec::new();
            key.push(
                match g.parent_id {
                    Some(p) => p,
                    None => 0,
                },
            );
            key.push(
                if g.sort_order.is_some() {
                    1
                } else {
                    0
                },
            );
            key.push(
                match g.sort_order {
                    Some(o) => o,
                    None => 0,
                },
            );
            assert(key@ =~= group_key()(view[i as int]));
            picked.push(i);
            keys.push(key);
            proof {
                assert forall|j: int|
                    0 <= j < i + 1 && group_in(project_id)(
                        #[trigger] view[j],
                    ) implies picked@.contains(j as usize) by {
                    if j < i {
                        assert(before.contains(j as usize));
                        let m = choose|m: int| 0 <= m < before.len() && before[m] == j as usize;
                        assert(picked@[m] == j as usize);
                    } else {
                        assert(picked@[picked.len() - 1] == j as usize);
                    }
                }
            }
        }
        i += 1;
    }
    Ok(list_sorted(&store.groups, &picked, &keys, Ghost(group_in(project_id)), Ghost(group_key())))
}

} // verus!
