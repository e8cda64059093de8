//! Timelines: the span of dates of a project, a document, a folder or an
//! event. An entity has at most one.

use vstd::prelude::*;
use crate::models::{
    opt_text, replace_opt_text, Timeline, TimelineCreate, TimelineUpdate, TimelineView,
};
use crate::store::{
    ascending, has_key, place_of, position, row_of, timelines_distinct, Keyed, Store, StoreError,
    StoreView,
};

verus! {

/// The timeline belongs to the entity.
pub open spec fn is_for(t: TimelineView, entity_type: Seq<char>, entity_id: i64) -> bool {
    t.entity_type == entity_type && t.entity_id == entity_id
}

/// The entity has a timeline.
pub open spec fn has_timeline(rows: Seq<TimelineView>, entity_type: Seq<char>, entity_id: i64) -> bool {
    exists|i: int| 0 <= i < rows.len() && is_for(#[trigger] rows[i], entity_type, entity_id)
}

/// The place of the timeline of the entity.
pub open spec fn timeline_place(rows: Seq<TimelineView>, entity_type: Seq<char>, entity_id: i64) -> int {
    choose|i: int| 0 <= i < rows.len() && is_for(#[trigger] rows[i], entity_type, entity_id)
}

/// The place of the timeline of the entity, if it has one.
pub fn find_timeline(rows: &Vec<Timeline>, entity_type: &str, entity_id: i64) -> (r: Option<usize>)
    requires
        timelines_distinct(rows.deep_view()),
    ensures
        match r {
            Some(i) => i < rows.len() && has_timeline(rows.deep_view(), entity_type@, entity_id)
                && timeline_place(rows.deep_view(), entity_type@, entity_id) == i,
            None => !has_timeline(rows.deep_view(), entity_type@, entity_id),
        },
{
    let ghost view = rows.deep_view();
    let wanted = String::from_str(entity_type);
    let mut i: usize = 0;
    while i < rows.len()
        invariant
            i <= rows.len(),
            view == rows.deep_view(),
            wanted@ == entity_type@,
            timelines_distinct(view),
            forall|j: int| 0 <= j < i ==> !is_for(#[trigger] view[j], entity_type@, entity_id),
        decreases rows.len() - i,
    {
        if rows[i].entity_id == entity_id && rows[i].entity_type == wanted {
            proof {
                assert(is_for(view[i as int], entity_type@, entity_id));
                let p = timeline_place(view, entity_type@, entity_id);
                assert(is_for(view[p], entity_type@, entity_id));
                if p > i {
                    assert(!(view[i as int].entity_type == view[p].entity_type
                        && view[i as int].entity_id == view[p].entity_id));
                }
            }
            return Some(i);
        }
        i += 1;
    }
    None
}

/// What becomes of the store when a timeline is set for an entity: the
/// timeline that the entity has takes the new dates, or a new timeline is
/// added.
pub open spec fn timeline_set(
    v: StoreView,
    entity_type: Seq<char>,
    entity_id: i64,
    start_date: Option<Seq<char>>,
    end_date: Option<Seq<char>>,
) -> StoreView {
    if has_timeline(v.timelines, entity_type, entity_id) {
        let i = timeline_place(v.timelines, entity_type, entity_id);
        StoreView {
            timelines: v.timelines.update(
                i,
                TimelineView { start_date, end_date, ..v.timelines[i] },
            ),
            ..v
        }
    } else {
        StoreView {
            timelines: v.timelines.push(
                TimelineView { id: v.next_id, entity_type, entity_id, start_date, end_date },
            ),
            next_id: (v.next_id + 1) as i64,
            ..v
        }
    }
}

/// What becomes of the store when the timeline of the payload is set.
pub open spec fn with_timeline(v: StoreView, payload: TimelineCreate) -> StoreView {
    timeline_set(
        v,
        payload.entity_type@,
        payload.entity_id,
        opt_text(payload.start_date),
        opt_text(payload.end_date),
    )
}

/// Sets the timeline of an entity: the timeline that the entity has
/// takes the new dates and keeps its identifier; an entity without one
/// receives a new timeline. Returns the timeline as it then stands.
pub fn create(store: &mut Store, payload: TimelineCreate) -> (r: Result<Timeline, StoreError>)
    requires
        old(store).wf(),
    ensures
        final(store).wf(),
        match r {
            Ok(t) => {
                &&& has_timeline(old(store)@.timelines, payload.entity_type@, payload.entity_id)
                    || old(store)@.next_id < i64::MAX
                &&& final(store)@ == with_timeline(old(store)@, payload)
                &&& has_timeline(final(store)@.timelines, payload.entity_type@, payload.entity_id)
                &&& t@ == final(store)@.timelines[timeline_place(
                    final(store)@.timelines,
                    payload.entity_type@,
                    payload.entity_id,
                )]
            },
            Err(e) => {
                &&& !has_timeline(old(store)@.timelines, payload.entity_type@, payload.entity_id)
                &&& old(store)@.next_id == i64::MAX
                &&& e == StoreError::Exhausted
                &&& final(store)@ == old(store)@
            },
        },
{
    let ghost before = store@.timelines;
    match find_timeline(&store.timelines, payload.entity_type.as_str(), payload.entity_id) {
        Some(i) => {
            store.timelines[i].start_date = payload.start_date;
            store.timelines[i].end_date = payload.end_date;
            let out = store.timelines[i].clone();
            proof {
                let after = store@.timelines;
                assert(after =~= before.update(
                    i as int,
                    TimelineView {
                        start_date: opt_text(payload.start_date),
                        end_date: opt_text(payload.end_date),
                        ..before[i as int]
                    },
                ));
                assert forall|a: int, b: int| 0 <= a < b < after.len() implies !((
                #[trigger] after[a]).entity_type == (#[trigger] after[b]).entity_type
                    && after[a].entity_id == after[b].entity_id) by {
                    assert(after[a].entity_type == before[a].entity_type);
                    assert(after[b].entity_type == before[b].entity_type);
                    assert(after[a].entity_id == before[a].entity_id);
                    assert(after[b].entity_id == before[b].entity_id);
                }
                assert(is_for(after[i as int], payload.entity_type@, payload.entity_id));
                let p = timeline_place(after, payload.entity_type@, payload.entity_id);
                if p < i {
                    assert(!(after[p].entity_type == after[i as int].entity_type
                        && after[p].entity_id == after[i as int].entity_id));
                } else if p > i {
                    assert(!(after[i as int].entity_type == after[p].entity_type
                        && after[i as int].entity_id == after[p].entity_id));
                }
                assert forall|j: int| 0 <= j < after.len() implies (#[trigger] after[j]).key()
                    == before[j].key() by {}
            }
            Ok(out)
        },
        None => {
            if store.next_id == i64::MAX {
                return Err(StoreError::Exhausted);
            }
            let id = store.next_id;
            let row = Timeline {
                id,
                entity_type: payload.entity_type,
                entity_id: payload.entity_id,
                start_date: payload.start_date,
                end_date: payload.end_date,
            };
            let out = row.clone();
            store.timelines.push(row);
            store.next_id = id + 1;
            proof {
                let after = store@.timelines;
                assert(after =~= before.push(out@));
                let n = before.len() as int;
                assert forall|a: int, b: int| 0 <= a < b < after.len() implies !((
                #[trigger] after[a]).entity_type == (#[trigger] after[b]).entity_type
                    && after[a].entity_id == after[b].entity_id) by {
                    assert(after[a] == before[a]);
                    if b < n {
                        assert(after[b] == before[b]);
                    } else {
                        assert(!is_for(before[a], payload.entity_type@, payload.entity_id));
                    }
                }
                assert(is_for(after[n], payload.entity_type@, payload.entity_id));
                let p = timeline_place(after, payload.entity_type@, payload.entity_id);
                if p < n {
                    assert(after[p] == before[p]);
                    assert(!is_for(before[p], payload.entity_type@, payload.entity_id));
                }
            }
            Ok(out)
        },
    }
}

/// The timeline with that identifier, if there is one.
pub fn get(store: &Store, id: i64) -> (r: Result<Option<Timeline>, StoreError>)
    requires
        store.wf(),
    ensures
        r matches Ok(found) && (match found {
            Some(t) => row_of(store@.timelines, id) == Some(t@),
            None => !has_key(store@.timelines, id),
        }),
{
    match position(&store.timelines, id) {
        Some(i) => Ok(Some(store.timelines[i].clone())),
        None => Ok(None),
    }
}

/// The timeline of the entity, if it has one.
pub fn get_by_entity(store: &Store, entity_type: &str, entity_id: i64) -> (r: Result<
    Option<Timeline>,
    StoreError,
>)
    requires
        store.wf(),
    ensures
        r matches Ok(found) && (match found {
            Some(t) => has_timeline(store@.timelines, entity_type@, entity_id) && t@
                == store@.timelines[timeline_place(store@.timelines, entity_type@, entity_id)],
            None => !has_timeline(store@.timelines, entity_type@, entity_id),
        }),
{
    match find_timeline(&store.timelines, entity_type, entity_id) {
        Some(i) => Ok(Some(store.timelines[i].clone())),
        None => Ok(None),
    }
}

/// All timelines, in the order of their identifiers.
pub fn list(store: &Store) -> (r: Result<Vec<Timeline>, StoreError>)
    requires
        store.wf(),
    ensures
        r matches Ok(rows) && rows.deep_view() == store@.timelines,
{
    let mut out: Vec<Timeline> = Vec::new();
    let mut i: usize = 0;
    while i < store.timelines.len()
        invariant
            i <= store.timelines.len(),
            out.deep_view() == store@.timelines.take(i as int),
        decreases store.timelines.len() - i,
    {
        let ghost prev = out.deep_view();
        out.push(store.timelines[i].clone());
        assert(out.deep_view() =~= prev.push(store@.timelines[i as int]));
        assert(store@.timelines.take(i as int).push(store@.timelines[i as int])
            =~= store@.timelines.take(i + 1));
        i += 1;
    }
    assert(store@.timelines.take(store.timelines.len() as int) =~= store@.timelines);
    Ok(out)
}

/// The timeline with the dates given replaced and the others kept.
pub open spec fn updated_timeline(t: TimelineView, payload: TimelineUpdate) -> TimelineView {
    TimelineView {
        start_date: match payload.start_date {
            Some(s) => Some(s@),
            None => t.start_date,
        },
        end_date: match payload.end_date {
            Some(s) => Some(s@),
            None => t.end_date,
        },
        ..t
    }
}

/// Replaces the dates given and keeps the others; returns the timeline
/// as it then stands. Fails where the timeline does not exist.
pub fn update(store: &mut Store, id: i64, payload: TimelineUpdate) -> (r: Result<
    Timeline,
    StoreError,
>)
    requires
        old(store).wf(),
    ensures
        final(store).wf(),
        match r {
            Ok(t) => {
                &&& has_key(old(store)@.timelines, id)
                &&& t@ == updated_timeline(
                    old(store)@.timelines[place_of(old(store)@.timelines, id)],
                    payload,
                )
                &&& final(store)@ == (StoreView {
                    timelines: old(store)@.timelines.update(
                        place_of(old(store)@.timelines, id),
                        t@,
                    ),
                    ..old(store)@
                })
            },
            Err(e) => {
                &&& !has_key(old(store)@.timelines, id)
                &&& e == StoreError::NotFound
                &&& final(store)@ == old(store)@
            },
        },
{
    let at = match position(&store.timelines, id) {
        Some(i) => i,
        None => {
            return Err(StoreError::NotFound);
        },
    };
    let ghost before = store@.timelines;
    let new_start = replace_opt_text(payload.start_date, &store.timelines[at].start_date);
    let new_end = replace_opt_text(payload.end_date, &store.timelines[at].end_date);
    store.timelines[at].start_date = new_start;
    store.timelines[at].end_date = new_end;
    let out = store.timelines[at].clone();
    proof {
        let after = store@.timelines;
        assert(after =~= before.update(at as int, out@));
        assert forall|a: int, b: int| 0 <= a < b < after.len() implies !((
        #[trigger] after[a]).entity_type == (#[trigger] after[b]).entity_type
            && after[a].entity_id == after[b].entity_id) by {
            assert(after[a].entity_type == before[a].entity_type);
            assert(after[b].entity_type == before[b].entity_type);
            assert(after[a].entity_id == before[a].entity_id);
            assert(after[b].entity_id == before[b].entity_id);
        }
        assert forall|j: int| 0 <= j < after.len() implies (#[trigger] after[j]).key()
            == before[j].key() by {}
    }
    Ok(out)
}

/// Taking a row out of the table keeps the table valid.
pub proof fn lemma_timeline_removed(rows: Seq<TimelineView>, next: i64, at: int)
    requires
        ascending(rows, next),
        timelines_distinct(rows),
        0 <= at < rows.len(),
    ensures
        ascending(rows.remove(at), next),
        timelines_distinct(rows.remove(at)),
{
    let after = rows.remove(at);
    assert forall|j: int| 0 <= j < after.len() implies 0 < (#[trigger] after[j]).key() < next by {
        let src = if j < at {
            j
        } else {
            j + 1
        };
        assert(after[j] == rows[src]);
    }
    assert forall|i: int, j: int| 0 <= i < j < after.len() implies (#[trigger] after[i]).key() < (
    #[trigger] after[j]).key() by {
        let si = if i < at {
            i
        } else {
            i + 1
        };
        let sj = if j < at {
            j
        } else {
            j + 1
        };
        assert(after[i] == rows[si]);
        assert(after[j] == rows[sj]);
        assert(rows[si].key() < rows[sj].key());
    }
    assert forall|i: int, j: int| 0 <= i < j < after.len() implies !((
    #[trigger] after[i]).entity_type == (#[trigger] after[j]).entity_type && after[i].entity_id
        == after[j].entity_id) by {
        let si = if i < at {
            i
        } else {
            i + 1
        };
        let sj = if j < at {
            j
        } else {
            j + 1
        };
        assert(after[i] == rows[si]);
        assert(after[j] == rows[sj]);
        assert(!(rows[si].entity_type == rows[sj].entity_type && rows[si].entity_id
            == rows[sj].entity_id));
    }
}

/// Removes the timeline. Fails where the timeline does not exist.
pub fn delete(store: &mut Store, id: i64) -> (r: Result<(), StoreError>)
    requires
        old(store).wf(),
    ensures
        final(store).wf(),
        match r {
            Ok(_) => {
                &&& has_key(old(store)@.timelines, id)
                &&& final(store)@ == (StoreView {
                    timelines: old(store)@.timelines.remove(place_of(old(store)@.timelines, id)),
                    ..old(store)@
                })
            },
            Err(e) => {
                &&& !has_key(old(store)@.timelines, id)
                &&& e == StoreError::NotFound
                &&& final(store)@ == old(store)@
            },
        },
{
    let at = match position(&store.timelines, id) {
        Some(i) => i,
        None => {
            return Err(StoreError::NotFound);
        },
    };
    store.timelines.remove(at);
    proof {
        let before = old(store)@.timelines;
        assert(store@.timelines =~= before.remove(at as int));
        lemma_timeline_removed(before, old(store)@.next_id, at as int);
    }
    Ok(())
}

/// Removes the timeline of the entity. An entity without a timeline is
/// no error: nothing changes then.
pub fn delete_by_entity(store: &mut Store, entity_type: &str, entity_id: i64) -> (r: Result<
    (),
    StoreError,
>)
    requires
        old(store).wf(),
    ensures
        final(store).wf(),
        r is Ok,
        final(store)@ == (if has_timeline(old(store)@.timelines, entity_type@, entity_id) {
            StoreView {
                timelines: old(store)@.timelines.remove(
                    timeline_place(old(store)@.timelines, entity_type@, entity_id),
                ),
                ..old(store)@
            }
        } else {
            old(store)@
        }),
{
    match find_timeline(&store.timelines, entity_type, entity_id) {
        Some(at) => {
            store.timelines.remove(at);
            proof {
                let before = old(store)@.timelines;
                assert(store@.timelines =~= before.remove(at as int));
                lemma_timeline_removed(before, old(store)@.next_id, at as int);
            }
        },
        None => {},
    }
    Ok(())
}

} // verus!
