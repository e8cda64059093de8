//! The events of a project, and their relations to documents and
//! folders.

use vstd::prelude::*;
use crate::links::{
    attach, detach, drop_item, item_other_than, items_in_group, items_of, linked_in_group,
    strictly_growing, with_link, without_link,
};
use crate::models::{opt_text, replace_opt_text, replace_text, Event, EventView};
use crate::tables::retain_rows;
use crate::store::{
    growing, has_key, linked, place_of, position, row_of, Keyed, Store, StoreError, StoreView,
};
use crate::text::{is_blank, is_blank_text};

verus! {

/// Why an event cannot be created, if it cannot.
pub open spec fn event_create_error(v: StoreView, project_id: i64, name: Seq<char>) -> Option<
    StoreError,
> {
    if is_blank(name) {
        Some(StoreError::EmptyName)
    } else if !has_key(v.projects, project_id) {
        Some(StoreError::NotFound)
    } else if v.next_id == i64::MAX {
        Some(StoreError::Exhausted)
    } else {
        None
    }
}

/// Creates an event in the project. The name must hold more than white
/// space.
pub fn create(
    store: &mut Store,
    project_id: i64,
    name: &str,
    desc: Option<String>,
    start_date: Option<String>,
    end_date: Option<String>,
    date: Option<String>,
) -> (r: Result<Event, StoreError>)
    requires
        old(store).wf(),
    ensures
        final(store).wf(),
        match r {
            Ok(c) => {
                &&& event_create_error(old(store)@, project_id, name@) is None
                &&& c@ == (EventView {
                    id: old(store)@.next_id,
                    project_id,
                    name: name@,
                    desc: opt_text(desc),
                    date: opt_text(date),
                    start_date: opt_text(start_date),
                    end_date: opt_text(end_date),
                })
                &&& final(store)@ == (StoreView {
                    events: old(store)@.events.push(c@),
                    next_id: (old(store)@.next_id + 1) as i64,
                    ..old(store)@
                })
            },
            Err(e) => {
                &&& event_create_error(old(store)@, project_id, name@) == Some(e)
                &&& final(store)@ == old(store)@
            },
        },
{
    if is_blank_text(name) {
        return Err(StoreError::EmptyName);
    }
    if position(&store.projects, project_id).is_none() {
        return Err(StoreError::NotFound);
    }
    if store.next_id == i64::MAX {
        return Err(StoreError::Exhausted);
    }
    let id = store.next_id;
    let row = Event { id, project_id, name: String::from_str(name), desc, date, start_date, end_date };
    let out = row.clone();
    store.events.push(row);
    store.next_id = id + 1;
    proof {
        assert(store@.events =~= old(store)@.events.push(out@));
    }
    Ok(out)
}

/// The event with that identifier, if there is one.
pub fn get(store: &Store, id: i64) -> (r: Result<Option<Event>, StoreError>)
    requires
        store.wf(),
    ensures
        r matches Ok(found) && (match found {
            Some(c) => row_of(store@.events, id) == Some(c@),
            None => !has_key(store@.events, id),
        }),
{
    match position(&store.events, id) {
        Some(i) => Ok(Some(store.events[i].clone())),
        None => Ok(None),
    }
}

/// The events of the project.
pub open spec fn event_in(project_id: i64) -> spec_fn(EventView) -> bool {
    |c: EventView| c.project_id == project_id
}

/// The events of the project, in the order of their identifiers.
pub fn list(store: &Store, project_id: i64) -> (r: Result<Vec<Event>, StoreError>)
    requires
        store.wf(),
    ensures
        r matches Ok(rows) && rows.deep_view() == store@.events.filter(event_in(project_id)),
{
    let ghost pred = event_in(project_id);
    let mut keep: Vec<bool> = Vec::new();
    let mut i: usize = 0;
    while i < store.events.len()
        invariant
            i <= store.events.len(),
            pred == event_in(project_id),
            keep.len() == i,
            forall|j: int|
                0 <= j < i ==> #[trigger] keep[j] == pred(store.events.deep_view()[j]),
        decreases store.events.len() - i,
    {
        keep.push(store.events[i].project_id == project_id);
        i += 1;
    }
    Ok(retain_rows(&store.events, &keep, Ghost(pred)))
}

/// The event with the fields given replaced and the others kept.
pub open spec fn updated_event(
    c: EventView,
    name: Option<String>,
    desc: Option<String>,
    start_date: Option<String>,
    end_date: Option<String>,
) -> EventView {
    EventView {
        name: match name {
            Some(s) => s@,
            None => c.name,
        },
        desc: match desc {
            Some(s) => Some(s@),
            None => c.desc,
        },
        start_date: match start_date {
            Some(s) => Some(s@),
            None => c.start_date,
        },
        end_date: match end_date {
            Some(s) => Some(s@),
            None => c.end_date,
        },
        ..c
    }
}

/// Replaces the fields given and keeps the others; returns the event
/// as it then stands. Fails where the event does not exist.
pub fn update(
    store: &mut Store,
    id: i64,
    name: Option<String>,
    desc: Option<String>,
    start_date: Option<String>,
    end_date: Option<String>,
) -> (r: Result<Event, StoreError>)
    requires
        old(store).wf(),
    ensures
        final(store).wf(),
        match r {
            Ok(c) => {
                &&& has_key(old(store)@.events, id)
                &&& c@ == updated_event(
                    old(store)@.events[place_of(old(store)@.events, id)],
                    name,
                    desc,
                    start_date,
                    end_date,
                )
                &&& final(store)@ == (StoreView {
                    events: old(store)@.events.update(
                        place_of(old(store)@.events, id),
                        c@,
                    ),
                    ..old(store)@
                })
            },
            Err(e) => {
                &&& !has_key(old(store)@.events, id)
                &&& e == StoreError::NotFound
                &&& final(store)@ == old(store)@
            },
        },
{
    let at = match position(&store.events, id) {
        Some(i) => i,
        None => {
            return Err(StoreError::NotFound);
        },
    };
    let new_name = replace_text(name, &store.events[at].name);
    let new_desc = replace_opt_text(desc, &store.events[at].desc);
    let new_start = replace_opt_text(start_date, &store.events[at].start_date);
    let new_end = replace_opt_text(end_date, &store.events[at].end_date);
    store.events[at].name = new_name;
    store.events[at].desc = new_desc;
    store.events[at].start_date = new_start;
    store.events[at].end_date = new_end;
    let out = store.events[at].clone();
    proof {
        assert(store@.events =~= old(store)@.events.update(at as int, out@));
    }
    Ok(out)
}

/// The store without the event `id`, which is detached from every
/// document and folder.
pub open spec fn without_event(v: StoreView, id: i64) -> StoreView {
    if has_key(v.events, id) {
        StoreView {
            events: v.events.remove(place_of(v.events, id)),
            doc_events: v.doc_events.filter(item_other_than(id)),
            group_events: v.group_events.filter(item_other_than(id)),
            ..v
        }
    } else {
        v
    }
}

/// Removes the event and detaches it from every document and
/// folder. A event that does not exist is no error: nothing changes
/// then.
pub fn delete_(store: &mut Store, id: i64) -> (r: Result<(), StoreError>)
    requires
        old(store).wf(),
    ensures
        final(store).wf(),
        r is Ok,
        final(store)@ == without_event(old(store)@, id),
{
    match position(&store.events, id) {
        Some(at) => {
            store.events.remove(at);
            drop_item(&mut store.doc_events, id);
            drop_item(&mut store.group_events, id);
            proof {
                let before = old(store)@.events;
                let after = store@.events;
                assert(after =~= before.remove(at as int));
                assert forall|j: int| 0 <= j < after.len() implies 0 < (#[trigger] after[j]).key()
                    < store@.next_id by {
                    let src = if j < at {
                        j
                    } else {
                        j + 1
                    };
                    assert(after[j] == before[src]);
                }
                assert forall|i: int, j: int| 0 <= i < j < after.len() implies (
                #[trigger] after[i]).key() < (#[trigger] after[j]).key() by {
                    let si = if i < at {
                        i
                    } else {
                        i + 1
                    };
                    let sj = if j < at {
                        j
                    } else {
                        j + 1
                    };
                    assert(after[i] == before[si]);
                    assert(after[j] == before[sj]);
                    assert(before[si].key() < before[sj].key());
                }
            }
        },
        None => {},
    }
    Ok(())
}

/// Why a pair cannot be attached, if it cannot: one of its sides does
/// not exist.
pub open spec fn doc_event_error(v: StoreView, doc_id: i64, event_id: i64) -> Option<
    StoreError,
> {
    if !has_key(v.docs, doc_id) || !has_key(v.events, event_id) {
        Some(StoreError::NotFound)
    } else {
        None
    }
}

/// The identifiers of the events attached to the document, in
/// growing order.
pub fn list_for_doc(store: &Store, doc_id: i64) -> (r: Result<Vec<i64>, StoreError>)
    requires
        store.wf(),
    ensures
        r matches Ok(ids) && strictly_growing(ids@) && forall|x: i64|
            ids@.contains(x) <==> linked(store@.doc_events, doc_id, x),
{
    Ok(items_of(&store.doc_events, doc_id))
}

/// Attaches the event to the document. Attaching twice leaves one
/// pair.
pub fn attach_to_doc(store: &mut Store, doc_id: i64, event_id: i64) -> (r: Result<
    (),
    StoreError,
>)
    requires
        old(store).wf(),
    ensures
        final(store).wf(),
        match r {
            Ok(_) => {
                &&& doc_event_error(old(store)@, doc_id, event_id) is None
                &&& final(store)@ == (StoreView {
                    doc_events: with_link(old(store)@.doc_events, doc_id, event_id),
                    ..old(store)@
                })
            },
            Err(e) => {
                &&& doc_event_error(old(store)@, doc_id, event_id) == Some(e)
                &&& final(store)@ == old(store)@
            },
        },
{
    if position(&store.docs, doc_id).is_none() || position(&store.events, event_id).is_none() {
        return Err(StoreError::NotFound);
    }
    attach(&mut store.doc_events, doc_id, event_id);
    Ok(())
}

/// Detaches the event from the document. Detaching a pair that is
/// not attached is no error: nothing changes then.
pub fn detach_from_doc(store: &mut Store, doc_id: i64, event_id: i64) -> (r: Result<
    (),
    StoreError,
>)
    requires
        old(store).wf(),
    ensures
        final(store).wf(),
        r is Ok,
        final(store)@ == (StoreView {
            doc_events: without_link(old(store)@.doc_events, doc_id, event_id),
            ..old(store)@
        }),
        !linked(old(store)@.doc_events, doc_id, event_id) ==> final(store)@ == old(
            store,
        )@,
{
    detach(&mut store.doc_events, doc_id, event_id);
    Ok(())
}

/// Why a pair cannot be attached, if it cannot: one of its sides does
/// not exist.
pub open spec fn group_event_error(v: StoreView, doc_group_id: i64, event_id: i64) -> Option<
    StoreError,
> {
    if !has_key(v.groups, doc_group_id) || !has_key(v.events, event_id) {
        Some(StoreError::NotFound)
    } else {
        None
    }
}

/// The identifiers of the events attached to the folder itself, in
/// growing order.
pub fn list_for_doc_group(store: &Store, doc_group_id: i64) -> (r: Result<Vec<i64>, StoreError>)
    requires
        store.wf(),
    ensures
        r matches Ok(ids) && strictly_growing(ids@) && forall|x: i64|
            ids@.contains(x) <==> linked(store@.group_events, doc_group_id, x),
{
    Ok(items_of(&store.group_events, doc_group_id))
}

/// The identifiers of the events attached to any document that is
/// filed in the folder, each once, in growing order.
pub fn list_from_docs_in_group(store: &Store, doc_group_id: i64) -> (r: Result<
    Vec<i64>,
    StoreError,
>)
    requires
        store.wf(),
    ensures
        r matches Ok(ids) && strictly_growing(ids@) && forall|x: i64|
            ids@.contains(x) <==> linked_in_group(
                store@.doc_events,
                store@.docs,
                doc_group_id,
                x,
            ),
{
    Ok(items_in_group(&store.doc_events, &store.docs, doc_group_id))
}

/// Attaches the event to the folder. Attaching twice leaves one
/// pair.
pub fn attach_to_doc_group(store: &mut Store, doc_group_id: i64, event_id: i64) -> (r: Result<
    (),
    StoreError,
>)
    requires
        old(store).wf(),
    ensures
        final(store).wf(),
        match r {
            Ok(_) => {
                &&& group_event_error(old(store)@, doc_group_id, event_id) is None
                &&& final(store)@ == (StoreView {
                    group_events: with_link(
                        old(store)@.group_events,
                        doc_group_id,
                        event_id,
                    ),
                    ..old(store)@
                })
            },
            Err(e) => {
                &&& group_event_error(old(store)@, doc_group_id, event_id) == Some(e)
                &&& final(store)@ == old(store)@
            },
        },
{
    if position(&store.groups, doc_group_id).is_none() || position(
        &store.events,
        event_id,
    ).is_none() {
        return Err(StoreError::NotFound);
    }
    attach(&mut store.group_events, doc_group_id, event_id);
    Ok(())
}

/// Detaches the event from the folder. Detaching a pair that is not
/// attached is no error: nothing changes then.
pub fn detach_from_doc_group(store: &mut Store, doc_group_id: i64, event_id: i64) -> (r: Result<
    (),
    StoreError,
>)
    requires
        old(store).wf(),
    ensures
        final(store).wf(),
        r is Ok,
        final(store)@ == (StoreView {
            group_events: without_link(
                old(store)@.group_events,
                doc_group_id,
                event_id,
            ),
            ..old(store)@
        }),
        !linked(old(store)@.group_events, doc_group_id, event_id) ==> final(store)@
            == old(store)@,
{
    detach(&mut store.group_events, doc_group_id, event_id);
    Ok(())
}

} // verus!
