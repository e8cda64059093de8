//! The places of a project, and their relations to documents and
//! folders.

use vstd::prelude::*;
use crate::links::{
    attach, detach, drop_item, item_other_than, items_in_group, items_of, linked_in_group,
    strictly_growing, with_link, without_link,
};
use crate::models::{opt_text, replace_opt_text, replace_text, Place, PlaceView};
use crate::sorting::{is_listing, list_sorted};
use crate::store::{
    growing, has_key, linked, place_of, position, row_of, Keyed, Store, StoreError, StoreView,
};
use crate::text::{is_blank, is_blank_text, nocase_key, nocase_key_of};

verus! {

/// Why a place cannot be created, if it cannot.
pub open spec fn place_create_error(v: StoreView, project_id: i64, name: Seq<char>) -> Option<
    StoreError,
> {
    if is_blank(name) {
        Some(StoreError::EmptyName)
    } else if !has_key(v.projects, project_id) {
        Some(StoreError::NotFound)
    } else if v.next_id == i64::MAX {
        Some(StoreError::Exhausted)
    } else {
        None
    }
}

/// Creates a place in the project. The name must hold more than
/// white space.
pub fn create(store: &mut Store, project_id: i64, name: &str, desc: Option<String>) -> (r: Result<
    Place,
    StoreError,
>)
    requires
        old(store).wf(),
    ensures
        final(store).wf(),
        match r {
            Ok(c) => {
                &&& place_create_error(old(store)@, project_id, name@) is None
                &&& c@ == (PlaceView {
                    id: old(store)@.next_id,
                    project_id,
                    name: name@,
                    desc: opt_text(desc),
                })
                &&& final(store)@ == (StoreView {
                    places: old(store)@.places.push(c@),
                    next_id: (old(store)@.next_id + 1) as i64,
                    ..old(store)@
                })
            },
            Err(e) => {
                &&& place_create_error(old(store)@, project_id, name@) == Some(e)
                &&& final(store)@ == old(store)@
            },
        },
{
    if is_blank_text(name) {
        return Err(StoreError::EmptyName);
    }
    if position(&store.projects, project_id).is_none() {
        return Err(StoreError::NotFound);
    }
    if store.next_id == i64::MAX {
        return Err(StoreError::Exhausted);
    }
    let id = store.next_id;
    let row = Place { id, project_id, name: String::from_str(name), desc };
    let out = row.clone();
    store.places.push(row);
    store.next_id = id + 1;
    proof {
        assert(store@.places =~= old(store)@.places.push(out@));
    }
    Ok(out)
}

/// The place with that identifier, if there is one.
pub fn get(store: &Store, id: i64) -> (r: Result<Option<Place>, StoreError>)
    requires
        store.wf(),
    ensures
        r matches Ok(found) && (match found {
            Some(c) => row_of(store@.places, id) == Some(c@),
            None => !has_key(store@.places, id),
        }),
{
    match position(&store.places, id) {
        Some(i) => Ok(Some(store.places[i].clone())),
        None => Ok(None),
    }
}

/// The places of the project.
pub open spec fn place_in(project_id: i64) -> spec_fn(PlaceView) -> bool {
    |c: PlaceView| c.project_id == project_id
}

/// The key by which places are listed: the name, without regard to
/// the case of the letters A to Z.
pub open spec fn place_key() -> spec_fn(PlaceView) -> Seq<i64> {
    |c: PlaceView| nocase_key(c.name)
}

/// The places of the project, sorted by name without regard to case.
pub fn list(store: &Store, project_id: i64) -> (r: Result<Vec<Place>, StoreError>)
    requires
        store.wf(),
    ensures
        r matches Ok(rows) && is_listing(
            rows.deep_view(),
            store@.places,
            place_in(project_id),
            place_key(),
        ),
{
    let ghost view = store.places.deep_view();
    let mut picked: Vec<usize> = Vec::new();
    let mut keys: Vec<Vec<i64>> = Vec::new();
    let mut i: usize = 0;
    while i < store.places.len()
        invariant
            i <= store.places.len(),
            view == store.places.deep_view(),
            keys.len() == picked.len(),
            forall|m: int|
                0 <= m < picked.len() ==> #[trigger] picked[m] < i && place_in(project_id)(
                    view[picked[m] as int],
                ),
            forall|m: int, n: int|
                0 <= m < n < picked.len() ==> #[trigger] picked[m] < #[trigger] picked[n],
            forall|j: int|
                0 <= j < i && place_in(project_id)(#[trigger] view[j]) ==> picked@.contains(
                    j as usize,
                ),
            forall|m: int|
                0 <= m < picked.len() ==> (#[trigger] keys[m])@ == place_key()(
                    view[picked[m] as int],
                ),
        decreases store.places.len() - i,
    {
        let c = &store.places[i];
        if c.project_id == project_id {
            let ghost before = picked@;
            let key = nocase_key_of(c.name.as_str());
            picked.push(i);
            keys.push(key);
            proof {
                assert forall|j: int|
                    0 <= j < i + 1 && place_in(project_id)(
                        #[trigger] view[j],
                    ) implies picked@.contains(j as usize) by {
                    if j < i {
                        assert(before.contains(j as usize));
                        let m = choose|m: int| 0 <= m < before.len() && before[m] == j as usize;
                        assert(picked@[m] == j as usize);
                    } else {
                        assert(picked@[picked.len() - 1] == j as usize);
                    }
                }
            }
        }
        i += 1;
    }
    Ok(
        list_sorted(
            &store.places,
            &picked,
            &keys,
            Ghost(place_in(project_id)),
            Ghost(place_key()),
        ),
    )
}

/// The place with the fields given replaced and the others kept.
pub open spec fn updated_place(c: PlaceView, name: Option<String>, desc: Option<String>) -> PlaceView {
    PlaceView {
        name: match name {
            Some(s) => s@,
            None => c.name,
        },
        desc: match desc {
            Some(s) => Some(s@),
            None => c.desc,
        },
        ..c
    }
}

/// Replaces the fields given and keeps the others; returns the place
/// as it then stands. Fails where the place does not exist.
pub fn update(store: &mut Store, id: i64, name: Option<String>, desc: Option<String>) -> (r: Result<
    Place,
    StoreError,
>)
    requires
        old(store).wf(),
    ensures
        final(store).wf(),
        match r {
            Ok(c) => {
                &&& has_key(old(store)@.places, id)
                &&& c@ == updated_place(
                    old(store)@.places[place_of(old(store)@.places, id)],
                    name,
                    desc,
                )
                &&& final(store)@ == (StoreView {
                    places: old(store)@.places.update(
                        place_of(old(store)@.places, id),
                        c@,
                    ),
                    ..old(store)@
                })
            },
            Err(e) => {
                &&& !has_key(old(store)@.places, id)
                &&& e == StoreError::NotFound
                &&& final(store)@ == old(store)@
            },
        },
{
    let at = match position(&store.places, id) {
        Some(i) => i,
        None => {
            return Err(StoreError::NotFound);
        },
    };
    let new_name = replace_text(name, &store.places[at].name);
    let new_desc = replace_opt_text(desc, &store.places[at].desc);
    store.places[at].name = new_name;
    store.places[at].desc = new_desc;
    let out = store.places[at].clone();
    proof {
        assert(store@.places =~= old(store)@.places.update(at as int, out@));
    }
    Ok(out)
}

/// The store without the place `id`, which is detached from every
/// document and folder.
pub open spec fn without_place(v: StoreView, id: i64) -> StoreView {
    if has_key(v.places, id) {
        StoreView {
            places: v.places.remove(place_of(v.places, id)),
            doc_places: v.doc_places.filter(item_other_than(id)),
            group_places: v.group_places.filter(item_other_than(id)),
            ..v
        }
    } else {
        v
    }
}

/// Removes the place and detaches it from every document and
/// folder. A place that does not exist is no error: nothing changes
/// then.
pub fn delete_(store: &mut Store, id: i64) -> (r: Result<(), StoreError>)
    requires
        old(store).wf(),
    ensures
        final(store).wf(),
        r is Ok,
        final(store)@ == without_place(old(store)@, id),
{
    match position(&store.places, id) {
        Some(at) => {
            store.places.remove(at);
            drop_item(&mut store.doc_places, id);
            drop_item(&mut store.group_places, id);
            proof {
                let before = old(store)@.places;
                let after = store@.places;
                assert(after =~= before.remove(at as int));
                assert forall|j: int| 0 <= j < after.len() implies 0 < (#[trigger] after[j]).key()
                    < store@.next_id by {
                    let src = if j < at {
                        j
                    } else {
                        j + 1
                    };
                    assert(after[j] == before[src]);
                }
                assert forall|i: int, j: int| 0 <= i < j < after.len() implies (
                #[trigger] after[i]).key() < (#[trigger] after[j]).key() by {
                    let si = if i < at {
                        i
                    } else {
                        i + 1
                    };
                    let sj = if j < at {
                        j
                    } else {
                        j + 1
                    };
                    assert(after[i] == before[si]);
                    assert(after[j] == before[sj]);
                    assert(before[si].key() < before[sj].key());
                }
            }
        },
        None => {},
    }
    Ok(())
}

/// Why a pair cannot be attached, if it cannot: one of its sides does
/// not exist.
pub open spec fn doc_place_error(v: StoreView, doc_id: i64, place_id: i64) -> Option<
    StoreError,
> {
    if !has_key(v.docs, doc_id) || !has_key(v.places, place_id) {
        Some(StoreError::NotFound)
    } else {
        None
    }
}

/// The identifiers of the places attached to the document, in
/// growing order.
pub fn list_for_doc(store: &Store, doc_id: i64) -> (r: Result<Vec<i64>, StoreError>)
    requires
        store.wf(),
    ensures
        r matches Ok(ids) && strictly_growing(ids@) && forall|x: i64|
            ids@.contains(x) <==> linked(store@.doc_places, doc_id, x),
{
    Ok(items_of(&store.doc_places, doc_id))
}

/// Attaches the place to the document. Attaching twice leaves one
/// pair.
pub fn attach_to_doc(store: &mut Store, doc_id: i64, place_id: i64) -> (r: Result<
    (),
    StoreError,
>)
    requires
        old(store).wf(),
    ensures
        final(store).wf(),
        match r {
            Ok(_) => {
                &&& doc_place_error(old(store)@, doc_id, place_id) is None
                &&& final(store)@ == (StoreView {
                    doc_places: with_link(old(store)@.doc_places, doc_id, place_id),
                    ..old(store)@
                })
            },
            Err(e) => {
                &&& doc_place_error(old(store)@, doc_id, place_id) == Some(e)
                &&& final(store)@ == old(store)@
            },
        },
{
    if position(&store.docs, doc_id).is_none() || position(&store.places, place_id).is_none() {
        return Err(StoreError::NotFound);
    }
    attach(&mut store.doc_places, doc_id, place_id);
    Ok(())
}

/// Detaches the place from the document. Detaching a pair that is
/// not attached is no error: nothing changes then.
pub fn detach_from_doc(store: &mut Store, doc_id: i64, place_id: i64) -> (r: Result<
    (),
    StoreError,
>)
    requires
        old(store).wf(),
    ensures
        final(store).wf(),
        r is Ok,
        final(store)@ == (StoreView {
            doc_places: without_link(old(store)@.doc_places, doc_id, place_id),
            ..old(store)@
        }),
        !linked(old(store)@.doc_places, doc_id, place_id) ==> final(store)@ == old(
            store,
        )@,
{
    detach(&mut store.doc_places, doc_id, place_id);
    Ok(())
}

/// Why a pair cannot be attached, if it cannot: one of its sides does
/// not exist.
pub open spec fn group_place_error(v: StoreView, doc_group_id: i64, place_id: i64) -> Option<
    StoreError,
> {
    if !has_key(v.groups, doc_group_id) || !has_key(v.places, place_id) {
        Some(StoreError::NotFound)
    } else {
        None
    }
}

/// The identifiers of the places attached to the folder itself, in
/// growing order.
pub fn list_for_doc_group(store: &Store, doc_group_id: i64) -> (r: Result<Vec<i64>, StoreError>)
    requires
        store.wf(),
    ensures
        r matches Ok(ids) && strictly_growing(ids@) && forall|x: i64|
            ids@.contains(x) <==> linked(store@.group_places, doc_group_id, x),
{
    Ok(items_of(&store.group_places, doc_group_id))
}

/// The identifiers of the places attached to any document that is
/// filed in the folder, each once, in growing order.
pub fn list_from_docs_in_group(store: &Store, doc_group_id: i64) -> (r: Result<
    Vec<i64>,
    StoreError,
>)
    requires
        store.wf(),
    ensures
        r matches Ok(ids) && strictly_growing(ids@) && forall|x: i64|
            ids@.contains(x) <==> linked_in_group(
                store@.doc_places,
                store@.docs,
                doc_group_id,
                x,
            ),
{
    Ok(items_in_group(&store.doc_places, &store.docs, doc_group_id))
}

/// Attaches the place to the folder. Attaching twice leaves one
/// pair.
pub fn attach_to_doc_group(store: &mut Store, doc_group_id: i64, place_id: i64) -> (r: Result<
    (),
    StoreError,
>)
    requires
        old(store).wf(),
    ensures
        final(store).wf(),
        match r {
            Ok(_) => {
                &&& group_place_error(old(store)@, doc_group_id, place_id) is None
                &&& final(store)@ == (StoreView {
                    group_places: with_link(
                        old(store)@.group_places,
                        doc_group_id,
                        place_id,
                    ),
                    ..old(store)@
                })
            },
            Err(e) => {
                &&& group_place_error(old(store)@, doc_group_id, place_id) == Some(e)
                &&& final(store)@ == old(store)@
            },
        },
{
    if position(&store.groups, doc_group_id).is_none() || position(
        &store.places,
        place_id,
    ).is_none() {
        return Err(StoreError::NotFound);
    }
    attach(&mut store.group_places, doc_group_id, place_id);
    Ok(())
}

/// Detaches the place from the folder. Detaching a pair that is not
/// attached is no error: nothing changes then.
pub fn detach_from_doc_group(store: &mut Store, doc_group_id: i64, place_id: i64) -> (r: Result<
    (),
    StoreError,
>)
    requires
        old(store).wf(),
    ensures
        final(store).wf(),
        r is Ok,
        final(store)@ == (StoreView {
            group_places: without_link(
                old(store)@.group_places,
                doc_group_id,
                place_id,
            ),
            ..old(store)@
        }),
        !linked(old(store)@.group_places, doc_group_id, place_id) ==> final(store)@
            == old(store)@,
{
    detach(&mut store.group_places, doc_group_id, place_id);
    Ok(())
}

} // verus!
