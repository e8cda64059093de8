//! The characters of a project, and their relations to documents and
//! folders.

use vstd::prelude::*;
use crate::links::{
    attach, detach, drop_item, item_other_than, items_in_group, items_of, linked_in_group,
    strictly_growing, with_link, without_link,
};
use crate::models::{opt_text, replace_opt_text, replace_text, Character, CharacterView};
use crate::sorting::{is_listing, list_sorted};
use crate::store::{
    growing, has_key, linked, place_of, position, row_of, Keyed, Store, StoreError, StoreView,
};
use crate::text::{is_blank, is_blank_text, nocase_key, nocase_key_of};

verus! {

/// Why a character cannot be created, if it cannot.
pub open spec fn character_create_error(v: StoreView, project_id: i64, name: Seq<char>) -> Option<
    StoreError,
> {
    if is_blank(name) {
        Some(StoreError::EmptyName)
    } else if !has_key(v.projects, project_id) {
        Some(StoreError::NotFound)
    } else if v.next_id == i64::MAX {
        Some(StoreError::Exhausted)
    } else {
        None
    }
}

/// Creates a character in the project. The name must hold more than
/// white space.
pub fn create(store: &mut Store, project_id: i64, name: &str, desc: Option<String>) -> (r: Result<
    Character,
    StoreError,
>)
    requires
        old(store).wf(),
    ensures
        final(store).wf(),
        match r {
            Ok(c) => {
                &&& character_create_error(old(store)@, project_id, name@) is None
                &&& c@ == (CharacterView {
                    id: old(store)@.next_id,
                    project_id,
                    name: name@,
                    desc: opt_text(desc),
                })
                &&& final(store)@ == (StoreView {
                    characters: old(store)@.characters.push(c@),
                    next_id: (old(store)@.next_id + 1) as i64,
                    ..old(store)@
                })
            },
            Err(e) => {
                &&& character_create_error(old(store)@, project_id, name@) == Some(e)
                &&& final(store)@ == old(store)@
            },
        },
{
    if is_blank_text(name) {
        return Err(StoreError::EmptyName);
    }
    if position(&store.projects, project_id).is_none() {
        return Err(StoreError::NotFound);
    }
    if store.next_id == i64::MAX {
        return Err(StoreError::Exhausted);
    }
    let id = store.next_id;
    let row = Character { id, project_id, name: String::from_str(name), desc };
    let out = row.clone();
    store.characters.push(row);
    store.next_id = id + 1;
    proof {
        assert(store@.characters =~= old(store)@.characters.push(out@));
    }
    Ok(out)
}

/// The character with that identifier, if there is one.
pub fn get(store: &Store, id: i64) -> (r: Result<Option<Character>, StoreError>)
    requires
        store.wf(),
    ensures
        r matches Ok(found) && (match found {
            Some(c) => row_of(store@.characters, id) == Some(c@),
            None => !has_key(store@.characters, id),
        }),
{
    match position(&store.characters, id) {
        Some(i) => Ok(Some(store.characters[i].clone())),
        None => Ok(None),
    }
}

/// The characters of the project.
pub open spec fn character_in(project_id: i64) -> spec_fn(CharacterView) -> bool {
    |c: CharacterView| c.project_id == project_id
}

/// The key by which characters are listed: the name, without regard to
/// the case of the letters A to Z.
pub open spec fn character_key() -> spec_fn(CharacterView) -> Seq<i64> {
    |c: CharacterView| nocase_key(c.name)
}

/// The characters of the project, sorted by name without regard to case.
pub fn list(store: &Store, project_id: i64) -> (r: Result<Vec<Character>, StoreError>)
    requires
        store.wf(),
    ensures
        r matches Ok(rows) && is_listing(
            rows.deep_view(),
            store@.characters,
            character_in(project_id),
            character_key(),
        ),
{
    let ghost view = store.characters.deep_view();
    let mut picked: Vec<usize> = Vec::new();
    let mut keys: Vec<Vec<i64>> = Vec::new();
    let mut i: usize = 0;
    while i < store.characters.len()
        invariant
            i <= store.characters.len(),
            view == store.characters.deep_view(),
            keys.len() == picked.len(),
            forall|m: int|
                0 <= m < picked.len() ==> #[trigger] picked[m] < i && character_in(project_id)(
                    view[picked[m] as int],
                ),
            forall|m: int, n: int|
                0 <= m < n < picked.len() ==> #[trigger] picked[m] < #[trigger] picked[n],
            forall|j: int|
                0 <= j < i && character_in(project_id)(#[trigger] view[j]) ==> picked@.contains(
                    j as usize,
                ),
            forall|m: int|
                0 <= m < picked.len() ==> (#[trigger] keys[m])@ == character_key()(
                    view[picked[m] as int],
                ),
        decreases store.characters.len() - i,
    {
        let c = &store.characters[i];
        if c.project_id == project_id {
            let ghost before = picked@;
            let key = nocase_key_of(c.name.as_str());
            picked.push(i);
            keys.push(key);
            proof {
                assert forall|j: int|
                    0 <= j < i + 1 && character_in(project_id)(
                        #[trigger] view[j],
                    ) implies picked@.contains(j as usize) by {
                    if j < i {
                        assert(before.contains(j as usize));
                        let m = choose|m: int| 0 <= m < before.len() && before[m] == j as usize;
                        assert(picked@[m] == j as usize);
                    } else {
                        assert(picked@[picked.len() - 1] == j as usize);
                    }
                }
            }
        }
        i += 1;
    }
    Ok(
        list_sorted(
            &store.characters,
            &picked,
            &keys,
            Ghost(character_in(project_id)),
            Ghost(character_key()),
        ),
    )
}

/// The character with the fields given replaced and the others kept.
pub open spec fn updated_character(c: CharacterView, name: Option<String>, desc: Option<String>) -> CharacterView {
    CharacterView {
        name: match name {
            Some(s) => s@,
            None => c.name,
        },
        desc: match desc {
            Some(s) => Some(s@),
            None => c.desc,
        },
        ..c
    }
}

/// Replaces the fields given and keeps the others; returns the character
/// as it then stands. Fails where the character does not exist.
pub fn update(store: &mut Store, id: i64, name: Option<String>, desc: Option<String>) -> (r: Result<
    Character,
    StoreError,
>)
    requires
        old(store).wf(),
    ensures
        final(store).wf(),
        match r {
            Ok(c) => {
                &&& has_key(old(store)@.characters, id)
                &&& c@ == updated_character(
                    old(store)@.characters[place_of(old(store)@.characters, id)],
                    name,
                    desc,
                )
                &&& final(store)@ == (StoreView {
                    characters: old(store)@.characters.update(
                        place_of(old(store)@.characters, id),
                        c@,
                    ),
                    ..old(store)@
                })
            },
            Err(e) => {
                &&& !has_key(old(store)@.characters, id)
                &&& e == StoreError::NotFound
                &&& final(store)@ == old(store)@
            },
        },
{
    let at = match position(&store.characters, id) {
        Some(i) => i,
        None => {
            return Err(StoreError::NotFound);
        },
    };
    let new_name = replace_text(name, &store.characters[at].name);
    let new_desc = replace_opt_text(desc, &store.characters[at].desc);
    store.characters[at].name = new_name;
    store.characters[at].desc = new_desc;
    let out = store.characters[at].clone();
    proof {
        assert(store@.characters =~= old(store)@.characters.update(at as int, out@));
    }
    Ok(out)
}

/// The store without the character `id`, which is detached from every
/// document and folder.
pub open spec fn without_character(v: StoreView, id: i64) -> StoreView {
    if has_key(v.characters, id) {
        StoreView {
            characters: v.characters.remove(place_of(v.characters, id)),
            doc_characters: v.doc_characters.filter(item_other_than(id)),
            group_characters: v.group_characters.filter(item_other_than(id)),
            ..v
        }
    } else {
        v
    }
}

/// Removes the character and detaches it from every document and
/// folder. A character that does not exist is no error: nothing changes
/// then.
pub fn delete_(store: &mut Store, id: i64) -> (r: Result<(), StoreError>)
    requires
        old(store).wf(),
    ensures
        final(store).wf(),
        r is Ok,
        final(store)@ == without_character(old(store)@, id),
{
    match position(&store.characters, id) {
        Some(at) => {
            store.characters.remove(at);
            drop_item(&mut store.doc_characters, id);
            drop_item(&mut store.group_characters, id);
            proof {
                let before = old(store)@.characters;
                let after = store@.characters;
                assert(after =~= before.remove(at as int));
                assert forall|j: int| 0 <= j < after.len() implies 0 < (#[trigger] after[j]).key()
                    < store@.next_id by {
                    let src = if j < at {
                        j
                    } else {
                        j + 1
                    };
                    assert(after[j] == before[src]);
                }
                assert forall|i: int, j: int| 0 <= i < j < after.len() implies (
                #[trigger] after[i]).key() < (#[trigger] after[j]).key() by {
                    let si = if i < at {
                        i
                    } else {
                        i + 1
                    };
                    let sj = if j < at {
                        j
                    } else {
                        j + 1
                    };
                    assert(after[i] == before[si]);
                    assert(after[j] == before[sj]);
                    assert(before[si].key() < before[sj].key());
                }
            }
        },
        None => {},
    }
    Ok(())
}

/// Why a pair cannot be attached, if it cannot: one of its sides does
/// not exist.
pub open spec fn doc_character_error(v: StoreView, doc_id: i64, character_id: i64) -> Option<
    StoreError,
> {
    if !has_key(v.docs, doc_id) || !has_key(v.characters, character_id) {
        Some(StoreError::NotFound)
    } else {
        None
    }
}

/// The identifiers of the characters attached to the document, in
/// growing order.
pub fn list_for_doc(store: &Store, doc_id: i64) -> (r: Result<Vec<i64>, StoreError>)
    requires
        store.wf(),
    ensures
        r matches Ok(ids) && strictly_growing(ids@) && forall|x: i64|
            ids@.contains(x) <==> linked(store@.doc_characters, doc_id, x),
{
    Ok(items_of(&store.doc_characters, doc_id))
}

/// Attaches the character to the document. Attaching twice leaves one
/// pair.
pub fn attach_to_doc(store: &mut Store, doc_id: i64, character_id: i64) -> (r: Result<
    (),
    StoreError,
>)
    requires
        old(store).wf(),
    ensures
        final(store).wf(),
        match r {
            Ok(_) => {
                &&& doc_character_error(old(store)@, doc_id, character_id) is None
                &&& final(store)@ == (StoreView {
                    doc_characters: with_link(old(store)@.doc_characters, doc_id, character_id),
                    ..old(store)@
                })
            },
            Err(e) => {
                &&& doc_character_error(old(store)@, doc_id, character_id) == Some(e)
                &&& final(store)@ == old(store)@
            },
        },
{
    if position(&store.docs, doc_id).is_none() || position(&store.characters, character_id).is_none() {
        return Err(StoreError::NotFound);
    }
    attach(&mut store.doc_characters, doc_id, character_id);
    Ok(())
}

/// Detaches the character from the document. Detaching a pair that is
/// not attached is no error: nothing changes then.
pub fn detach_from_doc(store: &mut Store, doc_id: i64, character_id: i64) -> (r: Result<
    (),
    StoreError,
>)
    requires
        old(store).wf(),
    ensures
        final(store).wf(),
        r is Ok,
        final(store)@ == (StoreView {
            doc_characters: without_link(old(store)@.doc_characters, doc_id, character_id),
            ..old(store)@
        }),
        !linked(old(store)@.doc_characters, doc_id, character_id) ==> final(store)@ == old(
            store,
        )@,
{
    detach(&mut store.doc_characters, doc_id, character_id);
    Ok(())
}

/// Why a pair cannot be attached, if it cannot: one of its sides does
/// not exist.
pub open spec fn group_character_error(v: StoreView, doc_group_id: i64, character_id: i64) -> Option<
    StoreError,
> {
    if !has_key(v.groups, doc_group_id) || !has_key(v.characters, character_id) {
        Some(StoreError::NotFound)
    } else {
        None
    }
}

/// The identifiers of the characters attached to the folder itself, in
/// growing order.
pub fn list_for_doc_group(store: &Store, doc_group_id: i64) -> (r: Result<Vec<i64>, StoreError>)
    requires
        store.wf(),
    ensures
        r matches Ok(ids) && strictly_growing(ids@) && forall|x: i64|
            ids@.contains(x) <==> linked(store@.group_characters, doc_group_id, x),
{
    Ok(items_of(&store.group_characters, doc_group_id))
}

/// The identifiers of the characters attached to any document that is
/// filed in the folder, each once, in growing order.
pub fn list_from_docs_in_group(store: &Store, doc_group_id: i64) -> (r: Result<
    Vec<i64>,
    StoreError,
>)
    requires
        store.wf(),
    ensures
        r matches Ok(ids) && strictly_growing(ids@) && forall|x: i64|
            ids@.contains(x) <==> linked_in_group(
                store@.doc_characters,
                store@.docs,
                doc_group_id,
                x,
            ),
{
    Ok(items_in_group(&store.doc_characters, &store.docs, doc_group_id))
}

/// Attaches the character to the folder. Attaching twice leaves one
/// pair.
pub fn attach_to_doc_group(store: &mut Store, doc_group_id: i64, character_id: i64) -> (r: Result<
    (),
    StoreError,
>)
    requires
        old(store).wf(),
    ensures
        final(store).wf(),
        match r {
            Ok(_) => {
                &&& group_character_error(old(store)@, doc_group_id, character_id) is None
                &&& final(store)@ == (StoreView {
                    group_characters: with_link(
                        old(store)@.group_characters,
                        doc_group_id,
                        character_id,
                    ),
                    ..old(store)@
                })
            },
            Err(e) => {
                &&& group_character_error(old(store)@, doc_group_id, character_id) == Some(e)
                &&& final(store)@ == old(store)@
            },
        },
{
    if position(&store.groups, doc_group_id).is_none() || position(
        &store.characters,
        character_id,
    ).is_none() {
        return Err(StoreError::NotFound);
    }
    attach(&mut store.group_characters, doc_group_id, character_id);
    Ok(())
}

/// Detaches the character from the folder. Detaching a pair that is not
/// attached is no error: nothing changes then.
pub fn detach_from_doc_group(store: &mut Store, doc_group_id: i64, character_id: i64) -> (r: Result<
    (),
    StoreError,
>)
    requires
        old(store).wf(),
    ensures
        final(store).wf(),
        r is Ok,
        final(store)@ == (StoreView {
            group_characters: without_link(
                old(store)@.group_characters,
                doc_group_id,
                character_id,
            ),
            ..old(store)@
        }),
        !linked(old(store)@.group_characters, doc_group_id, character_id) ==> final(store)@
            == old(store)@,
{
    detach(&mut store.group_characters, doc_group_id, character_id);
    Ok(())
}

} // verus!
