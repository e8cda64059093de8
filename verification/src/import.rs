//! Import: a project rebuilt from its manifest.
//!
//! Everything is created anew, so every identifier changes; the maps
//! from old to new identifiers carry the links of the manifest over.
//! Folders are created parents first, and the children of one parent in
//! their order, so that creation alone gives each its place. Documents
//! are created folder by folder in their order for the same reason.

use vstd::prelude::*;
use crate::doc_groups::{create_doc_group, group_create_error, group_slots, groups_dense_in};
use crate::import_plan::{creation_order, is_creation_order, is_selection};
use crate::docs::{
    create_doc, doc_create_error, doc_slots, docs_dense_in, update_doc, update_doc_notes,
};
use crate::drafts::create_draft_at;
use crate::links::{attach, with_link};
use crate::clock::timestamp_now;
use crate::manifest::{
    app_signature, DocDrafts, DocDraftsView, DocItems, DocItemsView, DocTimeline,
    DocTimelineView, Manifest, ManifestView,
};
use crate::models::{
    copy_opt_text, Character, CharacterView, Doc, DocGroup, DocGroupView, DocView, DraftCreate,
    DraftView, Event, EventView, Place, PlaceView, Project, ProjectCreate, ProjectView,
    TimelineCreate,
};
use crate::timelines::timeline_set;
use crate::text::is_blank;
use crate::order::{
    lemma_empty_dense, lemma_next_order_bound, lemma_set_len_bound, next_order, ranked,
};
use crate::sorting::{
    is_stable_order, keys_view, lemma_selection_fits, places_view, stable_order,
};
use crate::store::{
    ascending, growing, has_key, lemma_place_of, links_below, links_distinct, owners_below,
    place_of, Keyed, Link, Owned, Store, StoreError, StoreView,
};

verus! {

/// An identifier of the manifest and the identifier that took its place.
#[derive(Clone, Copy, Debug, PartialEq, Eq, Structural)]
pub struct IdPair {
    pub old: i64,
    pub new: i64,
}

/// The identifier that took the place of `old`: that of the pair noted
/// last for it.
pub open spec fn new_id_of(map: Seq<IdPair>, old: i64) -> Option<i64>
    decreases map.len(),
{
    if map.len() == 0 {
        None
    } else if map.last().old == old {
        Some(map.last().new)
    } else {
        new_id_of(map.drop_last(), old)
    }
}

/// The identifier that took the place of `old`, if one did.
pub fn lookup(map: &Vec<IdPair>, old: i64) -> (r: Option<i64>)
    ensures
        r == new_id_of(map@, old),
{
    let mut i: usize = map.len();
    proof {
        assert(map@.take(i as int) =~= map@);
    }
    while i > 0
        invariant
            i <= map.len(),
            new_id_of(map@, old) == new_id_of(map@.take(i as int), old),
        decreases i,
    {
        proof {
            assert(map@.take(i as int).drop_last() =~= map@.take(i - 1));
            assert(map@.take(i as int).last() == map[i - 1]);
        }
        if map[i - 1].old == old {
            return Some(map[i - 1].new);
        }
        i -= 1;
    }
    proof {
        assert(map@.take(0).len() == 0);
    }
    None
}

/// Where an old identifier has a new one, a pair of the map holds both.
pub proof fn lemma_new_id_of(map: Seq<IdPair>, old: i64)
    ensures
        new_id_of(map, old) matches Some(n) ==> exists|i: int|
            0 <= i < map.len() && #[trigger] map[i] == (IdPair { old, new: n }),
        new_id_of(map, old) is None ==> forall|i: int|
            0 <= i < map.len() ==> (#[trigger] map[i]).old != old,
    decreases map.len(),
{
    if map.len() > 0 {
        let n1 = map.len() - 1;
        if map.last().old == old {
            assert(map[n1] == (IdPair { old, new: map.last().new }));
        } else {
            lemma_new_id_of(map.drop_last(), old);
            if new_id_of(map, old) is Some {
                let n = new_id_of(map, old)->0;
                let i = choose|i: int|
                    0 <= i < map.drop_last().len() && #[trigger] map.drop_last()[i] == (IdPair {
                        old,
                        new: n,
                    });
                assert(map[i] == (IdPair { old, new: n }));
            } else {
                assert forall|i: int| 0 <= i < map.len() implies (#[trigger] map[i]).old
                    != old by {
                    if i < n1 {
                        assert(map.drop_last()[i] == map[i]);
                    }
                }
            }
        }
    }
}

/// The store after a folder was created as the last child of `parent`.
pub open spec fn group_added(
    v: StoreView,
    project_id: i64,
    name: Seq<char>,
    parent: Option<i64>,
) -> StoreView {
    StoreView {
        groups: v.groups.push(
            DocGroupView {
                id: v.next_id,
                project_id,
                name,
                parent_id: parent,
                sort_order: Some(next_order(group_slots(v.groups), project_id, parent) as i64),
                notes: None,
            },
        ),
        next_id: (v.next_id + 1) as i64,
        ..v
    }
}

/// The parent of a folder created anew: the folder that took the place
/// of its old parent.
pub open spec fn new_parent(map: Seq<IdPair>, g: DocGroupView) -> Option<i64> {
    match g.parent_id {
        Some(p) => new_id_of(map, p),
        None => None,
    }
}

/// The store and the map of folders after the first `k` folders of the
/// order were created anew in the project.
pub open spec fn groups_replayed(
    v: StoreView,
    project_id: i64,
    g: Seq<DocGroupView>,
    order: Seq<int>,
    k: nat,
) -> (StoreView, Seq<IdPair>)
    decreases k,
{
    if k == 0 || k > order.len() {
        (v, Seq::empty())
    } else {
        let (w, map) = groups_replayed(v, project_id, g, order, (k - 1) as nat);
        let e = g[order[k - 1]];
        (
            group_added(w, project_id, e.name, new_parent(map, e)),
            map.push(IdPair { old: e.id, new: w.next_id }),
        )
    }
}

/// A table with growing positive identifiers below `next` has fewer
/// than `next` rows.
pub proof fn lemma_ascending_len<R: Keyed>(rows: Seq<R>, next: i64)
    requires
        ascending(rows, next),
        0 < next,
    ensures
        rows.len() < next,
    decreases rows.len(),
{
    if rows.len() > 0 {
        let rest = rows.drop_last();
        assert forall|i: int| 0 <= i < rest.len() implies 0 < (#[trigger] rest[i]).key()
            < rows.last().key() by {
            assert(rest[i] == rows[i]);
            assert(rows[i].key() < rows[rows.len() - 1].key());
            assert(0 < rows[i].key());
        }
        assert forall|i: int, j: int| 0 <= i < j < rest.len() implies (#[trigger] rest[i]).key()
            < (#[trigger] rest[j]).key() by {
            assert(rest[i] == rows[i] && rest[j] == rows[j]);
        }
        lemma_ascending_len(rest, rows.last().key());
        assert(rows[rows.len() - 1].key() < next);
    }
}

/// No folder of the store belongs to a project that is yet to be
/// created, so every sibling set of such a project is dense.
pub proof fn lemma_new_project_dense(groups: Seq<DocGroupView>, next: i64, project_id: i64, q: Option<i64>)
    requires
        owners_below(groups, next),
        project_id >= next,
    ensures
        groups_dense_in(groups, project_id, q),
{
    let slots = group_slots(groups);
    assert forall|i: int| 0 <= i < slots.len() implies !ranked(#[trigger] slots[i], project_id, q) by {
        assert(groups[i].owner() < next);
    }
    lemma_empty_dense(slots, project_id, q);
}

/// What holds of the map of folders while folders are created: the new
/// identifiers are those of folders of the store.
pub open spec fn maps_to_groups(map: Seq<IdPair>, v: StoreView) -> bool {
    forall|i: int| 0 <= i < map.len() ==> has_key(v.groups, (#[trigger] map[i]).new)
}

/// Creates the folders of the manifest anew in the project, in the
/// order given.
pub fn import_groups(
    store: &mut Store,
    project_id: i64,
    groups: &Vec<DocGroup>,
    order: &Vec<usize>,
) -> (r: Vec<IdPair>)
    requires
        old(store).wf(),
        has_key(old(store)@.projects, project_id),
        is_selection(groups.len() as nat, places_view(order@)),
        old(store)@.next_id + order.len() <= i64::MAX,
        forall|q: Option<i64>| groups_dense_in(old(store)@.groups, project_id, q),
    ensures
        final(store).wf(),
        (final(store)@, r@) == groups_replayed(
            old(store)@,
            project_id,
            groups.deep_view(),
            places_view(order@),
            order.len() as nat,
        ),
        final(store)@.next_id == old(store)@.next_id + order.len(),
        forall|q: Option<i64>| groups_dense_in(final(store)@.groups, project_id, q),
        maps_to_groups(r@, final(store)@),
        final(store)@.projects == old(store)@.projects,
        final(store)@.docs == old(store)@.docs,
{
    let ghost v0 = store@;
    let ghost g = groups.deep_view();
    let ghost ov = places_view(order@);
    let mut map: Vec<IdPair> = Vec::new();
    let mut k: usize = 0;
    while k < order.len()
        invariant
            k <= order.len(),
            g == groups.deep_view(),
            ov == places_view(order@),
            is_selection(groups.len() as nat, ov),
            store.wf(),
            has_key(store@.projects, project_id),
            store@.projects == v0.projects,
            store@.docs == v0.docs,
            (store@, map@) == groups_replayed(v0, project_id, g, ov, k as nat),
            store@.next_id == v0.next_id + k,
            v0.next_id + order.len() <= i64::MAX,
            maps_to_groups(map@, store@),
            forall|q: Option<i64>| groups_dense_in(store@.groups, project_id, q),
        decreases order.len() - k,
    {
        assert(ov[k as int] == order[k as int]);
        let e = &groups[order[k]];
        let ghost w = store@;
        let ghost before = map@;
        let parent = match e.parent_id {
            Some(p) => lookup(&map, p),
            None => None,
        };
        proof {
            assert(parent == new_parent(before, g[ov[k as int]]));
            if parent is Some {
                lemma_new_id_of(before, e.parent_id->0);
            }
            let slots = group_slots(w.groups);
            assert(groups_dense_in(w.groups, project_id, parent));
            lemma_next_order_bound(slots, project_id, parent);
            lemma_set_len_bound(slots, project_id, parent);
            lemma_ascending_len(w.groups, w.next_id);
            assert(group_create_error(
                w,
                project_id,
                parent,
                next_order(slots, project_id, parent),
            ) is None);
        }
        match create_doc_group(store, project_id, e.name.as_str(), parent) {
            Ok(made) => {
                map.push(IdPair { old: e.id, new: made.id });
                proof {
                    assert(store@ == group_added(w, project_id, g[ov[k as int]].name, parent));
                    let now = store@.groups;
                    assert(now[now.len() - 1].key() == made.id);
                    assert forall|i: int| 0 <= i < map@.len() implies has_key(
                        store@.groups,
                        (#[trigger] map@[i]).new,
                    ) by {
                        if i < before.len() {
                            assert(map@[i] == before[i]);
                            assert(has_key(w.groups, before[i].new));
                            let j = choose|j: int|
                                0 <= j < w.groups.len() && (#[trigger] w.groups[j]).key()
                                    == before[i].new;
                            assert(now[j] == w.groups[j]);
                        }
                    }
                    assert(w.projects == store@.projects);
                }
            },
            Err(_) => {
                proof {
                    assert(false);
                }
            },
        }
        k += 1;
    }
    map
}

/// The key by which the documents of a manifest are put in the order
/// of their creation: the folder, unfiled documents first, then the sort
/// order, a missing one counting as 0.
pub open spec fn doc_seed_key(d: DocView) -> Seq<i64> {
    seq![
        match d.doc_group_id {
            Some(g) => g,
            None => -1i64,
        },
        match d.sort_order {
            Some(o) => o,
            None => 0i64,
        },
    ]
}

/// The keys of the documents of a manifest.
pub open spec fn doc_seed_keys(docs: Seq<DocView>) -> Seq<Seq<i64>> {
    Seq::new(docs.len(), |i: int| doc_seed_key(docs[i]))
}

/// The order in which the documents of a manifest are created anew:
/// folder by folder, and in each folder in their order.
pub fn doc_creation_order(docs: &Vec<Doc>) -> (r: Vec<usize>)
    ensures
        is_stable_order(doc_seed_keys(docs.deep_view()), places_view(r@)),
{
    let ghost dv = docs.deep_view();
    let mut keys: Vec<Vec<i64>> = Vec::new();
    let mut i: usize = 0;
    while i < docs.len()
        invariant
            i <= docs.len(),
            dv == docs.deep_view(),
            keys.len() == i,
            forall|j: int| 0 <= j < i ==> (#[trigger] keys[j])@ == doc_seed_key(dv[j]),
        decreases docs.len() - i,
    {
        let mut key: Vec<i64> = Vec::new();
        key.push(
            match docs[i].doc_group_id {
                Some(g) => g,
                None => -1,
            },
        );
        key.push(
            match docs[i].sort_order {
                Some(o) => o,
                None => 0,
            },
        );
        assert(key@ =~= doc_seed_key(dv[i as int]));
        keys.push(key);
        i += 1;
    }
    assert(keys_view(keys@) =~= doc_seed_keys(dv));
    stable_order(&keys)
}

/// The folder of a document created anew: the folder that took the
/// place of its old one, or none where no folder did.
pub open spec fn new_group(map: Seq<IdPair>, d: DocView) -> Option<i64> {
    match d.doc_group_id {
        Some(g) => new_id_of(map, g),
        None => None,
    }
}

/// The store after the document of a manifest was created anew as the
/// last document of `group`: with its name, or "Untitled" where it has
/// none, with its text, or an empty one, and with its notes.
pub open spec fn doc_added(v: StoreView, project_id: i64, d: DocView, group: Option<i64>) -> StoreView {
    StoreView {
        docs: v.docs.push(
            DocView {
                id: v.next_id,
                project_id,
                path: Seq::empty(),
                name: Some(
                    match d.name {
                        Some(n) => n,
                        None => "Untitled"@,
                    },
                ),
                timeline_id: None,
                text: Some(
                    match d.text {
                        Some(t) => t,
                        None => Seq::empty(),
                    },
                ),
                notes: d.notes,
                doc_group_id: group,
                sort_order: Some(next_order(doc_slots(v.docs), project_id, group) as i64),
            },
        ),
        next_id: (v.next_id + 1) as i64,
        ..v
    }
}

/// The store and the map of documents after the first `k` documents of
/// the order were created anew in the project.
pub open spec fn docs_replayed(
    v: StoreView,
    project_id: i64,
    docs: Seq<DocView>,
    order: Seq<int>,
    group_map: Seq<IdPair>,
    k: nat,
) -> (StoreView, Seq<IdPair>)
    decreases k,
{
    if k == 0 || k > order.len() {
        (v, Seq::empty())
    } else {
        let (w, map) = docs_replayed(v, project_id, docs, order, group_map, (k - 1) as nat);
        let e = docs[order[k - 1]];
        (
            doc_added(w, project_id, e, new_group(group_map, e)),
            map.push(IdPair { old: e.id, new: w.next_id }),
        )
    }
}

/// No document of the store belongs to a project that is yet to be
/// created, so every sibling set of such a project is dense.
pub proof fn lemma_new_project_docs_dense(docs: Seq<DocView>, next: i64, project_id: i64, q: Option<i64>)
    requires
        owners_below(docs, next),
        project_id >= next,
    ensures
        docs_dense_in(docs, project_id, q),
{
    let slots = doc_slots(docs);
    assert forall|i: int| 0 <= i < slots.len() implies !ranked(#[trigger] slots[i], project_id, q) by {
        assert(docs[i].owner() < next);
    }
    lemma_empty_dense(slots, project_id, q);
}

/// Creates one document of a manifest anew as the last document of
/// `group`, and returns its identifier.
pub fn add_doc(store: &mut Store, project_id: i64, d: &Doc, group: Option<i64>) -> (r: i64)
    requires
        old(store).wf(),
        has_key(old(store)@.projects, project_id),
        group matches Some(g) ==> has_key(old(store)@.groups, g),
        old(store)@.next_id < i64::MAX,
        docs_dense_in(old(store)@.docs, project_id, group),
    ensures
        final(store).wf(),
        final(store)@ == doc_added(old(store)@, project_id, d@, group),
        r == old(store)@.next_id,
        forall|p: i64, q: Option<i64>|
            docs_dense_in(old(store)@.docs, p, q) ==> #[trigger] docs_dense_in(
                final(store)@.docs,
                p,
                q,
            ),
{
    let ghost w = store@;
    proof {
        let slots = doc_slots(w.docs);
        lemma_next_order_bound(slots, project_id, group);
        lemma_set_len_bound(slots, project_id, group);
        lemma_ascending_len(w.docs, w.next_id);
        assert(doc_create_error(w, project_id, group, next_order(slots, project_id, group))
            is None);
    }
    let name = match &d.name {
        Some(n) => n.clone(),
        None => String::from_str("Untitled"),
    };
    let id = match create_doc(store, project_id, name.as_str(), group) {
        Ok(made) => made.id,
        Err(_) => {
            proof {
                assert(false);
            }
            0
        },
    };
    let ghost made = store@;
    proof {
        let last = made.docs.len() - 1;
        assert(made.docs[last].key() == id);
        lemma_place_of(made.docs, last);
    }
    match &d.text {
        Some(t) => {
            let _ = update_doc(store, id, t.as_str());
        },
        None => {},
    }
    let ghost texted = store@;
    proof {
        let last = texted.docs.len() - 1;
        assert(texted.docs[last].key() == id);
        lemma_place_of(texted.docs, last);
    }
    match &d.notes {
        Some(n) => {
            let _ = update_doc_notes(store, id, n.as_str());
        },
        None => {},
    }
    proof {
        let now = store@;
        let want = doc_added(w, project_id, d@, group);
        assert(now.docs =~= want.docs);
        assert(doc_slots(now.docs) =~= doc_slots(made.docs));
        assert forall|p: i64, q: Option<i64>| docs_dense_in(w.docs, p, q) implies #[trigger]
            docs_dense_in(now.docs, p, q) by {
            assert(docs_dense_in(made.docs, p, q));
        }
    }
    id
}

/// What holds of the map of documents while documents are created: the
/// new identifiers are those of documents of the store.
pub open spec fn maps_to_docs(map: Seq<IdPair>, v: StoreView) -> bool {
    forall|i: int| 0 <= i < map.len() ==> has_key(v.docs, (#[trigger] map[i]).new)
}

/// Creates the documents of the manifest anew in the project, in the
/// order given, each in the folder that took the place of its old one.
pub fn import_docs(
    store: &mut Store,
    project_id: i64,
    docs: &Vec<Doc>,
    order: &Vec<usize>,
    group_map: &Vec<IdPair>,
) -> (r: Vec<IdPair>)
    requires
        old(store).wf(),
        has_key(old(store)@.projects, project_id),
        forall|k: int| 0 <= k < order.len() ==> #[trigger] order[k] < docs.len(),
        old(store)@.next_id + order.len() <= i64::MAX,
        maps_to_groups(group_map@, old(store)@),
        forall|q: Option<i64>| docs_dense_in(old(store)@.docs, project_id, q),
    ensures
        final(store).wf(),
        (final(store)@, r@) == docs_replayed(
            old(store)@,
            project_id,
            docs.deep_view(),
            places_view(order@),
            group_map@,
            order.len() as nat,
        ),
        final(store)@.next_id == old(store)@.next_id + order.len(),
        final(store)@.groups == old(store)@.groups,
        final(store)@.projects == old(store)@.projects,
        maps_to_docs(r@, final(store)@),
        forall|q: Option<i64>| docs_dense_in(final(store)@.docs, project_id, q),
{
    let ghost v0 = store@;
    let ghost dv = docs.deep_view();
    let ghost ov = places_view(order@);
    let mut map: Vec<IdPair> = Vec::new();
    let mut k: usize = 0;
    while k < order.len()
        invariant
            k <= order.len(),
            dv == docs.deep_view(),
            ov == places_view(order@),
            forall|j: int| 0 <= j < order.len() ==> #[trigger] order[j] < docs.len(),
            store.wf(),
            has_key(store@.projects, project_id),
            store@.groups == v0.groups,
            store@.projects == v0.projects,
            (store@, map@) == docs_replayed(v0, project_id, dv, ov, group_map@, k as nat),
            store@.next_id == v0.next_id + k,
            v0.next_id + order.len() <= i64::MAX,
            maps_to_groups(group_map@, v0),
            maps_to_docs(map@, store@),
            forall|q: Option<i64>| docs_dense_in(store@.docs, project_id, q),
        decreases order.len() - k,
    {
        assert(ov[k as int] == order[k as int]);
        let e = &docs[order[k]];
        let ghost w = store@;
        let ghost before = map@;
        let group = match e.doc_group_id {
            Some(g) => lookup(group_map, g),
            None => None,
        };
        proof {
            assert(group == new_group(group_map@, dv[ov[k as int]]));
            if group is Some {
                lemma_new_id_of(group_map@, e.doc_group_id->0);
            }
            assert(docs_dense_in(w.docs, project_id, group));
        }
        let id = add_doc(store, project_id, e, group);
        map.push(IdPair { old: e.id, new: id });
        proof {
            let now = store@.docs;
            assert(now[now.len() - 1].key() == id);
            assert forall|i: int| 0 <= i < map@.len() implies has_key(
                store@.docs,
                (#[trigger] map@[i]).new,
            ) by {
                if i < before.len() {
                    assert(map@[i] == before[i]);
                    assert(has_key(w.docs, before[i].new));
                    let j = choose|j: int|
                        0 <= j < w.docs.len() && (#[trigger] w.docs[j]).key() == before[i].new;
                    assert(now[j] == w.docs[j]);
                }
            }
        }
        k += 1;
    }
    map
}

/// The number of names at the beginning of the list that hold more
/// than white space.
pub open spec fn clean_prefix(names: Seq<Seq<char>>) -> nat
    decreases names.len(),
{
    if names.len() == 0 {
        0
    } else {
        let c = clean_prefix(names.drop_last());
        if c == names.len() - 1 && !is_blank(names.last()) {
            names.len()
        } else {
            c
        }
    }
}

/// The clean beginning of a list ends before its first blank name.
pub proof fn lemma_clean_prefix(names: Seq<Seq<char>>, k: int)
    requires
        0 <= k <= names.len(),
        forall|i: int| 0 <= i < k ==> !is_blank(#[trigger] names[i]),
        k < names.len() ==> is_blank(names[k]),
    ensures
        clean_prefix(names) == k,
    decreases names.len(),
{
    if names.len() > 0 {
        let rest = names.drop_last();
        if k == names.len() {
            assert forall|i: int| 0 <= i < k - 1 implies !is_blank(#[trigger] rest[i]) by {
                assert(rest[i] == names[i]);
            }
            lemma_clean_prefix(rest, k - 1);
        } else {
            assert forall|i: int| 0 <= i < k implies !is_blank(#[trigger] rest[i]) by {
                assert(rest[i] == names[i]);
            }
            if k < rest.len() {
                assert(rest[k] == names[k]);
            }
            lemma_clean_prefix(rest, k);
        }
    }
}

/// The names of the characters.
pub open spec fn character_names(rows: Seq<CharacterView>) -> Seq<Seq<char>> {
    Seq::new(rows.len(), |i: int| rows[i].name)
}

/// The store after the character of a manifest was created anew.
pub open spec fn character_added(v: StoreView, project_id: i64, c: CharacterView) -> StoreView {
    StoreView {
        characters: v.characters.push(
            CharacterView { id: v.next_id, project_id, name: c.name, desc: c.desc },
        ),
        next_id: (v.next_id + 1) as i64,
        ..v
    }
}

/// The store and the map of characters after the first `k` characters
/// of the manifest were created anew in the project.
pub open spec fn characters_replayed(
    v: StoreView,
    project_id: i64,
    rows: Seq<CharacterView>,
    k: nat,
) -> (StoreView, Seq<IdPair>)
    decreases k,
{
    if k == 0 || k > rows.len() {
        (v, Seq::empty())
    } else {
        let (w, map) = characters_replayed(v, project_id, rows, (k - 1) as nat);
        let e = rows[k - 1];
        (character_added(w, project_id, e), map.push(IdPair { old: e.id, new: w.next_id }))
    }
}

/// Every new identifier of the map is below the counter.
pub open spec fn maps_below(map: Seq<IdPair>, next: i64) -> bool {
    forall|i: int| 0 <= i < map.len() ==> (#[trigger] map[i]).new < next
}

/// Creates the characters of the manifest anew in the project, in the
/// order of the manifest, up to the first whose name is blank.
///
/// Returns the map of those created, and whether all were.
pub fn import_characters(store: &mut Store, project_id: i64, rows: &Vec<Character>) -> (r: (
    Vec<IdPair>,
    bool,
))
    requires
        old(store).wf(),
        has_key(old(store)@.projects, project_id),
        old(store)@.next_id + rows.len() <= i64::MAX,
    ensures
        final(store).wf(),
        (final(store)@, r.0@) == characters_replayed(
            old(store)@,
            project_id,
            rows.deep_view(),
            clean_prefix(character_names(rows.deep_view())),
        ),
        r.1 == (clean_prefix(character_names(rows.deep_view())) == rows.len()),
        final(store)@.next_id == old(store)@.next_id + clean_prefix(
            character_names(rows.deep_view()),
        ),
        final(store)@.projects == old(store)@.projects,
        final(store)@.docs == old(store)@.docs,
        maps_below(r.0@, final(store)@.next_id),
{
    let ghost v0 = store@;
    let ghost rv = rows.deep_view();
    let ghost names = character_names(rv);
    let mut map: Vec<IdPair> = Vec::new();
    let mut k: usize = 0;
    let mut all = true;
    while all && k < rows.len()
        invariant
            k <= rows.len(),
            !all ==> k < rows.len() && is_blank(names[k as int]),
            rv == rows.deep_view(),
            names == character_names(rv),
            store.wf(),
            has_key(store@.projects, project_id),
            store@.projects == v0.projects,
            store@.docs == v0.docs,
            (store@, map@) == characters_replayed(v0, project_id, rv, k as nat),
            store@.next_id == v0.next_id + k,
            v0.next_id + rows.len() <= i64::MAX,
            forall|i: int| 0 <= i < k ==> !is_blank(#[trigger] names[i]),
            maps_below(map@, store@.next_id),
        decreases rows.len() - k + (if all {
            1int
        } else {
            0int
        }),
    {
        let e = &rows[k];
        let ghost w = store@;
        let ghost before = map@;
        assert(names[k as int] == rv[k as int].name);
        match crate::characters::create(store, project_id, e.name.as_str(), copy_opt_text(&e.desc)) {
            Ok(made) => {
                map.push(IdPair { old: e.id, new: made.id });
                proof {
                    assert(store@ == character_added(w, project_id, rv[k as int]));
                    assert forall|i: int| 0 <= i < map@.len() implies (#[trigger] map@[i]).new
                        < store@.next_id by {
                        if i < before.len() {
                            assert(map@[i] == before[i]);
                        }
                    }
                }
            },
            Err(_) => {
                proof {
                    assert(is_blank(names[k as int]));
                }
                all = false;
            },
        }
        if all {
            k += 1;
        }
    }
    proof {
        lemma_clean_prefix(names, k as int);
    }
    (map, all)
}

/// The names of the events.
pub open spec fn event_names(rows: Seq<EventView>) -> Seq<Seq<char>> {
    Seq::new(rows.len(), |i: int| rows[i].name)
}

/// The store after the event of a manifest was created anew.
pub open spec fn event_added(v: StoreView, project_id: i64, c: EventView) -> StoreView {
    StoreView {
        events: v.events.push(
            EventView {
                id: v.next_id,
                project_id,
                name: c.name,
                desc: c.desc,
                date: c.date,
                start_date: c.start_date,
                end_date: c.end_date,
            },
        ),
        next_id: (v.next_id + 1) as i64,
        ..v
    }
}

/// The store and the map of events after the first `k` events
/// of the manifest were created anew in the project.
pub open spec fn events_replayed(
    v: StoreView,
    project_id: i64,
    rows: Seq<EventView>,
    k: nat,
) -> (StoreView, Seq<IdPair>)
    decreases k,
{
    if k == 0 || k > rows.len() {
        (v, Seq::empty())
    } else {
        let (w, map) = events_replayed(v, project_id, rows, (k - 1) as nat);
        let e = rows[k - 1];
        (event_added(w, project_id, e), map.push(IdPair { old: e.id, new: w.next_id }))
    }
}

/// Creates the events of the manifest anew in the project, in the
/// order of the manifest, up to the first whose name is blank.
///
/// Returns the map of those created, and whether all were.
pub fn import_events(store: &mut Store, project_id: i64, rows: &Vec<Event>) -> (r: (
    Vec<IdPair>,
    bool,
))
    requires
        old(store).wf(),
        has_key(old(store)@.projects, project_id),
        old(store)@.next_id + rows.len() <= i64::MAX,
    ensures
        final(store).wf(),
        (final(store)@, r.0@) == events_replayed(
            old(store)@,
            project_id,
            rows.deep_view(),
            clean_prefix(event_names(rows.deep_view())),
        ),
        r.1 == (clean_prefix(event_names(rows.deep_view())) == rows.len()),
        final(store)@.next_id == old(store)@.next_id + clean_prefix(
            event_names(rows.deep_view()),
        ),
        final(store)@.projects == old(store)@.projects,
        final(store)@.docs == old(store)@.docs,
        maps_below(r.0@, final(store)@.next_id),
{
    let ghost v0 = store@;
    let ghost rv = rows.deep_view();
    let ghost names = event_names(rv);
    let mut map: Vec<IdPair> = Vec::new();
    let mut k: usize = 0;
    let mut all = true;
    while all && k < rows.len()
        invariant
            k <= rows.len(),
            !all ==> k < rows.len() && is_blank(names[k as int]),
            rv == rows.deep_view(),
            names == event_names(rv),
            store.wf(),
            has_key(store@.projects, project_id),
            store@.projects == v0.projects,
            store@.docs == v0.docs,
            (store@, map@) == events_replayed(v0, project_id, rv, k as nat),
            store@.next_id == v0.next_id + k,
            v0.next_id + rows.len() <= i64::MAX,
            forall|i: int| 0 <= i < k ==> !is_blank(#[trigger] names[i]),
            maps_below(map@, store@.next_id),
        decreases rows.len() - k + (if all {
            1int
        } else {
            0int
        }),
    {
        let e = &rows[k];
        let ghost w = store@;
        let ghost before = map@;
        assert(names[k as int] == rv[k as int].name);
        match crate::events::create(
            store,
            project_id,
            e.name.as_str(),
            copy_opt_text(&e.desc),
            copy_opt_text(&e.start_date),
            copy_opt_text(&e.end_date),
            copy_opt_text(&e.date),
        ) {
            Ok(made) => {
                map.push(IdPair { old: e.id, new: made.id });
                proof {
                    assert(store@ == event_added(w, project_id, rv[k as int]));
                    assert forall|i: int| 0 <= i < map@.len() implies (#[trigger] map@[i]).new
                        < store@.next_id by {
                        if i < before.len() {
                            assert(map@[i] == before[i]);
                        }
                    }
                }
            },
            Err(_) => {
                proof {
                    assert(is_blank(names[k as int]));
                }
                all = false;
            },
        }
        if all {
            k += 1;
        }
    }
    proof {
        lemma_clean_prefix(names, k as int);
    }
    (map, all)
}

/// The names of the places.
pub open spec fn place_names(rows: Seq<PlaceView>) -> Seq<Seq<char>> {
    Seq::new(rows.len(), |i: int| rows[i].name)
}

/// The store after the place of a manifest was created anew.
pub open spec fn place_added(v: StoreView, project_id: i64, c: PlaceView) -> StoreView {
    StoreView {
        places: v.places.push(
            PlaceView { id: v.next_id, project_id, name: c.name, desc: c.desc },
        ),
        next_id: (v.next_id + 1) as i64,
        ..v
    }
}

/// The store and the map of places after the first `k` places
/// of the manifest were created anew in the project.
pub open spec fn places_replayed(
    v: StoreView,
    project_id: i64,
    rows: Seq<PlaceView>,
    k: nat,
) -> (StoreView, Seq<IdPair>)
    decreases k,
{
    if k == 0 || k > rows.len() {
        (v, Seq::empty())
    } else {
        let (w, map) = places_replayed(v, project_id, rows, (k - 1) as nat);
        let e = rows[k - 1];
        (place_added(w, project_id, e), map.push(IdPair { old: e.id, new: w.next_id }))
    }
}

/// Creates the places of the manifest anew in the project, in the
/// order of the manifest, up to the first whose name is blank.
///
/// Returns the map of those created, and whether all were.
pub fn import_places(store: &mut Store, project_id: i64, rows: &Vec<Place>) -> (r: (
    Vec<IdPair>,
    bool,
))
    requires
        old(store).wf(),
        has_key(old(store)@.projects, project_id),
        old(store)@.next_id + rows.len() <= i64::MAX,
    ensures
        final(store).wf(),
        (final(store)@, r.0@) == places_replayed(
            old(store)@,
            project_id,
            rows.deep_view(),
            clean_prefix(place_names(rows.deep_view())),
        ),
        r.1 == (clean_prefix(place_names(rows.deep_view())) == rows.len()),
        final(store)@.next_id == old(store)@.next_id + clean_prefix(
            place_names(rows.deep_view()),
        ),
        final(store)@.projects == old(store)@.projects,
        final(store)@.docs == old(store)@.docs,
        maps_below(r.0@, final(store)@.next_id),
{
    let ghost v0 = store@;
    let ghost rv = rows.deep_view();
    let ghost names = place_names(rv);
    let mut map: Vec<IdPair> = Vec::new();
    let mut k: usize = 0;
    let mut all = true;
    while all && k < rows.len()
        invariant
            k <= rows.len(),
            !all ==> k < rows.len() && is_blank(names[k as int]),
            rv == rows.deep_view(),
            names == place_names(rv),
            store.wf(),
            has_key(store@.projects, project_id),
            store@.projects == v0.projects,
            store@.docs == v0.docs,
            (store@, map@) == places_replayed(v0, project_id, rv, k as nat),
            store@.next_id == v0.next_id + k,
            v0.next_id + rows.len() <= i64::MAX,
            forall|i: int| 0 <= i < k ==> !is_blank(#[trigger] names[i]),
            maps_below(map@, store@.next_id),
        decreases rows.len() - k + (if all {
            1int
        } else {
            0int
        }),
    {
        let e = &rows[k];
        let ghost w = store@;
        let ghost before = map@;
        assert(names[k as int] == rv[k as int].name);
        match crate::places::create(store, project_id, e.name.as_str(), copy_opt_text(&e.desc)) {
            Ok(made) => {
                map.push(IdPair { old: e.id, new: made.id });
                proof {
                    assert(store@ == place_added(w, project_id, rv[k as int]));
                    assert forall|i: int| 0 <= i < map@.len() implies (#[trigger] map@[i]).new
                        < store@.next_id by {
                        if i < before.len() {
                            assert(map@[i] == before[i]);
                        }
                    }
                }
            },
            Err(_) => {
                proof {
                    assert(is_blank(names[k as int]));
                }
                all = false;
            },
        }
        if all {
            k += 1;
        }
    }
    proof {
        lemma_clean_prefix(names, k as int);
    }
    (map, all)
}

/// The store after a draft of a manifest was created anew for the
/// document, stamped with the moment `now`.
pub open spec fn draft_added(v: StoreView, doc_id: i64, d: DraftView, now: Seq<char>) -> StoreView {
    StoreView {
        drafts: v.drafts.push(
            DraftView {
                id: v.next_id,
                doc_id,
                name: d.name,
                content: d.content,
                created_at: now,
                updated_at: now,
            },
        ),
        next_id: (v.next_id + 1) as i64,
        ..v
    }
}

/// The store after the first `k` drafts of the list were created anew
/// for the document.
pub open spec fn drafts_added(
    v: StoreView,
    doc_id: i64,
    drafts: Seq<DraftView>,
    now: Seq<char>,
    k: nat,
) -> StoreView
    decreases k,
{
    if k == 0 || k > drafts.len() {
        v
    } else {
        draft_added(drafts_added(v, doc_id, drafts, now, (k - 1) as nat), doc_id, drafts[k - 1], now)
    }
}

/// The store after the drafts of the first `k` entries were created
/// anew, each for the document that took the place of its old one;
/// entries of documents that have no new one are passed over.
pub open spec fn drafts_replayed(
    v: StoreView,
    entries: Seq<DocDraftsView>,
    doc_map: Seq<IdPair>,
    now: Seq<char>,
    k: nat,
) -> StoreView
    decreases k,
{
    if k == 0 || k > entries.len() {
        v
    } else {
        let w = drafts_replayed(v, entries, doc_map, now, (k - 1) as nat);
        let e = entries[k - 1];
        match new_id_of(doc_map, e.doc_id) {
            Some(doc_id) => drafts_added(w, doc_id, e.drafts, now, e.drafts.len()),
            None => w,
        }
    }
}

/// The number of drafts in the first `k` entries.
pub open spec fn draft_total(entries: Seq<DocDraftsView>, k: nat) -> nat
    decreases k,
{
    if k == 0 || k > entries.len() {
        0
    } else {
        draft_total(entries, (k - 1) as nat) + entries[k - 1].drafts.len()
    }
}

/// Creates the drafts of the manifest anew, stamped with the moment
/// `now`, each for the document that took the place of its old one.
pub fn import_drafts(
    store: &mut Store,
    entries: &Vec<DocDrafts>,
    doc_map: &Vec<IdPair>,
    now: &str,
)
    requires
        old(store).wf(),
        maps_to_docs(doc_map@, old(store)@),
        old(store)@.next_id + draft_total(entries.deep_view(), entries.len() as nat) <= i64::MAX,
    ensures
        final(store).wf(),
        final(store)@ == drafts_replayed(
            old(store)@,
            entries.deep_view(),
            doc_map@,
            now@,
            entries.len() as nat,
        ),
        final(store)@.next_id <= old(store)@.next_id + draft_total(
            entries.deep_view(),
            entries.len() as nat,
        ),
        final(store)@.next_id >= old(store)@.next_id,
        final(store)@.projects == old(store)@.projects,
        final(store)@.groups == old(store)@.groups,
        final(store)@.docs == old(store)@.docs,
{
    let ghost v0 = store@;
    let ghost ev = entries.deep_view();
    let mut k: usize = 0;
    while k < entries.len()
        invariant
            k <= entries.len(),
            ev == entries.deep_view(),
            store.wf(),
            store@ == drafts_replayed(v0, ev, doc_map@, now@, k as nat),
            v0.next_id <= store@.next_id <= v0.next_id + draft_total(ev, k as nat),
            v0.next_id + draft_total(ev, entries.len() as nat) <= i64::MAX,
            draft_total(ev, k as nat) <= draft_total(ev, entries.len() as nat),
            store@.projects == v0.projects,
            store@.groups == v0.groups,
            store@.docs == v0.docs,
            maps_to_docs(doc_map@, v0),
        decreases entries.len() - k,
    {
        let e = &entries[k];
        let ghost w = store@;
        proof {
            lemma_draft_total_grows(ev, (k + 1) as nat, entries.len() as nat);
        }
        match lookup(doc_map, e.doc_id) {
            Some(doc_id) => {
                proof {
                    lemma_new_id_of(doc_map@, e.doc_id);
                }
                let mut j: usize = 0;
                while j < e.drafts.len()
                    invariant
                        j <= e.drafts.len(),
                        store.wf(),
                        has_key(store@.docs, doc_id),
                        store@ == drafts_added(w, doc_id, e.drafts.deep_view(), now@, j as nat),
                        store@.next_id == w.next_id + j,
                        w.next_id + e.drafts.len() <= i64::MAX,
                        store@.projects == w.projects,
                        store@.groups == w.groups,
                        store@.docs == w.docs,
                    decreases e.drafts.len() - j,
                {
                    let d = &e.drafts[j];
                    let ghost x = store@;
                    let req = DraftCreate { name: d.name.clone(), content: d.content.clone() };
                    match create_draft_at(store, doc_id, req, String::from_str(now)) {
                        Ok(_) => {
                            assert(store@ == draft_added(
                                x,
                                doc_id,
                                e.drafts.deep_view()[j as int],
                                now@,
                            ));
                        },
                        Err(_) => {
                            proof {
                                assert(false);
                            }
                        },
                    }
                    j += 1;
                }
            },
            None => {},
        }
        k += 1;
    }
}

/// The number of drafts grows with the number of entries counted.
pub proof fn lemma_draft_total_grows(entries: Seq<DocDraftsView>, a: nat, b: nat)
    requires
        a <= b <= entries.len(),
    ensures
        draft_total(entries, a) <= draft_total(entries, b),
    decreases b - a,
{
    if a < b {
        lemma_draft_total_grows(entries, a, (b - 1) as nat);
    }
}

/// The relation after the first `j` items of the list were attached to
/// the owner, each as the item that took the place of the old one; items
/// that have no new one are passed over.
pub open spec fn items_linked(
    links: Seq<Link>,
    owner: i64,
    items: Seq<i64>,
    item_map: Seq<IdPair>,
    j: nat,
) -> Seq<Link>
    decreases j,
{
    if j == 0 || j > items.len() {
        links
    } else {
        let prev = items_linked(links, owner, items, item_map, (j - 1) as nat);
        match new_id_of(item_map, items[j - 1]) {
            Some(item) => with_link(prev, owner, item),
            None => prev,
        }
    }
}

/// The relation after the links of the first `k` entries were made
/// again between the new documents and the new items; entries of
/// documents that have no new one are passed over.
pub open spec fn links_replayed(
    links: Seq<Link>,
    entries: Seq<DocItemsView>,
    doc_map: Seq<IdPair>,
    item_map: Seq<IdPair>,
    k: nat,
) -> Seq<Link>
    decreases k,
{
    if k == 0 || k > entries.len() {
        links
    } else {
        let prev = links_replayed(links, entries, doc_map, item_map, (k - 1) as nat);
        let e = entries[k - 1];
        match new_id_of(doc_map, e.doc_id) {
            Some(owner) => items_linked(prev, owner, e.items, item_map, e.items.len()),
            None => prev,
        }
    }
}

/// Makes the links of the manifest again, between the documents and the
/// items that took the places of the old ones. A link of which one side
/// has no new identifier is passed over.
pub(crate) fn import_links(
    links: &mut Vec<Link>,
    entries: &Vec<DocItems>,
    doc_map: &Vec<IdPair>,
    item_map: &Vec<IdPair>,
    Ghost(next): Ghost<i64>,
)
    requires
        links_distinct(old(links)@),
        links_below(old(links)@, next),
        maps_below(doc_map@, next),
        maps_below(item_map@, next),
    ensures
        links_distinct(final(links)@),
        links_below(final(links)@, next),
        final(links)@ == links_replayed(
            old(links)@,
            entries.deep_view(),
            doc_map@,
            item_map@,
            entries.len() as nat,
        ),
{
    let ghost l0 = links@;
    let ghost ev = entries.deep_view();
    let mut k: usize = 0;
    while k < entries.len()
        invariant
            k <= entries.len(),
            ev == entries.deep_view(),
            links_distinct(links@),
            links_below(links@, next),
            maps_below(doc_map@, next),
            maps_below(item_map@, next),
            links@ == links_replayed(l0, ev, doc_map@, item_map@, k as nat),
        decreases entries.len() - k,
    {
        let e = &entries[k];
        let ghost w = links@;
        match lookup(doc_map, e.doc_id) {
            Some(owner) => {
                proof {
                    lemma_new_id_of(doc_map@, e.doc_id);
                }
                let mut j: usize = 0;
                while j < e.items.len()
                    invariant
                        j <= e.items.len(),
                        owner < next,
                        links_distinct(links@),
                        links_below(links@, next),
                        maps_below(item_map@, next),
                        links@ == items_linked(w, owner, e.items@, item_map@, j as nat),
                    decreases e.items.len() - j,
                {
                    match lookup(item_map, e.items[j]) {
                        Some(item) => {
                            proof {
                                lemma_new_id_of(item_map@, e.items[j as int]);
                            }
                            attach(links, owner, item);
                        },
                        None => {},
                    }
                    j += 1;
                }
            },
            None => {},
        }
        k += 1;
    }
}

/// The store after the timelines of the first `k` entries were set
/// again, each for the document that took the place of its old one.
/// Entries without a timeline, and entries of documents that have no
/// new one, are passed over.
pub open spec fn timelines_replayed(
    v: StoreView,
    entries: Seq<DocTimelineView>,
    doc_map: Seq<IdPair>,
    k: nat,
) -> StoreView
    decreases k,
{
    if k == 0 || k > entries.len() {
        v
    } else {
        let w = timelines_replayed(v, entries, doc_map, (k - 1) as nat);
        let e = entries[k - 1];
        match (new_id_of(doc_map, e.doc_id), e.timeline) {
            (Some(doc_id), Some(t)) => timeline_set(w, "doc"@, doc_id, t.start_date, t.end_date),
            _ => w,
        }
    }
}

/// Sets the timelines of the documents of the manifest again, each for
/// the document that took the place of its old one.
pub fn import_timelines(store: &mut Store, entries: &Vec<DocTimeline>, doc_map: &Vec<IdPair>)
    requires
        old(store).wf(),
        old(store)@.next_id + entries.len() <= i64::MAX,
    ensures
        final(store).wf(),
        final(store)@ == timelines_replayed(
            old(store)@,
            entries.deep_view(),
            doc_map@,
            entries.len() as nat,
        ),
        final(store)@.projects == old(store)@.projects,
{
    let ghost v0 = store@;
    let ghost ev = entries.deep_view();
    let mut k: usize = 0;
    while k < entries.len()
        invariant
            k <= entries.len(),
            ev == entries.deep_view(),
            store.wf(),
            store@.projects == v0.projects,
            store@ == timelines_replayed(v0, ev, doc_map@, k as nat),
            store@.next_id <= v0.next_id + k,
            v0.next_id + entries.len() <= i64::MAX,
        decreases entries.len() - k,
    {
        let e = &entries[k];
        let ghost w = store@;
        match lookup(doc_map, e.doc_id) {
            Some(doc_id) => {
                match &e.timeline {
                    Some(t) => {
                        let payload = TimelineCreate {
                            entity_type: String::from_str("doc"),
                            entity_id: doc_id,
                            start_date: copy_opt_text(&t.start_date),
                            end_date: copy_opt_text(&t.end_date),
                        };
                        match crate::timelines::create(store, payload) {
                            Ok(_) => {},
                            Err(_) => {
                                proof {
                                    assert(false);
                                }
                            },
                        }
                    },
                    None => {},
                }
            },
            None => {},
        }
        k += 1;
    }
}

/// How a folder on disk is imported.
#[derive(Clone, Copy, Debug, PartialEq, Eq, Structural)]
pub enum Strategy {
    /// From its manifest, faithfully.
    Manifest,
    /// From its directories and text files, as far as they tell.
    Legacy,
}

/// The manifest carries the signature of this application.
pub open spec fn is_trusted(m: ManifestView) -> bool {
    m.meta matches Some(h) && h.app == Some(app_signature())
}

/// Whether the manifest carries the signature of this application.
pub fn trusts(m: &Manifest) -> (r: bool)
    ensures
        r == is_trusted(m@),
{
    match &m.meta {
        Some(h) => match &h.app {
            Some(app) => crate::text::text_eq(app.as_str(), "cora"),
            None => false,
        },
        None => false,
    }
}

/// Chooses how a folder is imported: from its manifest where it has one
/// that could be read and that carries the signature of this
/// application, else from its directories and files. `manifest` is
/// `None` where the folder holds no manifest or the manifest could not
/// be read.
pub fn choose_strategy(manifest: &Option<Manifest>) -> (r: Strategy)
    ensures
        r == (match *manifest {
            Some(m) => if is_trusted(m@) {
                Strategy::Manifest
            } else {
                Strategy::Legacy
            },
            None => Strategy::Legacy,
        }),
{
    match manifest {
        Some(m) => if trusts(m) {
            Strategy::Manifest
        } else {
            Strategy::Legacy
        },
        None => Strategy::Legacy,
    }
}

/// The number of rows that an import may create at most.
pub open spec fn import_size(m: ManifestView) -> nat {
    2 + m.groups.len() + m.docs.len() + draft_total(m.drafts_by_doc, m.drafts_by_doc.len())
        + m.characters.len() + m.events.len() + m.places.len() + m.doc_timelines.len()
}

/// The store has room for an import of the manifest.
pub open spec fn has_import_room(v: StoreView, m: ManifestView) -> bool {
    v.next_id + import_size(m) <= i64::MAX
}

/// Takes `n` from what is left, where that much is left.
fn take_room(left: &mut u64, n: usize) -> (r: bool)
    ensures
        r == (n <= *old(left)),
        r ==> *final(left) == *old(left) - n,
        !r ==> *final(left) == *old(left),
{
    if n as u64 <= *left {
        *left = *left - n as u64;
        true
    } else {
        false
    }
}

/// Whether the store has room for an import of the manifest.
pub fn check_import_room(store: &Store, m: &Manifest) -> (r: bool)
    requires
        store.wf(),
    ensures
        r == has_import_room(store@, m@),
{
    let mut left: u64 = (i64::MAX - store.next_id) as u64;
    let ghost start = left;
    let ghost ev = m.drafts_by_doc.deep_view();
    if !take_room(&mut left, 2) || !take_room(&mut left, m.groups.len()) || !take_room(
        &mut left,
        m.docs.len(),
    ) || !take_room(&mut left, m.characters.len()) || !take_room(&mut left, m.events.len())
        || !take_room(&mut left, m.places.len()) || !take_room(&mut left, m.doc_timelines.len()) {
        return false;
    }
    let ghost fixed = 2 + m.groups.len() + m.docs.len() + m.characters.len() + m.events.len()
        + m.places.len() + m.doc_timelines.len();
    let mut k: usize = 0;
    let mut fits = true;
    while fits && k < m.drafts_by_doc.len()
        invariant
            k <= m.drafts_by_doc.len(),
            ev == m.drafts_by_doc.deep_view(),
            fits ==> left + fixed + draft_total(ev, k as nat) == start,
            !fits ==> fixed + draft_total(ev, m.drafts_by_doc.len() as nat) > start,
            fixed <= start,
        decreases m.drafts_by_doc.len() - k + (if fits {
            1int
        } else {
            0int
        }),
    {
        proof {
            assert(ev[k as int].drafts.len() == m.drafts_by_doc[k as int].drafts.len());
            lemma_draft_total_grows(ev, (k + 1) as nat, m.drafts_by_doc.len() as nat);
        }
        if take_room(&mut left, m.drafts_by_doc[k].drafts.len()) {
            k += 1;
        } else {
            fits = false;
        }
    }
    fits
}

/// The store after the project of a manifest was created anew, with the
/// folder it was read from as its path.
pub open spec fn project_added(v: StoreView, p: ProjectView, path: Seq<char>) -> StoreView {
    StoreView {
        projects: v.projects.push(
            ProjectView {
                id: v.next_id,
                name: p.name,
                desc: p.desc,
                path: Some(path),
                notes: p.notes,
                timeline_start: None,
                timeline_end: None,
            },
        ),
        next_id: (v.next_id + 1) as i64,
        ..v
    }
}

/// What an import made: the new project, the order in which the folders
/// and the documents of the manifest were created (by their places in
/// the manifest), and for each kind of row the old identifiers with the
/// new ones that took their places.
#[derive(Debug)]
pub struct Imported {
    pub project: Project,
    pub group_order: Vec<usize>,
    pub doc_order: Vec<usize>,
    pub groups: Vec<IdPair>,
    pub docs: Vec<IdPair>,
    pub characters: Vec<IdPair>,
    pub events: Vec<IdPair>,
    pub places: Vec<IdPair>,
}

/// An import as mathematics: the store that it leaves, the maps that it
/// builds, and whether it ran to its end.
pub struct ImportView {
    pub v: StoreView,
    pub groups: Seq<IdPair>,
    pub docs: Seq<IdPair>,
    pub characters: Seq<IdPair>,
    pub events: Seq<IdPair>,
    pub places: Seq<IdPair>,
    pub complete: bool,
}

/// The import of a manifest into a store, step by step: the project;
/// the folders in the order `group_order`; the documents in the order
/// `doc_order`, each with its text and notes; the drafts; the
/// characters, the events and the places; the links between documents
/// and those; the timelines.
///
/// The import stops, and leaves what it made, at the first character,
/// event or place whose name is blank.
pub open spec fn imported(
    v: StoreView,
    m: ManifestView,
    path: Seq<char>,
    now: Seq<char>,
    group_order: Seq<int>,
    doc_order: Seq<int>,
) -> ImportView {
    let pid = v.next_id;
    let v1 = project_added(v, m.project, path);
    let (v2, gm) = groups_replayed(v1, pid, m.groups, group_order, group_order.len());
    let (v3, dm) = docs_replayed(v2, pid, m.docs, doc_order, gm, doc_order.len());
    let v4 = drafts_replayed(v3, m.drafts_by_doc, dm, now, m.drafts_by_doc.len());
    let kc = clean_prefix(character_names(m.characters));
    let (v5, cm) = characters_replayed(v4, pid, m.characters, kc);
    if kc < m.characters.len() {
        ImportView {
            v: v5,
            groups: gm,
            docs: dm,
            characters: cm,
            events: Seq::empty(),
            places: Seq::empty(),
            complete: false,
        }
    } else {
        let ke = clean_prefix(event_names(m.events));
        let (v6, em) = events_replayed(v5, pid, m.events, ke);
        if ke < m.events.len() {
            ImportView {
                v: v6,
                groups: gm,
                docs: dm,
                characters: cm,
                events: em,
                places: Seq::empty(),
                complete: false,
            }
        } else {
            let kp = clean_prefix(place_names(m.places));
            let (v7, pm) = places_replayed(v6, pid, m.places, kp);
            if kp < m.places.len() {
                ImportView {
                    v: v7,
                    groups: gm,
                    docs: dm,
                    characters: cm,
                    events: em,
                    places: pm,
                    complete: false,
                }
            } else {
                let v8 = StoreView {
                    doc_characters: links_replayed(
                        v7.doc_characters,
                        m.doc_characters,
                        dm,
                        cm,
                        m.doc_characters.len(),
                    ),
                    doc_events: links_replayed(
                        v7.doc_events,
                        m.doc_events,
                        dm,
                        em,
                        m.doc_events.len(),
                    ),
                    doc_places: links_replayed(
                        v7.doc_places,
                        m.doc_places,
                        dm,
                        pm,
                        m.doc_places.len(),
                    ),
                    ..v7
                };
                let v9 = match m.project_timeline {
                    Some(t) => timeline_set(v8, "project"@, pid, t.start_date, t.end_date),
                    None => v8,
                };
                let v10 = timelines_replayed(v9, m.doc_timelines, dm, m.doc_timelines.len());
                ImportView {
                    v: v10,
                    groups: gm,
                    docs: dm,
                    characters: cm,
                    events: em,
                    places: pm,
                    complete: true,
                }
            }
        }
    }
}

/// The orders are those in which an import creates the folders and the
/// documents of the manifest.
pub open spec fn are_import_orders(m: ManifestView, group_order: Seq<int>, doc_order: Seq<int>) -> bool {
    is_creation_order(m.groups, group_order) && is_stable_order(doc_seed_keys(m.docs), doc_order)
}

/// The report tells of the import.
pub open spec fn reports(rep: Imported, out: ImportView, pid: i64) -> bool {
    &&& has_key(out.v.projects, pid)
    &&& rep.project@ == out.v.projects[place_of(out.v.projects, pid)]
    &&& rep.project.id == pid
    &&& rep.groups@ == out.groups
    &&& rep.docs@ == out.docs
    &&& rep.characters@ == out.characters
    &&& rep.events@ == out.events
    &&& rep.places@ == out.places
}

/// What an import returns and leaves. With room in the store, it
/// leaves what [`imported`] says, for the orders in which it created the
/// folders and the documents; it succeeds, and reports what it made,
/// where it ran to its end, and fails with `EmptyName` where it stopped.
/// Without room it fails with `Exhausted` and leaves the store as it was.
pub open spec fn is_import_of(
    before: StoreView,
    m: ManifestView,
    path: Seq<char>,
    now: Seq<char>,
    r: Result<Imported, StoreError>,
    after: StoreView,
) -> bool {
    match r {
        Ok(rep) => {
            let out = imported(
                before,
                m,
                path,
                now,
                places_view(rep.group_order@),
                places_view(rep.doc_order@),
            );
            &&& has_import_room(before, m)
            &&& are_import_orders(m, places_view(rep.group_order@), places_view(rep.doc_order@))
            &&& out.complete
            &&& after == out.v
            &&& reports(rep, out, before.next_id)
        },
        Err(e) => if has_import_room(before, m) {
            &&& e == StoreError::EmptyName
            &&& exists|group_order: Seq<int>, doc_order: Seq<int>|
                {
                    &&& are_import_orders(m, group_order, doc_order)
                    &&& !(#[trigger] imported(
                        before,
                        m,
                        path,
                        now,
                        group_order,
                        doc_order,
                    )).complete
                    &&& after == imported(before, m, path, now, group_order, doc_order).v
                }
        } else {
            e == StoreError::Exhausted && after == before
        },
    }
}

/// Rebuilds the project of the manifest in the store, as a new project
/// whose path is `folder_path`. The drafts are stamped with the moment
/// `now`.
///
/// Fails, and changes nothing, where the store has no room for the rows
/// of the manifest. Fails at the first character, event or place whose
/// name is blank, and leaves what was made until then.
pub fn import_manifest_at(store: &mut Store, m: &Manifest, folder_path: &str, now: &str) -> (r: Result<
    Imported,
    StoreError,
>)
    requires
        old(store).wf(),
    ensures
        final(store).wf(),
        is_import_of(old(store)@, m@, folder_path@, now@, r, final(store)@),
{
    if !check_import_room(store, m) {
        return Err(StoreError::Exhausted);
    }
    let ghost v0 = store@;
    let ghost mv = m@;
    let group_order = creation_order(&m.groups);
    let doc_order = doc_creation_order(&m.docs);
    let ghost go = places_view(group_order@);
    let ghost dord = places_view(doc_order@);
    let ghost out = imported(v0, mv, folder_path@, now@, go, dord);
    proof {
        lemma_selection_fits(m.groups.len() as nat, go);
        lemma_draft_total_grows(mv.drafts_by_doc, 0, mv.drafts_by_doc.len());
    }
    let payload = ProjectCreate {
        name: m.project.name.clone(),
        desc: copy_opt_text(&m.project.desc),
        path: Some(String::from_str(folder_path)),
        notes: copy_opt_text(&m.project.notes),
    };
    let project = match crate::projects::create(store, payload) {
        Ok(p) => p,
        Err(e) => {
            proof {
                assert(false);
            }
            return Err(e);
        },
    };
    let pid = project.id;
    let ghost v1 = store@;
    proof {
        assert(v1 == project_added(v0, mv.project, folder_path@));
        let last = v1.projects.len() - 1;
        assert(v1.projects[last].key() == pid);
        lemma_place_of(v1.projects, last);
        assert forall|q: Option<i64>| groups_dense_in(v1.groups, pid, q) by {
            lemma_new_project_dense(v0.groups, v0.next_id, pid, q);
        }
        assert forall|q: Option<i64>| docs_dense_in(v1.docs, pid, q) by {
            lemma_new_project_docs_dense(v0.docs, v0.next_id, pid, q);
        }
    }
    let groups = import_groups(store, pid, &m.groups, &group_order);
    let ghost v2 = store@;
    proof {
        assert forall|k: int| 0 <= k < doc_order.len() implies #[trigger] doc_order[k]
            < m.docs.len() by {
            assert(dord[k] == doc_order[k]);
        }
    }
    let docs = import_docs(store, pid, &m.docs, &doc_order, &groups);
    import_drafts(store, &m.drafts_by_doc, &docs, now);
    let ghost v4 = store@;
    proof {
        assert forall|i: int| 0 <= i < docs@.len() implies (#[trigger] docs@[i]).new
            < v4.next_id by {
            assert(has_key(v4.docs, docs@[i].new));
            let j = choose|j: int|
                0 <= j < v4.docs.len() && (#[trigger] v4.docs[j]).key() == docs@[i].new;
            assert(v4.docs[j].key() < v4.next_id);
        }
    }
    let (characters, chars_done) = import_characters(store, pid, &m.characters);
    if !chars_done {
        assert(!out.complete);
        assert(store@ == out.v);
        assert(are_import_orders(mv, go, dord));
        return Err(StoreError::EmptyName);
    }
    let (events, events_done) = import_events(store, pid, &m.events);
    if !events_done {
        assert(!out.complete);
        assert(store@ == out.v);
        assert(are_import_orders(mv, go, dord));
        return Err(StoreError::EmptyName);
    }
    let (places, places_done) = import_places(store, pid, &m.places);
    if !places_done {
        assert(!out.complete);
        assert(store@ == out.v);
        assert(are_import_orders(mv, go, dord));
        return Err(StoreError::EmptyName);
    }
    let ghost v7 = store@;
    let ghost next = v7.next_id;
    proof {
        assert(maps_below(docs@, next)) by {
            assert forall|i: int| 0 <= i < docs@.len() implies (#[trigger] docs@[i]).new
                < next by {
                assert(docs@[i].new < v4.next_id);
            }
        }
        assert(maps_below(characters@, next)) by {
            assert forall|i: int| 0 <= i < characters@.len() implies (
            #[trigger] characters@[i]).new < next by {}
        }
        assert(maps_below(events@, next)) by {
            assert forall|i: int| 0 <= i < events@.len() implies (#[trigger] events@[i]).new
                < next by {}
        }
    }
    import_links(&mut store.doc_characters, &m.doc_characters, &docs, &characters, Ghost(next));
    import_links(&mut store.doc_events, &m.doc_events, &docs, &events, Ghost(next));
    import_links(&mut store.doc_places, &m.doc_places, &docs, &places, Ghost(next));
    let ghost v8 = store@;
    match &m.project_timeline {
        Some(t) => {
            let payload = TimelineCreate {
                entity_type: String::from_str("project"),
                entity_id: pid,
                start_date: copy_opt_text(&t.start_date),
                end_date: copy_opt_text(&t.end_date),
            };
            match crate::timelines::create(store, payload) {
                Ok(_) => {},
                Err(_) => {
                    proof {
                        assert(false);
                    }
                },
            }
        },
        None => {},
    }
    import_timelines(store, &m.doc_timelines, &docs);
    proof {
        assert(store@ == out.v);
        assert(out.complete);
        assert(store@.projects == v1.projects);
    }
    Ok(
        Imported {
            project,
            group_order,
            doc_order,
            groups,
            docs,
            characters,
            events,
            places,
        },
    )
}

/// Rebuilds the project of the manifest in the store, as a new project
/// whose path is `folder_path`. The drafts are stamped with the present
/// moment: whatever the clock says, the import is that of the manifest
/// at some moment.
pub fn import_manifest(store: &mut Store, m: &Manifest, folder_path: &str) -> (r: Result<
    Imported,
    StoreError,
>)
    requires
        old(store).wf(),
    ensures
        final(store).wf(),
        exists|now: Seq<char>|
            #[trigger] is_import_of(old(store)@, m@, folder_path@, now, r, final(store)@),
{
    let now = timestamp_now();
    let r = import_manifest_at(store, m, folder_path, now.as_str());
    assert(is_import_of(old(store)@, m@, folder_path@, now@, r, store@));
    r
}

} // verus!
