//! The round trip: a project that is exported and imported again comes
//! back as it was, but for its identifiers.
//!
//! The import creates rows one by one, and each creation gives the new
//! row the place behind its siblings. This module shows that the places
//! so given are the places that the rows had: the rows come back in
//! closed form, as mirror images of the rows of the manifest.

use vstd::prelude::*;
use crate::characters::{character_in, character_key};
use crate::doc_groups::{group_in, group_key, group_slot, group_slots, groups_dense_in};
use crate::docs::{doc_in, doc_key, doc_slot, doc_slots, docs_dense_in};
use crate::events::event_in;
use crate::laws::lemma_dense_is_exact;
use crate::places::{place_in, place_key};
use crate::sorting::is_listing;
use crate::store::{growing, Keyed, Owned};
use crate::tables::{lemma_kept_places, kept_places, owned_key};
use crate::import::{
    character_added, character_names, characters_replayed, doc_added, doc_seed_key,
    doc_seed_keys, docs_replayed, draft_total, drafts_added, drafts_replayed, event_added,
    event_names, events_replayed, group_added, groups_replayed, items_linked, lemma_clean_prefix,
    lemma_new_id_of, links_replayed, new_group, new_id_of, new_parent, place_added, place_names,
    places_replayed, timelines_replayed, IdPair,
};
use crate::import::{are_import_orders, has_import_room, imported, project_added, ImportView};
use crate::links::with_link;
use crate::manifest::{is_manifest_of, lists_links, ManifestView};
use crate::sorting::lemma_selection_fits;
use crate::manifest::{DocDraftsView, DocItemsView, DocTimelineView};
use crate::store::{linked, Link};
use crate::text::is_blank;
use crate::timelines::timeline_set;
use crate::import_plan::{comes_first, is_creation_order, is_selection};
use crate::models::{CharacterView, DocGroupView, DocView, EventView, PlaceView, ProjectView};
use crate::sorting::{is_reading, is_stable_order, key_le, lemma_reading_onto};
use crate::order::{lemma_top_order, next_order, ranked, top_order};
use crate::store::{owners_below, StoreView};

verus! {

/// The folders of a manifest fit together: their identifiers are
/// positive and differ, every parent is a folder of the manifest that
/// was created before its child, and the children of one parent stand at
/// the places 0, 1, 2, .. without gap or double.
pub open spec fn tidy_groups(g: Seq<DocGroupView>) -> bool {
    &&& forall|i: int| 0 <= i < g.len() ==> 0 < (#[trigger] g[i]).id
    &&& forall|i: int, j: int|
        0 <= i < g.len() && 0 <= j < g.len() && i != j ==> (#[trigger] g[i]).id != (
        #[trigger] g[j]).id
    &&& forall|i: int|
        0 <= i < g.len() ==> ((#[trigger] g[i]).parent_id matches Some(p) ==> p < g[i].id
            && has_id(g, p))
    &&& forall|i: int|
        0 <= i < g.len() ==> (#[trigger] g[i]).sort_order is Some && g[i].sort_order->0 >= 0
    &&& forall|i: int, j: int|
        0 <= i < g.len() && 0 <= j < g.len() && i != j && (#[trigger] g[i]).parent_id == (
        #[trigger] g[j]).parent_id ==> g[i].sort_order != g[j].sort_order
    &&& forall|i: int|
        0 <= i < g.len() && (#[trigger] g[i]).sort_order->0 > 0 ==> has_sibling_at(
            g,
            g[i].parent_id,
            (g[i].sort_order->0 - 1) as i64,
        )
}

/// A folder of the manifest carries the identifier.
pub open spec fn has_id(g: Seq<DocGroupView>, id: i64) -> bool {
    exists|j: int| 0 <= j < g.len() && (#[trigger] g[j]).id == id
}

/// The place, in the manifest, of the folder that carries the
/// identifier.
pub open spec fn entry_of(g: Seq<DocGroupView>, id: i64) -> int {
    choose|j: int| 0 <= j < g.len() && (#[trigger] g[j]).id == id
}

/// A child of `parent` stands at the place `order`.
pub open spec fn has_sibling_at(g: Seq<DocGroupView>, parent: Option<i64>, order: i64) -> bool {
    exists|j: int|
        0 <= j < g.len() && (#[trigger] g[j]).parent_id == parent && g[j].sort_order == Some(order)
}

/// The order names the place `i` of the manifest.
pub open spec fn is_created(go: Seq<int>, i: int) -> bool {
    exists|k: int| 0 <= k < go.len() && #[trigger] go[k] == i
}

/// The turn at which the folder at place `i` of the manifest is
/// created.
pub open spec fn turn_of(go: Seq<int>, i: int) -> int {
    choose|k: int| 0 <= k < go.len() && #[trigger] go[k] == i
}

/// Every folder of a tidy manifest is created: each hangs, through its
/// parents, on a top-level folder.
pub proof fn lemma_all_created(g: Seq<DocGroupView>, go: Seq<int>, i: int)
    requires
        tidy_groups(g),
        is_creation_order(g, go),
        0 <= i < g.len(),
    ensures
        is_created(go, i),
    decreases g[i].id,
{
    if g[i].parent_id is Some {
        let p = g[i].parent_id->0;
        assert(has_id(g, p));
        let j = entry_of(g, p);
        lemma_all_created(g, go, j);
        let k = turn_of(go, j);
        assert(go[k] == j);
        assert(g[i].parent_id == Some(g[go[k]].id));
        assert(go.contains(i));
        let w = choose|w: int| 0 <= w < go.len() && go[w] == i;
        assert(go[w] == i);
    } else {
        assert(go.contains(i));
        let w = choose|w: int| 0 <= w < go.len() && go[w] == i;
        assert(go[w] == i);
    }
}

/// The pairs of old and new identifiers after `k` folders were created,
/// the new identifiers counting up from `base`.
pub open spec fn group_pairs(g: Seq<DocGroupView>, go: Seq<int>, base: i64, k: nat) -> Seq<IdPair> {
    Seq::new(k, |j: int| IdPair { old: g[go[j]].id, new: (base + j) as i64 })
}

/// In the pairs of a tidy manifest, the folder created at turn `l` is
/// found by its old identifier.
pub proof fn lemma_pair_found(g: Seq<DocGroupView>, go: Seq<int>, base: i64, k: nat, l: int)
    requires
        tidy_groups(g),
        is_selection(g.len(), go),
        0 <= l < k <= go.len(),
    ensures
        new_id_of(group_pairs(g, go, base, k), g[go[l]].id) == Some((base + l) as i64),
    decreases k,
{
    let pairs = group_pairs(g, go, base, k);
    let last = k - 1;
    assert(pairs.last() == pairs[last]);
    if l == last {
    } else {
        assert(go[l] != go[last]);
        assert(g[go[l]].id != g[go[last]].id);
        assert(pairs.drop_last() =~= group_pairs(g, go, base, (k - 1) as nat));
        lemma_pair_found(g, go, base, (k - 1) as nat, l);
    }
}

/// The parent of the mirror image of a folder: the mirror image of its
/// parent.
pub open spec fn mirrored_parent(g: Seq<DocGroupView>, go: Seq<int>, base: i64, e: DocGroupView) -> Option<
    i64,
> {
    match e.parent_id {
        Some(p) => Some((base + turn_of(go, entry_of(g, p))) as i64),
        None => None,
    }
}

/// The mirror image of the folder created at turn `k`: the folder with
/// its name and its place, in the new project, below the mirror image of
/// its parent, and without notes.
pub open spec fn mirrored_group(
    g: Seq<DocGroupView>,
    go: Seq<int>,
    base: i64,
    project_id: i64,
    k: int,
) -> DocGroupView {
    let e = g[go[k]];
    DocGroupView {
        id: (base + k) as i64,
        project_id,
        name: e.name,
        parent_id: mirrored_parent(g, go, base, e),
        sort_order: e.sort_order,
        notes: None,
    }
}

/// The mirror images of the first `k` folders created.
pub open spec fn mirrored_groups(
    g: Seq<DocGroupView>,
    go: Seq<int>,
    base: i64,
    project_id: i64,
    k: nat,
) -> Seq<DocGroupView> {
    Seq::new(k, |j: int| mirrored_group(g, go, base, project_id, j))
}

/// What the turn of a folder and the turn of its parent have to do with
/// each other: the parent of the folder created at turn `k` is created
/// at an earlier turn, and that turn is the one that `mirrored_parent`
/// speaks of.
pub proof fn lemma_parent_turn(g: Seq<DocGroupView>, go: Seq<int>, k: int)
    requires
        tidy_groups(g),
        is_creation_order(g, go),
        0 <= k < go.len(),
        g[go[k]].parent_id is Some,
    ensures
        0 <= turn_of(go, entry_of(g, g[go[k]].parent_id->0)) < k,
        g[go[turn_of(go, entry_of(g, g[go[k]].parent_id->0))]].id == g[go[k]].parent_id->0,
{
    let p = g[go[k]].parent_id->0;
    let l = choose|l: int| 0 <= l < k && (#[trigger] g[go[l]]).id == p;
    assert(has_id(g, p));
    let j = entry_of(g, p);
    assert(g[j].id == p);
    if go[l] != j {
        assert(g[go[l]].id != g[j].id);
    }
    assert(go[l] == j);
    let t = turn_of(go, j);
    assert(go[t] == j);
    if t != l {
        if t < l {
            assert(go[t] != go[l]);
        } else {
            assert(go[l] != go[t]);
        }
    }
}

/// Two folders have mirror images with one parent exactly when they
/// have one parent themselves.
pub proof fn lemma_parents_correspond(g: Seq<DocGroupView>, go: Seq<int>, base: i64, j: int, k: int)
    requires
        tidy_groups(g),
        is_creation_order(g, go),
        0 <= j < go.len(),
        0 <= k < go.len(),
        base + go.len() <= i64::MAX,
        0 <= base,
    ensures
        (mirrored_parent(g, go, base, g[go[j]]) == mirrored_parent(g, go, base, g[go[k]])) == (
        g[go[j]].parent_id == g[go[k]].parent_id),
{
    if g[go[j]].parent_id is Some && g[go[k]].parent_id is Some {
        lemma_parent_turn(g, go, j);
        lemma_parent_turn(g, go, k);
    }
}

/// Of two children of one parent, the one created first stands at the
/// lower place.
pub proof fn lemma_earlier_is_lower(g: Seq<DocGroupView>, go: Seq<int>, j: int, k: int)
    requires
        tidy_groups(g),
        is_creation_order(g, go),
        0 <= j < k < go.len(),
        g[go[j]].parent_id == g[go[k]].parent_id,
    ensures
        g[go[j]].sort_order->0 < g[go[k]].sort_order->0,
{
    assert(go[j] != go[k]);
    assert(comes_first(g, go[j], go[k]));
    assert(g[go[j]].sort_order != g[go[k]].sort_order);
}

/// The sibling that stands one place below a folder is created before
/// it.
pub proof fn lemma_lower_is_earlier(g: Seq<DocGroupView>, go: Seq<int>, k: int) -> (t: int)
    requires
        tidy_groups(g),
        is_creation_order(g, go),
        0 <= k < go.len(),
        g[go[k]].sort_order->0 > 0,
    ensures
        0 <= t < k,
        g[go[t]].parent_id == g[go[k]].parent_id,
        g[go[t]].sort_order == Some((g[go[k]].sort_order->0 - 1) as i64),
{
    let e = g[go[k]];
    let o = e.sort_order->0;
    assert(has_sibling_at(g, e.parent_id, (o - 1) as i64));
    let s = choose|s: int|
        0 <= s < g.len() && (#[trigger] g[s]).parent_id == e.parent_id && g[s].sort_order == Some(
            (o - 1) as i64,
        );
    lemma_all_created(g, go, s);
    let t = turn_of(go, s);
    assert(go[t] == s);
    if t > k {
        assert(comes_first(g, go[k], go[t]));
    }
    t
}

/// The folders of a table, with the mirror images of the first `k`
/// folders created behind them.
pub open spec fn with_mirrored(
    before: Seq<DocGroupView>,
    g: Seq<DocGroupView>,
    go: Seq<int>,
    base: i64,
    project_id: i64,
    k: nat,
) -> Seq<DocGroupView> {
    before + mirrored_groups(g, go, base, project_id, k)
}

/// The place behind its siblings that creation gives the mirror image
/// of a folder is the place that the folder had.
pub proof fn lemma_turn_order(
    before: Seq<DocGroupView>,
    g: Seq<DocGroupView>,
    go: Seq<int>,
    base: i64,
    project_id: i64,
    k: int,
)
    requires
        tidy_groups(g),
        is_creation_order(g, go),
        0 <= k < go.len(),
        0 <= base,
        base + go.len() <= i64::MAX,
        owners_below(before, project_id),
    ensures
        next_order(
            group_slots(with_mirrored(before, g, go, base, project_id, k as nat)),
            project_id,
            mirrored_parent(g, go, base, g[go[k]]),
        ) == g[go[k]].sort_order->0,
{
    let table = with_mirrored(before, g, go, base, project_id, k as nat);
    let slots = group_slots(table);
    let e = g[go[k]];
    let q = mirrored_parent(g, go, base, e);
    let o = e.sort_order->0;
    let n0 = before.len() as int;
    lemma_top_order(slots, project_id, q);
    // every member of the sibling set is the mirror image of a sibling created before
    assert forall|x: int| 0 <= x < slots.len() && ranked(#[trigger] slots[x], project_id, q) implies
        n0 <= x && g[go[x - n0]].parent_id == e.parent_id && slots[x].order == g[go[x
        - n0]].sort_order && g[go[x - n0]].sort_order->0 < o by {
        if x < n0 {
            assert(table[x] == before[x]);
            assert(before[x].owner() < project_id);
        } else {
            let j = x - n0;
            assert(table[x] == mirrored_group(g, go, base, project_id, j));
            lemma_parents_correspond(g, go, base, j, k);
            lemma_earlier_is_lower(g, go, j, k);
        }
    }
    if o > 0 {
        let t = lemma_lower_is_earlier(g, go, k);
        lemma_parents_correspond(g, go, base, t, k);
        assert(table[n0 + t] == mirrored_group(g, go, base, project_id, t));
        assert(ranked(slots[n0 + t], project_id, q));
        assert(slots[n0 + t].order == Some((o - 1) as i64));
        match top_order(slots, project_id, q) {
            Some(mx) => {
                let w = choose|w: int|
                    0 <= w < slots.len() && ranked(#[trigger] slots[w], project_id, q)
                        && slots[w].order == Some(mx);
                assert(ranked(slots[w], project_id, q));
                assert(slots[n0 + t].order->0 <= mx);
            },
            None => {},
        }
    } else {
        match top_order(slots, project_id, q) {
            Some(mx) => {
                let w = choose|w: int|
                    0 <= w < slots.len() && ranked(#[trigger] slots[w], project_id, q)
                        && slots[w].order == Some(mx);
                assert(ranked(slots[w], project_id, q));
                assert(g[go[w - n0]].sort_order->0 >= 0);
            },
            None => {},
        }
    }
}

/// One more folder created: where the table holds the mirror images of
/// the folders created so far, and creation gives the next folder the
/// parent and the place of its mirror image, the table then holds one
/// mirror image more.
pub proof fn lemma_group_step(
    v: StoreView,
    w: StoreView,
    project_id: i64,
    g: Seq<DocGroupView>,
    go: Seq<int>,
    parent: Option<i64>,
    k: nat,
)
    requires
        0 < k <= go.len(),
        0 <= v.next_id,
        v.next_id + go.len() <= i64::MAX,
        w == (StoreView {
            groups: with_mirrored(v.groups, g, go, v.next_id, project_id, (k - 1) as nat),
            next_id: (v.next_id + k - 1) as i64,
            ..v
        }),
        parent == mirrored_parent(g, go, v.next_id, g[go[k - 1]]),
        g[go[k - 1]].sort_order is Some,
        next_order(group_slots(w.groups), project_id, parent) == g[go[k - 1]].sort_order->0,
    ensures
        group_added(w, project_id, g[go[k - 1]].name, parent) == (StoreView {
            groups: with_mirrored(v.groups, g, go, v.next_id, project_id, k),
            next_id: (v.next_id + k) as i64,
            ..v
        }),
{
    let made = group_added(w, project_id, g[go[k - 1]].name, parent);
    let want = with_mirrored(v.groups, g, go, v.next_id, project_id, k);
    assert(made.groups.len() == want.len());
    assert forall|x: int| 0 <= x < want.len() implies made.groups[x] == want[x] by {
        if x < want.len() - 1 {
            assert(made.groups[x] == w.groups[x]);
        } else {
            assert(want[x] == mirrored_group(g, go, v.next_id, project_id, k - 1));
        }
    }
    assert(made.groups =~= want);
}

/// The folders of a tidy manifest come back as their mirror images:
/// after `k` folders were created anew, the table of folders holds, behind
/// what it held, the mirror images of those `k` folders, and the map
/// pairs each old identifier with the new one.
pub proof fn lemma_groups_mirrored(
    v: StoreView,
    project_id: i64,
    g: Seq<DocGroupView>,
    go: Seq<int>,
    k: nat,
)
    requires
        tidy_groups(g),
        is_creation_order(g, go),
        k <= go.len(),
        0 <= v.next_id,
        v.next_id + go.len() <= i64::MAX,
        owners_below(v.groups, project_id),
    ensures
        groups_replayed(v, project_id, g, go, k) == (
            StoreView {
                groups: with_mirrored(v.groups, g, go, v.next_id, project_id, k),
                next_id: (v.next_id + k) as i64,
                ..v
            },
            group_pairs(g, go, v.next_id, k),
        ),
    decreases k,
{
    let base = v.next_id;
    if k == 0 {
        assert(with_mirrored(v.groups, g, go, base, project_id, 0) =~= v.groups);
        assert(group_pairs(g, go, base, 0) =~= Seq::<IdPair>::empty());
    } else {
        let j = (k - 1) as nat;
        lemma_groups_mirrored(v, project_id, g, go, j);
        let (w, map) = groups_replayed(v, project_id, g, go, j);
        let e = g[go[k - 1]];
        assert(map == group_pairs(g, go, base, j));
        assert(new_parent(map, e) == mirrored_parent(g, go, base, e)) by {
            if e.parent_id is Some {
                lemma_parent_turn(g, go, k - 1);
                let t = turn_of(go, entry_of(g, e.parent_id->0));
                lemma_pair_found(g, go, base, j, t);
            }
        }
        lemma_turn_order(v.groups, g, go, base, project_id, k - 1);
        assert(g[go[k - 1]].sort_order is Some);
        lemma_group_step(v, w, project_id, g, go, new_parent(map, e), k);
        assert(map.push(IdPair { old: e.id, new: w.next_id }) =~= group_pairs(g, go, base, k));
    }
}

/// The documents of a manifest fit together, and fit its folders:
/// their identifiers differ, every document is filed in a folder of the
/// manifest or in none, and the documents of one folder stand at the
/// places 0, 1, 2, .. without gap or double.
pub open spec fn tidy_docs(d: Seq<DocView>, g: Seq<DocGroupView>) -> bool {
    &&& forall|i: int, j: int|
        0 <= i < d.len() && 0 <= j < d.len() && i != j ==> (#[trigger] d[i]).id != (
        #[trigger] d[j]).id
    &&& forall|i: int|
        0 <= i < d.len() ==> ((#[trigger] d[i]).doc_group_id matches Some(gid) ==> has_id(g, gid)
            && 0 <= gid)
    &&& forall|i: int|
        0 <= i < d.len() ==> (#[trigger] d[i]).sort_order is Some && d[i].sort_order->0 >= 0
    &&& forall|i: int, j: int|
        0 <= i < d.len() && 0 <= j < d.len() && i != j && (#[trigger] d[i]).doc_group_id == (
        #[trigger] d[j]).doc_group_id ==> d[i].sort_order != d[j].sort_order
    &&& forall|i: int|
        0 <= i < d.len() && (#[trigger] d[i]).sort_order->0 > 0 ==> has_doc_at(
            d,
            d[i].doc_group_id,
            (d[i].sort_order->0 - 1) as i64,
        )
}

/// A document of the folder stands at the place `order`.
pub open spec fn has_doc_at(d: Seq<DocView>, group: Option<i64>, order: i64) -> bool {
    exists|j: int|
        0 <= j < d.len() && (#[trigger] d[j]).doc_group_id == group && d[j].sort_order == Some(
            order,
        )
}

/// The folder of the mirror image of a document: the mirror image of
/// its folder.
pub open spec fn mirrored_home(
    g: Seq<DocGroupView>,
    go: Seq<int>,
    group_base: i64,
    e: DocView,
) -> Option<i64> {
    match e.doc_group_id {
        Some(gid) => Some((group_base + turn_of(go, entry_of(g, gid))) as i64),
        None => None,
    }
}

/// The mirror image of the document created at turn `k`: the document
/// with its name ("Untitled" where it has none), its text (an empty one
/// where it has none), its notes and its place, in the new project, in
/// the mirror image of its folder.
pub open spec fn mirrored_doc(
    d: Seq<DocView>,
    dord: Seq<int>,
    g: Seq<DocGroupView>,
    go: Seq<int>,
    group_base: i64,
    base: i64,
    project_id: i64,
    k: int,
) -> DocView {
    let e = d[dord[k]];
    DocView {
        id: (base + k) as i64,
        project_id,
        path: Seq::empty(),
        name: Some(
            match e.name {
                Some(n) => n,
                None => "Untitled"@,
            },
        ),
        timeline_id: None,
        text: Some(
            match e.text {
                Some(t) => t,
                None => Seq::empty(),
            },
        ),
        notes: e.notes,
        doc_group_id: mirrored_home(g, go, group_base, e),
        sort_order: e.sort_order,
    }
}

/// The mirror images of the first `k` documents created.
pub open spec fn mirrored_docs(
    d: Seq<DocView>,
    dord: Seq<int>,
    g: Seq<DocGroupView>,
    go: Seq<int>,
    group_base: i64,
    base: i64,
    project_id: i64,
    k: nat,
) -> Seq<DocView> {
    Seq::new(k, |j: int| mirrored_doc(d, dord, g, go, group_base, base, project_id, j))
}

/// The pairs of old and new identifiers after `k` documents were
/// created, the new identifiers counting up from `base`.
pub open spec fn doc_pairs(d: Seq<DocView>, dord: Seq<int>, base: i64, k: nat) -> Seq<IdPair> {
    Seq::new(k, |j: int| IdPair { old: d[dord[j]].id, new: (base + j) as i64 })
}

/// The folder in which a document is created anew is the mirror image
/// of its folder.
pub proof fn lemma_home_found(g: Seq<DocGroupView>, go: Seq<int>, group_base: i64, e: DocView)
    requires
        tidy_groups(g),
        is_creation_order(g, go),
        e.doc_group_id matches Some(gid) ==> has_id(g, gid),
    ensures
        new_group(group_pairs(g, go, group_base, go.len()), e) == mirrored_home(
            g,
            go,
            group_base,
            e,
        ),
        e.doc_group_id matches Some(gid) ==> 0 <= turn_of(go, entry_of(g, gid)) < go.len()
            && g[go[turn_of(go, entry_of(g, gid))]].id == gid,
{
    if e.doc_group_id is Some {
        let gid = e.doc_group_id->0;
        let j = entry_of(g, gid);
        lemma_all_created(g, go, j);
        let t = turn_of(go, j);
        assert(go[t] == j);
        lemma_pair_found(g, go, group_base, go.len(), t);
    }
}

/// Two documents have mirror images in one folder exactly when they
/// are in one folder themselves.
pub proof fn lemma_homes_correspond(
    g: Seq<DocGroupView>,
    go: Seq<int>,
    group_base: i64,
    a: DocView,
    b: DocView,
)
    requires
        tidy_groups(g),
        is_creation_order(g, go),
        a.doc_group_id matches Some(gid) ==> has_id(g, gid),
        b.doc_group_id matches Some(gid) ==> has_id(g, gid),
        0 <= group_base,
        group_base + go.len() <= i64::MAX,
    ensures
        (mirrored_home(g, go, group_base, a) == mirrored_home(g, go, group_base, b)) == (
        a.doc_group_id == b.doc_group_id),
{
    lemma_home_found(g, go, group_base, a);
    lemma_home_found(g, go, group_base, b);
}

/// Of two documents of one folder, the one created first stands at the
/// lower place.
pub proof fn lemma_earlier_doc_is_lower(d: Seq<DocView>, g: Seq<DocGroupView>, dord: Seq<int>, j: int, k: int)
    requires
        tidy_docs(d, g),
        is_stable_order(doc_seed_keys(d), dord),
        0 <= j < k < dord.len(),
        d[dord[j]].doc_group_id == d[dord[k]].doc_group_id,
    ensures
        d[dord[j]].sort_order->0 < d[dord[k]].sort_order->0,
{
    let keys = doc_seed_keys(d);
    let a = keys[dord[j]];
    let b = keys[dord[k]];
    assert(key_le(a, b));
    reveal_with_fuel(key_le, 4);
    assert(a == doc_seed_key(d[dord[j]]));
    assert(b == doc_seed_key(d[dord[k]]));
    assert(a[0] == b[0]);
    assert(a.drop_first()[0] == a[1]);
    assert(b.drop_first()[0] == b[1]);
    assert(dord[j] != dord[k]);
    assert(d[dord[j]].sort_order != d[dord[k]].sort_order);
}

/// The document that stands one place below another in its folder is
/// created before it.
pub proof fn lemma_lower_doc_is_earlier(d: Seq<DocView>, g: Seq<DocGroupView>, dord: Seq<int>, k: int) -> (t:
    int)
    requires
        tidy_docs(d, g),
        is_stable_order(doc_seed_keys(d), dord),
        0 <= k < dord.len(),
        d[dord[k]].sort_order->0 > 0,
    ensures
        0 <= t < k,
        d[dord[t]].doc_group_id == d[dord[k]].doc_group_id,
        d[dord[t]].sort_order == Some((d[dord[k]].sort_order->0 - 1) as i64),
{
    let e = d[dord[k]];
    let o = e.sort_order->0;
    assert(has_doc_at(d, e.doc_group_id, (o - 1) as i64));
    let s = choose|s: int|
        0 <= s < d.len() && (#[trigger] d[s]).doc_group_id == e.doc_group_id && d[s].sort_order
            == Some((o - 1) as i64);
    lemma_reading_onto(d.len(), dord, s);
    let t = choose|t: int| 0 <= t < dord.len() && dord[t] == s;
    if t > k {
        lemma_earlier_doc_is_lower(d, g, dord, k, t);
    }
    t
}

/// The place behind the documents of its folder that creation gives the
/// mirror image of a document is the place that the document had.
pub proof fn lemma_doc_turn_order(
    before: Seq<DocView>,
    d: Seq<DocView>,
    dord: Seq<int>,
    g: Seq<DocGroupView>,
    go: Seq<int>,
    group_base: i64,
    base: i64,
    project_id: i64,
    k: int,
)
    requires
        tidy_groups(g),
        is_creation_order(g, go),
        tidy_docs(d, g),
        is_stable_order(doc_seed_keys(d), dord),
        0 <= k < dord.len(),
        0 <= group_base,
        group_base + go.len() <= i64::MAX,
        0 <= base,
        base + dord.len() <= i64::MAX,
        owners_below(before, project_id),
    ensures
        next_order(
            doc_slots(
                before + mirrored_docs(d, dord, g, go, group_base, base, project_id, k as nat),
            ),
            project_id,
            mirrored_home(g, go, group_base, d[dord[k]]),
        ) == d[dord[k]].sort_order->0,
{
    let table = before + mirrored_docs(d, dord, g, go, group_base, base, project_id, k as nat);
    let slots = doc_slots(table);
    let e = d[dord[k]];
    let q = mirrored_home(g, go, group_base, e);
    let o = e.sort_order->0;
    let n0 = before.len() as int;
    lemma_top_order(slots, project_id, q);
    assert forall|x: int| 0 <= x < slots.len() && ranked(#[trigger] slots[x], project_id, q) implies
        n0 <= x && d[dord[x - n0]].doc_group_id == e.doc_group_id && slots[x].order == d[dord[x
        - n0]].sort_order && d[dord[x - n0]].sort_order->0 < o by {
        if x < n0 {
            assert(table[x] == before[x]);
            assert(before[x].owner() < project_id);
        } else {
            let j = x - n0;
            assert(table[x] == mirrored_doc(d, dord, g, go, group_base, base, project_id, j));
            lemma_homes_correspond(g, go, group_base, d[dord[j]], e);
            lemma_earlier_doc_is_lower(d, g, dord, j, k);
        }
    }
    if o > 0 {
        let t = lemma_lower_doc_is_earlier(d, g, dord, k);
        lemma_homes_correspond(g, go, group_base, d[dord[t]], e);
        assert(table[n0 + t] == mirrored_doc(d, dord, g, go, group_base, base, project_id, t));
        assert(ranked(slots[n0 + t], project_id, q));
        assert(slots[n0 + t].order == Some((o - 1) as i64));
        match top_order(slots, project_id, q) {
            Some(mx) => {
                let w = choose|w: int|
                    0 <= w < slots.len() && ranked(#[trigger] slots[w], project_id, q)
                        && slots[w].order == Some(mx);
                assert(ranked(slots[w], project_id, q));
                assert(slots[n0 + t].order->0 <= mx);
            },
            None => {},
        }
    } else {
        match top_order(slots, project_id, q) {
            Some(mx) => {
                let w = choose|w: int|
                    0 <= w < slots.len() && ranked(#[trigger] slots[w], project_id, q)
                        && slots[w].order == Some(mx);
                assert(ranked(slots[w], project_id, q));
                assert(d[dord[w - n0]].sort_order->0 >= 0);
            },
            None => {},
        }
    }
}

/// One more document created: where the table holds the mirror images
/// of the documents created so far, and creation gives the next document
/// the folder and the place of its mirror image, the table then holds
/// one mirror image more.
pub proof fn lemma_doc_step(
    v: StoreView,
    w: StoreView,
    project_id: i64,
    d: Seq<DocView>,
    dord: Seq<int>,
    g: Seq<DocGroupView>,
    go: Seq<int>,
    group_base: i64,
    home: Option<i64>,
    k: nat,
)
    requires
        0 < k <= dord.len(),
        0 <= v.next_id,
        v.next_id + dord.len() <= i64::MAX,
        w == (StoreView {
            docs: v.docs + mirrored_docs(
                d,
                dord,
                g,
                go,
                group_base,
                v.next_id,
                project_id,
                (k - 1) as nat,
            ),
            next_id: (v.next_id + k - 1) as i64,
            ..v
        }),
        home == mirrored_home(g, go, group_base, d[dord[k - 1]]),
        d[dord[k - 1]].sort_order is Some,
        next_order(doc_slots(w.docs), project_id, home) == d[dord[k - 1]].sort_order->0,
    ensures
        doc_added(w, project_id, d[dord[k - 1]], home) == (StoreView {
            docs: v.docs + mirrored_docs(d, dord, g, go, group_base, v.next_id, project_id, k),
            next_id: (v.next_id + k) as i64,
            ..v
        }),
{
    let made = doc_added(w, project_id, d[dord[k - 1]], home);
    let want = v.docs + mirrored_docs(d, dord, g, go, group_base, v.next_id, project_id, k);
    assert(made.docs.len() == want.len());
    assert forall|x: int| 0 <= x < want.len() implies made.docs[x] == want[x] by {
        if x < want.len() - 1 {
            assert(made.docs[x] == w.docs[x]);
        } else {
            assert(want[x] == mirrored_doc(
                d,
                dord,
                g,
                go,
                group_base,
                v.next_id,
                project_id,
                k - 1,
            ));
        }
    }
    assert(made.docs =~= want);
}

/// The documents of a tidy manifest come back as their mirror images:
/// after `k` documents were created anew, the table of documents holds,
/// behind what it held, the mirror images of those `k` documents, and
/// the map pairs each old identifier with the new one.
pub proof fn lemma_docs_mirrored(
    v: StoreView,
    project_id: i64,
    d: Seq<DocView>,
    dord: Seq<int>,
    g: Seq<DocGroupView>,
    go: Seq<int>,
    group_base: i64,
    k: nat,
)
    requires
        tidy_groups(g),
        is_creation_order(g, go),
        tidy_docs(d, g),
        is_stable_order(doc_seed_keys(d), dord),
        k <= dord.len(),
        0 <= group_base,
        group_base + go.len() <= i64::MAX,
        0 <= v.next_id,
        v.next_id + dord.len() <= i64::MAX,
        owners_below(v.docs, project_id),
    ensures
        docs_replayed(v, project_id, d, dord, group_pairs(g, go, group_base, go.len()), k) == (
            StoreView {
                docs: v.docs + mirrored_docs(d, dord, g, go, group_base, v.next_id, project_id, k),
                next_id: (v.next_id + k) as i64,
                ..v
            },
            doc_pairs(d, dord, v.next_id, k),
        ),
    decreases k,
{
    let base = v.next_id;
    let gm = group_pairs(g, go, group_base, go.len());
    if k == 0 {
        assert(v.docs + mirrored_docs(d, dord, g, go, group_base, base, project_id, 0) =~= v.docs);
        assert(doc_pairs(d, dord, base, 0) =~= Seq::<IdPair>::empty());
    } else {
        let j = (k - 1) as nat;
        lemma_docs_mirrored(v, project_id, d, dord, g, go, group_base, j);
        let (w, map) = docs_replayed(v, project_id, d, dord, gm, j);
        let e = d[dord[k - 1]];
        lemma_home_found(g, go, group_base, e);
        lemma_doc_turn_order(v.docs, d, dord, g, go, group_base, base, project_id, k - 1);
        assert(d[dord[k - 1]].sort_order is Some) by {
            assert(0 <= dord[k - 1] < d.len());
        }
        lemma_doc_step(v, w, project_id, d, dord, g, go, group_base, new_group(gm, e), k);
        assert(map.push(IdPair { old: e.id, new: w.next_id }) =~= doc_pairs(d, dord, base, k));
    }
}

/// Creating drafts leaves every other table as it was, and moves the
/// counter by the number of drafts created at most.
pub proof fn lemma_drafts_added_frame(
    v: StoreView,
    doc_id: i64,
    drafts: Seq<crate::models::DraftView>,
    now: Seq<char>,
    k: nat,
)
    requires
        k <= drafts.len(),
        v.next_id + k <= i64::MAX,
    ensures
        drafts_added(v, doc_id, drafts, now, k) == (StoreView {
            drafts: drafts_added(v, doc_id, drafts, now, k).drafts,
            next_id: (v.next_id + k) as i64,
            ..v
        }),
    decreases k,
{
    if k > 0 {
        lemma_drafts_added_frame(v, doc_id, drafts, now, (k - 1) as nat);
    }
}

/// Creating the drafts of a manifest leaves every other table as it
/// was, and moves the counter by the number of its drafts at most.
pub proof fn lemma_drafts_replayed_frame(
    v: StoreView,
    entries: Seq<DocDraftsView>,
    doc_map: Seq<IdPair>,
    now: Seq<char>,
    k: nat,
)
    requires
        k <= entries.len(),
        v.next_id + draft_total(entries, k) <= i64::MAX,
    ensures
        drafts_replayed(v, entries, doc_map, now, k) == (StoreView {
            drafts: drafts_replayed(v, entries, doc_map, now, k).drafts,
            next_id: drafts_replayed(v, entries, doc_map, now, k).next_id,
            ..v
        }),
        v.next_id <= drafts_replayed(v, entries, doc_map, now, k).next_id <= v.next_id
            + draft_total(entries, k),
    decreases k,
{
    if k > 0 {
        lemma_drafts_replayed_frame(v, entries, doc_map, now, (k - 1) as nat);
        let w = drafts_replayed(v, entries, doc_map, now, (k - 1) as nat);
        let e = entries[k - 1];
        if new_id_of(doc_map, e.doc_id) is Some {
            lemma_drafts_added_frame(w, new_id_of(doc_map, e.doc_id)->0, e.drafts, now, e.drafts.len());
        }
    }
}

/// The mirror images of the first `k` characters of a manifest.
pub open spec fn mirrored_characters(rows: Seq<CharacterView>, base: i64, project_id: i64, k: nat) -> Seq<
    CharacterView,
> {
    Seq::new(
        k,
        |j: int|
            CharacterView {
                id: (base + j) as i64,
                project_id,
                name: rows[j].name,
                desc: rows[j].desc,
            },
    )
}

/// The mirror images of the first `k` events of a manifest.
pub open spec fn mirrored_events(rows: Seq<EventView>, base: i64, project_id: i64, k: nat) -> Seq<
    EventView,
> {
    Seq::new(
        k,
        |j: int|
            EventView {
                id: (base + j) as i64,
                project_id,
                name: rows[j].name,
                desc: rows[j].desc,
                date: rows[j].date,
                start_date: rows[j].start_date,
                end_date: rows[j].end_date,
            },
    )
}

/// The mirror images of the first `k` places of a manifest.
pub open spec fn mirrored_places(rows: Seq<PlaceView>, base: i64, project_id: i64, k: nat) -> Seq<
    PlaceView,
> {
    Seq::new(
        k,
        |j: int|
            PlaceView {
                id: (base + j) as i64,
                project_id,
                name: rows[j].name,
                desc: rows[j].desc,
            },
    )
}

/// The pairs of the old identifiers with new ones that count up from
/// `base`.
pub open spec fn plain_pairs(olds: Seq<i64>, base: i64, k: nat) -> Seq<IdPair> {
    Seq::new(k, |j: int| IdPair { old: olds[j], new: (base + j) as i64 })
}

/// The identifiers of the characters.
pub open spec fn character_ids(rows: Seq<CharacterView>) -> Seq<i64> {
    Seq::new(rows.len(), |j: int| rows[j].id)
}

/// The identifiers of the events.
pub open spec fn event_ids(rows: Seq<EventView>) -> Seq<i64> {
    Seq::new(rows.len(), |j: int| rows[j].id)
}

/// The identifiers of the places.
pub open spec fn place_ids(rows: Seq<PlaceView>) -> Seq<i64> {
    Seq::new(rows.len(), |j: int| rows[j].id)
}

/// The characters of a manifest come back as their mirror images.
pub proof fn lemma_characters_mirrored(v: StoreView, project_id: i64, rows: Seq<CharacterView>, k: nat)
    requires
        k <= rows.len(),
        v.next_id + k <= i64::MAX,
    ensures
        characters_replayed(v, project_id, rows, k) == (
            StoreView {
                characters: v.characters + mirrored_characters(rows, v.next_id, project_id, k),
                next_id: (v.next_id + k) as i64,
                ..v
            },
            plain_pairs(character_ids(rows), v.next_id, k),
        ),
    decreases k,
{
    if k == 0 {
        assert(v.characters + mirrored_characters(rows, v.next_id, project_id, 0) =~= v.characters);
        assert(plain_pairs(character_ids(rows), v.next_id, 0) =~= Seq::<IdPair>::empty());
    } else {
        lemma_characters_mirrored(v, project_id, rows, (k - 1) as nat);
        let (w, map) = characters_replayed(v, project_id, rows, (k - 1) as nat);
        let made = character_added(w, project_id, rows[k - 1]);
        assert(made.characters =~= v.characters + mirrored_characters(
            rows,
            v.next_id,
            project_id,
            k,
        ));
        assert(map.push(IdPair { old: rows[k - 1].id, new: w.next_id }) =~= plain_pairs(
            character_ids(rows),
            v.next_id,
            k,
        ));
    }
}

/// The events of a manifest come back as their mirror images.
pub proof fn lemma_events_mirrored(v: StoreView, project_id: i64, rows: Seq<EventView>, k: nat)
    requires
        k <= rows.len(),
        v.next_id + k <= i64::MAX,
    ensures
        events_replayed(v, project_id, rows, k) == (
            StoreView {
                events: v.events + mirrored_events(rows, v.next_id, project_id, k),
                next_id: (v.next_id + k) as i64,
                ..v
            },
            plain_pairs(event_ids(rows), v.next_id, k),
        ),
    decreases k,
{
    if k == 0 {
        assert(v.events + mirrored_events(rows, v.next_id, project_id, 0) =~= v.events);
        assert(plain_pairs(event_ids(rows), v.next_id, 0) =~= Seq::<IdPair>::empty());
    } else {
        lemma_events_mirrored(v, project_id, rows, (k - 1) as nat);
        let (w, map) = events_replayed(v, project_id, rows, (k - 1) as nat);
        let made = event_added(w, project_id, rows[k - 1]);
        assert(made.events =~= v.events + mirrored_events(rows, v.next_id, project_id, k));
        assert(map.push(IdPair { old: rows[k - 1].id, new: w.next_id }) =~= plain_pairs(
            event_ids(rows),
            v.next_id,
            k,
        ));
    }
}

/// The places of a manifest come back as their mirror images.
pub proof fn lemma_places_mirrored(v: StoreView, project_id: i64, rows: Seq<PlaceView>, k: nat)
    requires
        k <= rows.len(),
        v.next_id + k <= i64::MAX,
    ensures
        places_replayed(v, project_id, rows, k) == (
            StoreView {
                places: v.places + mirrored_places(rows, v.next_id, project_id, k),
                next_id: (v.next_id + k) as i64,
                ..v
            },
            plain_pairs(place_ids(rows), v.next_id, k),
        ),
    decreases k,
{
    if k == 0 {
        assert(v.places + mirrored_places(rows, v.next_id, project_id, 0) =~= v.places);
        assert(plain_pairs(place_ids(rows), v.next_id, 0) =~= Seq::<IdPair>::empty());
    } else {
        lemma_places_mirrored(v, project_id, rows, (k - 1) as nat);
        let (w, map) = places_replayed(v, project_id, rows, (k - 1) as nat);
        let made = place_added(w, project_id, rows[k - 1]);
        assert(made.places =~= v.places + mirrored_places(rows, v.next_id, project_id, k));
        assert(map.push(IdPair { old: rows[k - 1].id, new: w.next_id }) =~= plain_pairs(
            place_ids(rows),
            v.next_id,
            k,
        ));
    }
}

/// In pairs whose old identifiers differ, the identifier at place `l`
/// is found.
pub proof fn lemma_plain_pair_found(olds: Seq<i64>, base: i64, k: nat, l: int)
    requires
        0 <= l < k <= olds.len(),
        forall|i: int, j: int|
            0 <= i < olds.len() && 0 <= j < olds.len() && i != j ==> #[trigger] olds[i]
                != #[trigger] olds[j],
    ensures
        new_id_of(plain_pairs(olds, base, k), olds[l]) == Some((base + l) as i64),
    decreases k,
{
    let pairs = plain_pairs(olds, base, k);
    let last = k - 1;
    assert(pairs.last() == pairs[last]);
    if l != last {
        assert(olds[l] != olds[last]);
        assert(pairs.drop_last() =~= plain_pairs(olds, base, (k - 1) as nat));
        lemma_plain_pair_found(olds, base, (k - 1) as nat, l);
    }
}

/// Setting the timelines of a manifest leaves every other table as it
/// was.
pub proof fn lemma_timelines_replayed_frame(
    v: StoreView,
    entries: Seq<DocTimelineView>,
    doc_map: Seq<IdPair>,
    k: nat,
)
    requires
        k <= entries.len(),
    ensures
        timelines_replayed(v, entries, doc_map, k) == (StoreView {
            timelines: timelines_replayed(v, entries, doc_map, k).timelines,
            next_id: timelines_replayed(v, entries, doc_map, k).next_id,
            ..v
        }),
    decreases k,
{
    if k > 0 {
        lemma_timelines_replayed_frame(v, entries, doc_map, (k - 1) as nat);
    }
}

/// A relation with a pair attached holds that pair, and what it held.
pub proof fn lemma_with_link(links: Seq<Link>, owner: i64, item: i64, a: i64, b: i64)
    ensures
        linked(with_link(links, owner, item), a, b) == (linked(links, a, b) || (a == owner && b
            == item)),
{
    let after = with_link(links, owner, item);
    if linked(links, owner, item) {
    } else {
        let n = links.len() as int;
        assert(after[n] == (Link { owner, item }));
        if linked(links, a, b) {
            let w = choose|w: int| 0 <= w < links.len() && links[w] == (Link { owner: a, item: b });
            assert(after[w] == (Link { owner: a, item: b }));
        }
        if linked(after, a, b) {
            let w = choose|w: int| 0 <= w < after.len() && after[w] == (Link { owner: a, item: b });
            if w < n {
                assert(links[w] == (Link { owner: a, item: b }));
            }
        }
    }
}

/// One of the first `j` items has the new identifier `b`.
pub open spec fn item_made(items: Seq<i64>, item_map: Seq<IdPair>, j: nat, b: i64) -> bool {
    exists|x: int| 0 <= x < j && new_id_of(item_map, #[trigger] items[x]) == Some(b)
}

/// What a relation holds after items were attached to an owner: what it
/// held, and the owner with each item that has a new identifier.
pub proof fn lemma_items_linked(
    links: Seq<Link>,
    owner: i64,
    items: Seq<i64>,
    item_map: Seq<IdPair>,
    j: nat,
    a: i64,
    b: i64,
)
    requires
        j <= items.len(),
    ensures
        linked(items_linked(links, owner, items, item_map, j), a, b) == (linked(links, a, b) || (a
            == owner && item_made(items, item_map, j, b))),
    decreases j,
{
    if j > 0 {
        let prev = items_linked(links, owner, items, item_map, (j - 1) as nat);
        lemma_items_linked(links, owner, items, item_map, (j - 1) as nat, a, b);
        let found = new_id_of(item_map, items[j - 1]);
        if found is Some {
            lemma_with_link(prev, owner, found->0, a, b);
        }
        if item_made(items, item_map, (j - 1) as nat, b) {
            let x = choose|x: int|
                0 <= x < j - 1 && new_id_of(item_map, #[trigger] items[x]) == Some(b);
            assert(0 <= x < j && new_id_of(item_map, items[x]) == Some(b));
        }
        if item_made(items, item_map, j, b) {
            let x = choose|x: int| 0 <= x < j && new_id_of(item_map, #[trigger] items[x]) == Some(b);
            if x < j - 1 {
                assert(item_made(items, item_map, (j - 1) as nat, b));
            }
        }
        if found == Some(b) {
            assert(new_id_of(item_map, items[j - 1]) == Some(b));
            assert(item_made(items, item_map, j, b));
        }
    }
}

/// One of the first `k` entries makes the pair: its document has the
/// new identifier `a`, and one of its items the new identifier `b`.
pub open spec fn link_made(
    entries: Seq<DocItemsView>,
    doc_map: Seq<IdPair>,
    item_map: Seq<IdPair>,
    k: nat,
    a: i64,
    b: i64,
) -> bool {
    exists|e: int|
        0 <= e < k && new_id_of(doc_map, (#[trigger] entries[e]).doc_id) == Some(a) && item_made(
            entries[e].items,
            item_map,
            entries[e].items.len(),
            b,
        )
}

/// What a relation holds after the links of a manifest were made again:
/// what it held, and the pairs that the entries make.
pub proof fn lemma_links_replayed(
    links: Seq<Link>,
    entries: Seq<DocItemsView>,
    doc_map: Seq<IdPair>,
    item_map: Seq<IdPair>,
    k: nat,
    a: i64,
    b: i64,
)
    requires
        k <= entries.len(),
    ensures
        linked(links_replayed(links, entries, doc_map, item_map, k), a, b) == (linked(links, a, b)
            || link_made(entries, doc_map, item_map, k, a, b)),
    decreases k,
{
    if k > 0 {
        let prev = links_replayed(links, entries, doc_map, item_map, (k - 1) as nat);
        lemma_links_replayed(links, entries, doc_map, item_map, (k - 1) as nat, a, b);
        let e = entries[k - 1];
        let owner = new_id_of(doc_map, e.doc_id);
        if owner is Some {
            lemma_items_linked(prev, owner->0, e.items, item_map, e.items.len(), a, b);
        }
        if link_made(entries, doc_map, item_map, (k - 1) as nat, a, b) {
            let x = choose|x: int|
                0 <= x < k - 1 && new_id_of(doc_map, (#[trigger] entries[x]).doc_id) == Some(a)
                    && item_made(entries[x].items, item_map, entries[x].items.len(), b);
            assert(0 <= x < k && new_id_of(doc_map, entries[x].doc_id) == Some(a) && item_made(
                entries[x].items,
                item_map,
                entries[x].items.len(),
                b,
            ));
        }
        if link_made(entries, doc_map, item_map, k, a, b) {
            let x = choose|x: int|
                0 <= x < k && new_id_of(doc_map, (#[trigger] entries[x]).doc_id) == Some(a)
                    && item_made(entries[x].items, item_map, entries[x].items.len(), b);
            if x < k - 1 {
                assert(link_made(entries, doc_map, item_map, (k - 1) as nat, a, b));
            }
        }
        if owner == Some(a) && item_made(e.items, item_map, e.items.len(), b) {
            assert(new_id_of(doc_map, entries[k - 1].doc_id) == Some(a));
            assert(link_made(entries, doc_map, item_map, k, a, b));
        }
    }
}

/// The project is whole: every folder has its parent, and every
/// document its folder, in the project itself; every folder and document
/// has a place, and the sibling sets are dense; every character, event
/// and place has a name.
pub open spec fn is_whole_project(v: StoreView, project_id: i64) -> bool {
    &&& forall|i: int|
        0 <= i < v.groups.len() && (#[trigger] v.groups[i]).project_id == project_id
            ==> v.groups[i].sort_order is Some && (v.groups[i].parent_id matches Some(p)
            ==> owned_key(v.groups, project_id, p))
    &&& forall|i: int|
        0 <= i < v.docs.len() && (#[trigger] v.docs[i]).project_id == project_id
            ==> v.docs[i].sort_order is Some && (v.docs[i].doc_group_id matches Some(g)
            ==> owned_key(v.groups, project_id, g))
    &&& forall|q: Option<i64>| #[trigger] groups_dense_in(v.groups, project_id, q)
    &&& forall|q: Option<i64>| #[trigger] docs_dense_in(v.docs, project_id, q)
    &&& forall|i: int|
        0 <= i < v.characters.len() && (#[trigger] v.characters[i]).project_id == project_id
            ==> !is_blank(v.characters[i].name)
    &&& forall|i: int|
        0 <= i < v.events.len() && (#[trigger] v.events[i]).project_id == project_id ==> !is_blank(
            v.events[i].name,
        )
    &&& forall|i: int|
        0 <= i < v.places.len() && (#[trigger] v.places[i]).project_id == project_id ==> !is_blank(
            v.places[i].name,
        )
}

/// The rows of a listing carry different identifiers.
pub proof fn lemma_listing_ids_differ<R: Keyed>(
    rows: Seq<R>,
    table: Seq<R>,
    wanted: spec_fn(R) -> bool,
    sort_key: spec_fn(R) -> Seq<i64>,
    k: int,
    l: int,
)
    requires
        is_listing(rows, table, wanted, sort_key),
        growing(table),
        0 <= k < rows.len(),
        0 <= l < rows.len(),
        k != l,
    ensures
        rows[k].key() != rows[l].key(),
{
    assert(table.contains(rows[k]));
    assert(table.contains(rows[l]));
    let a = choose|a: int| 0 <= a < table.len() && table[a] == rows[k];
    let b = choose|b: int| 0 <= b < table.len() && table[b] == rows[l];
    if rows[k].key() == rows[l].key() {
        if a < b {
            assert(table[a].key() < table[b].key());
        } else if b < a {
            assert(table[b].key() < table[a].key());
        }
        assert(rows[k] == rows[l]);
        if k < l {
            assert(sort_key(rows[k]) == sort_key(rows[l]) ==> rows[k].key() < rows[l].key());
        } else {
            assert(sort_key(rows[l]) == sort_key(rows[k]) ==> rows[l].key() < rows[k].key());
        }
    }
}

/// The folders of a whole project, as its manifest lists them, are
/// tidy.
pub proof fn lemma_groups_tidy(v: StoreView, project_id: i64, g: Seq<DocGroupView>)
    requires
        v.wf(),
        is_whole_project(v, project_id),
        is_listing(g, v.groups, group_in(project_id), group_key()),
    ensures
        tidy_groups(g),
{
    let table = v.groups;
    let slots = group_slots(table);
    assert forall|i: int| 0 <= i < g.len() implies 0 < (#[trigger] g[i]).id && g[i].sort_order
        is Some && g[i].sort_order->0 >= 0 && (g[i].parent_id matches Some(p) ==> p < g[i].id
        && has_id(g, p)) && (g[i].sort_order->0 > 0 ==> has_sibling_at(
        g,
        g[i].parent_id,
        (g[i].sort_order->0 - 1) as i64,
    )) by {
        assert(table.contains(g[i]));
        let a = choose|a: int| 0 <= a < table.len() && table[a] == g[i];
        assert(table[a].project_id == project_id);
        assert(0 < table[a].key());
        assert(groups_dense_in(table, project_id, g[i].parent_id));
        assert(ranked(slots[a], project_id, g[i].parent_id));
        if g[i].parent_id is Some {
            let p = g[i].parent_id->0;
            assert(owned_key(table, project_id, p));
            let b = choose|b: int|
                0 <= b < table.len() && (#[trigger] table[b]).key() == p && table[b].owner()
                    == project_id;
            assert(group_in(project_id)(table[b]));
            assert(g.contains(table[b]));
            let j = choose|j: int| 0 <= j < g.len() && g[j] == table[b];
            assert(g[j].id == p);
        }
        let o = g[i].sort_order->0;
        if o > 0 {
            lemma_dense_is_exact(slots, project_id, g[i].parent_id, (o - 1) as i64);
            let b = choose|b: int|
                0 <= b < slots.len() && ranked(#[trigger] slots[b], project_id, g[i].parent_id)
                    && slots[b].order == Some((o - 1) as i64);
            assert(slots[b] == group_slot(table[b]));
            assert(group_in(project_id)(table[b]));
            assert(g.contains(table[b]));
            let j = choose|j: int| 0 <= j < g.len() && g[j] == table[b];
            assert(g[j].parent_id == g[i].parent_id && g[j].sort_order == Some((o - 1) as i64));
        }
    }
    assert forall|i: int, j: int| 0 <= i < g.len() && 0 <= j < g.len() && i != j implies (
    #[trigger] g[i]).id != (#[trigger] g[j]).id && (g[i].parent_id == g[j].parent_id
        ==> g[i].sort_order != g[j].sort_order) by {
        lemma_listing_ids_differ(g, table, group_in(project_id), group_key(), i, j);
        assert(table.contains(g[i]));
        assert(table.contains(g[j]));
        let a = choose|a: int| 0 <= a < table.len() && table[a] == g[i];
        let b = choose|b: int| 0 <= b < table.len() && table[b] == g[j];
        if g[i].parent_id == g[j].parent_id {
            assert(groups_dense_in(table, project_id, g[i].parent_id));
            assert(ranked(slots[a], project_id, g[i].parent_id));
            assert(ranked(slots[b], project_id, g[i].parent_id));
            if a < b {
                assert(slots[a].order != slots[b].order);
            } else if b < a {
                assert(slots[b].order != slots[a].order);
            }
        }
    }
}

/// The documents of a whole project, as its manifest lists them, are
/// tidy and fit the folders of the manifest.
pub proof fn lemma_docs_tidy(v: StoreView, project_id: i64, d: Seq<DocView>, g: Seq<DocGroupView>)
    requires
        v.wf(),
        is_whole_project(v, project_id),
        is_listing(g, v.groups, group_in(project_id), group_key()),
        is_listing(d, v.docs, doc_in(project_id), doc_key()),
    ensures
        tidy_docs(d, g),
{
    let table = v.docs;
    let slots = doc_slots(table);
    assert forall|i: int| 0 <= i < d.len() implies (#[trigger] d[i]).sort_order is Some
        && d[i].sort_order->0 >= 0 && (d[i].doc_group_id matches Some(gid) ==> has_id(g, gid) && 0
        <= gid) && (d[i].sort_order->0 > 0 ==> has_doc_at(
        d,
        d[i].doc_group_id,
        (d[i].sort_order->0 - 1) as i64,
    )) by {
        assert(table.contains(d[i]));
        let a = choose|a: int| 0 <= a < table.len() && table[a] == d[i];
        assert(table[a].project_id == project_id);
        assert(docs_dense_in(table, project_id, d[i].doc_group_id));
        assert(ranked(slots[a], project_id, d[i].doc_group_id));
        if d[i].doc_group_id is Some {
            let gid = d[i].doc_group_id->0;
            assert(owned_key(v.groups, project_id, gid));
            let b = choose|b: int|
                0 <= b < v.groups.len() && (#[trigger] v.groups[b]).key() == gid
                    && v.groups[b].owner() == project_id;
            assert(group_in(project_id)(v.groups[b]));
            assert(g.contains(v.groups[b]));
            let j = choose|j: int| 0 <= j < g.len() && g[j] == v.groups[b];
            assert(g[j].id == gid);
            assert(0 < v.groups[b].key());
        }
        let o = d[i].sort_order->0;
        if o > 0 {
            lemma_dense_is_exact(slots, project_id, d[i].doc_group_id, (o - 1) as i64);
            let b = choose|b: int|
                0 <= b < slots.len() && ranked(#[trigger] slots[b], project_id, d[i].doc_group_id)
                    && slots[b].order == Some((o - 1) as i64);
            assert(slots[b] == doc_slot(table[b]));
            assert(doc_in(project_id)(table[b]));
            assert(d.contains(table[b]));
            let j = choose|j: int| 0 <= j < d.len() && d[j] == table[b];
            assert(d[j].doc_group_id == d[i].doc_group_id && d[j].sort_order == Some(
                (o - 1) as i64,
            ));
        }
    }
    assert forall|i: int, j: int| 0 <= i < d.len() && 0 <= j < d.len() && i != j implies (
    #[trigger] d[i]).id != (#[trigger] d[j]).id && (d[i].doc_group_id == d[j].doc_group_id
        ==> d[i].sort_order != d[j].sort_order) by {
        lemma_listing_ids_differ(d, table, doc_in(project_id), doc_key(), i, j);
        assert(table.contains(d[i]));
        assert(table.contains(d[j]));
        let a = choose|a: int| 0 <= a < table.len() && table[a] == d[i];
        let b = choose|b: int| 0 <= b < table.len() && table[b] == d[j];
        if d[i].doc_group_id == d[j].doc_group_id {
            assert(docs_dense_in(table, project_id, d[i].doc_group_id));
            assert(ranked(slots[a], project_id, d[i].doc_group_id));
            assert(ranked(slots[b], project_id, d[i].doc_group_id));
            if a < b {
                assert(slots[a].order != slots[b].order);
            } else if b < a {
                assert(slots[b].order != slots[a].order);
            }
        }
    }
}

/// The manifest is tidy and complete: its folders and documents are
/// tidy, its characters, events and places carry different identifiers,
/// and none of their names is blank.
pub open spec fn is_tidy_manifest(m: ManifestView) -> bool {
    &&& tidy_groups(m.groups)
    &&& tidy_docs(m.docs, m.groups)
    &&& forall|i: int| 0 <= i < m.characters.len() ==> !is_blank((#[trigger] m.characters[i]).name)
    &&& forall|i: int| 0 <= i < m.events.len() ==> !is_blank((#[trigger] m.events[i]).name)
    &&& forall|i: int| 0 <= i < m.places.len() ==> !is_blank((#[trigger] m.places[i]).name)
    &&& ids_differ(character_ids(m.characters))
    &&& ids_differ(event_ids(m.events))
    &&& ids_differ(place_ids(m.places))
}

/// No identifier occurs twice.
pub open spec fn ids_differ(ids: Seq<i64>) -> bool {
    forall|i: int, j: int|
        0 <= i < ids.len() && 0 <= j < ids.len() && i != j ==> #[trigger] ids[i] != #[trigger] ids[j]
}

/// The identifier that the first character created anew receives: the
/// counter after the project, the folders, the documents and the drafts
/// were created.
pub open spec fn cast_base(
    w: StoreView,
    m: ManifestView,
    now: Seq<char>,
    go: Seq<int>,
    dord: Seq<int>,
) -> i64 {
    let tree = StoreView { next_id: (w.next_id + 1 + go.len() + dord.len()) as i64, ..w };
    drafts_replayed(
        tree,
        m.drafts_by_doc,
        doc_pairs(m.docs, dord, (w.next_id + 1 + go.len()) as i64, dord.len()),
        now,
        m.drafts_by_doc.len(),
    ).next_id
}

/// The import of a tidy manifest in closed form: it runs to its end,
/// and it leaves, behind what the tables held, the mirror images of the
/// rows of the manifest.
pub open spec fn is_mirrored_import(
    w: StoreView,
    m: ManifestView,
    path: Seq<char>,
    now: Seq<char>,
    go: Seq<int>,
    dord: Seq<int>,
) -> bool {
    let out = imported(w, m, path, now, go, dord);
    let pid = w.next_id;
    let group_base = (w.next_id + 1) as i64;
    let doc_base = (w.next_id + 1 + go.len()) as i64;
    let cbase = cast_base(w, m, now, go, dord);
    let ebase = (cbase + m.characters.len()) as i64;
    let pbase = (ebase + m.events.len()) as i64;
    &&& out.complete
    &&& out.v.projects == project_added(w, m.project, path).projects
    &&& out.v.groups == with_mirrored(w.groups, m.groups, go, group_base, pid, go.len())
    &&& out.groups == group_pairs(m.groups, go, group_base, go.len())
    &&& out.v.docs == w.docs + mirrored_docs(
        m.docs,
        dord,
        m.groups,
        go,
        group_base,
        doc_base,
        pid,
        dord.len(),
    )
    &&& out.docs == doc_pairs(m.docs, dord, doc_base, dord.len())
    &&& out.v.characters == w.characters + mirrored_characters(
        m.characters,
        cbase,
        pid,
        m.characters.len(),
    )
    &&& out.characters == plain_pairs(character_ids(m.characters), cbase, m.characters.len())
    &&& out.v.events == w.events + mirrored_events(m.events, ebase, pid, m.events.len())
    &&& out.events == plain_pairs(event_ids(m.events), ebase, m.events.len())
    &&& out.v.places == w.places + mirrored_places(m.places, pbase, pid, m.places.len())
    &&& out.places == plain_pairs(place_ids(m.places), pbase, m.places.len())
    &&& out.v.doc_characters == links_replayed(
        w.doc_characters,
        m.doc_characters,
        out.docs,
        out.characters,
        m.doc_characters.len(),
    )
    &&& out.v.doc_events == links_replayed(
        w.doc_events,
        m.doc_events,
        out.docs,
        out.events,
        m.doc_events.len(),
    )
    &&& out.v.doc_places == links_replayed(
        w.doc_places,
        m.doc_places,
        out.docs,
        out.places,
        m.doc_places.len(),
    )
    &&& 0 < w.next_id
    &&& group_base == w.next_id + 1
    &&& doc_base == group_base + go.len()
    &&& doc_base + dord.len() <= cbase
    &&& ebase == cbase + m.characters.len()
    &&& pbase == ebase + m.events.len()
    &&& pbase + m.places.len() <= i64::MAX
}

/// The import of a tidy manifest comes out in closed form.
pub proof fn lemma_import_mirrors(
    w: StoreView,
    m: ManifestView,
    path: Seq<char>,
    now: Seq<char>,
    go: Seq<int>,
    dord: Seq<int>,
)
    requires
        w.wf(),
        is_tidy_manifest(m),
        has_import_room(w, m),
        are_import_orders(m, go, dord),
    ensures
        is_mirrored_import(w, m, path, now, go, dord),
{
    let pid = w.next_id;
    let v1 = project_added(w, m.project, path);
    lemma_selection_fits(m.groups.len(), go);
    assert(dord.len() == m.docs.len());
    crate::import::lemma_draft_total_grows(m.drafts_by_doc, 0, m.drafts_by_doc.len());
    lemma_groups_mirrored(v1, pid, m.groups, go, go.len());
    let (v2, gm) = groups_replayed(v1, pid, m.groups, go, go.len());
    lemma_docs_mirrored(v2, pid, m.docs, dord, m.groups, go, v1.next_id, dord.len());
    let (v3, dm) = docs_replayed(v2, pid, m.docs, dord, gm, dord.len());
    lemma_drafts_replayed_frame(v3, m.drafts_by_doc, dm, now, m.drafts_by_doc.len());
    let v4 = drafts_replayed(v3, m.drafts_by_doc, dm, now, m.drafts_by_doc.len());
    assert(v4.next_id == cast_base(w, m, now, go, dord)) by {
        let tree = StoreView { next_id: (w.next_id + 1 + go.len() + dord.len()) as i64, ..w };
        lemma_drafts_next(v3, tree, m.drafts_by_doc, dm, now, m.drafts_by_doc.len());
    }
    let cn = character_names(m.characters);
    assert forall|i: int| 0 <= i < cn.len() implies !is_blank(#[trigger] cn[i]) by {
        assert(cn[i] == m.characters[i].name);
    }
    lemma_clean_prefix(cn, cn.len() as int);
    lemma_characters_mirrored(v4, pid, m.characters, m.characters.len());
    let (v5, cm) = characters_replayed(v4, pid, m.characters, m.characters.len());
    let en = event_names(m.events);
    assert forall|i: int| 0 <= i < en.len() implies !is_blank(#[trigger] en[i]) by {
        assert(en[i] == m.events[i].name);
    }
    lemma_clean_prefix(en, en.len() as int);
    lemma_events_mirrored(v5, pid, m.events, m.events.len());
    let (v6, em) = events_replayed(v5, pid, m.events, m.events.len());
    let pn = place_names(m.places);
    assert forall|i: int| 0 <= i < pn.len() implies !is_blank(#[trigger] pn[i]) by {
        assert(pn[i] == m.places[i].name);
    }
    lemma_clean_prefix(pn, pn.len() as int);
    lemma_places_mirrored(v6, pid, m.places, m.places.len());
    let (v7, pm) = places_replayed(v6, pid, m.places, m.places.len());
    let v8 = StoreView {
        doc_characters: links_replayed(
            v7.doc_characters,
            m.doc_characters,
            dm,
            cm,
            m.doc_characters.len(),
        ),
        doc_events: links_replayed(v7.doc_events, m.doc_events, dm, em, m.doc_events.len()),
        doc_places: links_replayed(v7.doc_places, m.doc_places, dm, pm, m.doc_places.len()),
        ..v7
    };
    let v9 = match m.project_timeline {
        Some(t) => timeline_set(v8, "project"@, pid, t.start_date, t.end_date),
        None => v8,
    };
    lemma_timelines_replayed_frame(v9, m.doc_timelines, dm, m.doc_timelines.len());
}

/// The counter after the drafts of a manifest were created depends on
/// the counter before and on the drafts only.
pub proof fn lemma_drafts_next(
    a: StoreView,
    b: StoreView,
    entries: Seq<DocDraftsView>,
    doc_map: Seq<IdPair>,
    now: Seq<char>,
    k: nat,
)
    requires
        k <= entries.len(),
        a.next_id == b.next_id,
    ensures
        drafts_replayed(a, entries, doc_map, now, k).next_id == drafts_replayed(
            b,
            entries,
            doc_map,
            now,
            k,
        ).next_id,
    decreases k,
{
    if k > 0 {
        lemma_drafts_next(a, b, entries, doc_map, now, (k - 1) as nat);
        let wa = drafts_replayed(a, entries, doc_map, now, (k - 1) as nat);
        let wb = drafts_replayed(b, entries, doc_map, now, (k - 1) as nat);
        let e = entries[k - 1];
        if new_id_of(doc_map, e.doc_id) is Some {
            lemma_drafts_added_next(wa, wb, new_id_of(doc_map, e.doc_id)->0, e.drafts, now, e.drafts.len());
        }
    }
}

/// The counter after drafts were created depends on the counter before
/// and on the number of drafts only.
pub proof fn lemma_drafts_added_next(
    a: StoreView,
    b: StoreView,
    doc_id: i64,
    drafts: Seq<crate::models::DraftView>,
    now: Seq<char>,
    k: nat,
)
    requires
        k <= drafts.len(),
        a.next_id == b.next_id,
    ensures
        drafts_added(a, doc_id, drafts, now, k).next_id == drafts_added(
            b,
            doc_id,
            drafts,
            now,
            k,
        ).next_id,
    decreases k,
{
    if k > 0 {
        lemma_drafts_added_next(a, b, doc_id, drafts, now, (k - 1) as nat);
    }
}

/// The image of a reference: the new identifier of the row referred to.
pub open spec fn image_ref(f: Seq<IdPair>, r: Option<i64>) -> Option<i64> {
    match r {
        Some(x) => new_id_of(f, x),
        None => None,
    }
}

/// The image of a folder under the map `f`: the folder with its name
/// and its place, in the new project, below the image of its parent.
pub open spec fn image_group(g: DocGroupView, f: Seq<IdPair>, project_id: i64) -> DocGroupView {
    DocGroupView {
        id: new_id_of(f, g.id)->0,
        project_id,
        name: g.name,
        parent_id: image_ref(f, g.parent_id),
        sort_order: g.sort_order,
        notes: None,
    }
}

/// The image of a document under the maps: the document with its name,
/// its text, its notes and its place, in the new project, in the image
/// of its folder. A document without a name comes back as "Untitled",
/// one without a text with an empty text.
pub open spec fn image_doc(d: DocView, f: Seq<IdPair>, groups: Seq<IdPair>, project_id: i64) -> DocView {
    DocView {
        id: new_id_of(f, d.id)->0,
        project_id,
        path: Seq::empty(),
        name: Some(
            match d.name {
                Some(n) => n,
                None => "Untitled"@,
            },
        ),
        timeline_id: None,
        text: Some(
            match d.text {
                Some(t) => t,
                None => Seq::empty(),
            },
        ),
        notes: d.notes,
        doc_group_id: image_ref(groups, d.doc_group_id),
        sort_order: d.sort_order,
    }
}

/// The image of a character under the map.
pub open spec fn image_character(c: CharacterView, f: Seq<IdPair>, project_id: i64) -> CharacterView {
    CharacterView { id: new_id_of(f, c.id)->0, project_id, name: c.name, desc: c.desc }
}

/// The image of an event under the map.
pub open spec fn image_event(e: EventView, f: Seq<IdPair>, project_id: i64) -> EventView {
    EventView {
        id: new_id_of(f, e.id)->0,
        project_id,
        name: e.name,
        desc: e.desc,
        date: e.date,
        start_date: e.start_date,
        end_date: e.end_date,
    }
}

/// The image of a place under the map.
pub open spec fn image_place(p: PlaceView, f: Seq<IdPair>, project_id: i64) -> PlaceView {
    PlaceView { id: new_id_of(f, p.id)->0, project_id, name: p.name, desc: p.desc }
}

/// The table holds the row behind its first `from` rows.
pub open spec fn found_behind<R>(now: Seq<R>, from: int, r: R) -> bool {
    exists|x: int| from <= x < now.len() && #[trigger] now[x] == r
}

/// The table holds what it held and, behind that, exactly the images:
/// each image once, and nothing else.
pub open spec fn holds_images<R>(before: Seq<R>, now: Seq<R>, images: Seq<R>) -> bool {
    &&& now.len() == before.len() + images.len()
    &&& now.take(before.len() as int) == before
    &&& forall|i: int|
        0 <= i < images.len() ==> found_behind(now, before.len() as int, #[trigger] images[i])
    &&& forall|i: int, j: int|
        0 <= i < images.len() && 0 <= j < images.len() && i != j ==> #[trigger] images[i]
            != #[trigger] images[j]
}

/// The images of the folders of a manifest.
pub open spec fn group_images(g: Seq<DocGroupView>, f: Seq<IdPair>, project_id: i64) -> Seq<
    DocGroupView,
> {
    Seq::new(g.len(), |i: int| image_group(g[i], f, project_id))
}

/// The images of the documents of a manifest.
pub open spec fn doc_images(d: Seq<DocView>, f: Seq<IdPair>, groups: Seq<IdPair>, project_id: i64) -> Seq<
    DocView,
> {
    Seq::new(d.len(), |i: int| image_doc(d[i], f, groups, project_id))
}

/// The turns of the folders of a tidy manifest: each folder has one, and
/// no two have the same, so the order names every folder once.
pub proof fn lemma_turns(g: Seq<DocGroupView>, go: Seq<int>)
    requires
        tidy_groups(g),
        is_creation_order(g, go),
    ensures
        go.len() == g.len(),
        forall|i: int|
            0 <= i < g.len() ==> 0 <= #[trigger] turn_of(go, i) < go.len() && go[turn_of(go, i)]
                == i,
{
    let turns = Seq::new(g.len(), |i: int| turn_of(go, i));
    assert forall|i: int| 0 <= i < g.len() implies 0 <= #[trigger] turn_of(go, i) < go.len()
        && go[turn_of(go, i)] == i by {
        lemma_all_created(g, go, i);
    }
    assert forall|i: int| 0 <= i < turns.len() implies 0 <= #[trigger] turns[i] < go.len() by {
        assert(turns[i] == turn_of(go, i));
    }
    assert forall|i: int, j: int| 0 <= i < j < turns.len() implies #[trigger] turns[i]
        != #[trigger] turns[j] by {
        assert(go[turn_of(go, i)] == i);
        assert(go[turn_of(go, j)] == j);
    }
    lemma_selection_fits(go.len(), turns);
    lemma_selection_fits(g.len(), go);
}

/// The image of a folder of a tidy manifest is the mirror image that
/// was created at its turn.
pub proof fn lemma_group_image(
    g: Seq<DocGroupView>,
    go: Seq<int>,
    base: i64,
    project_id: i64,
    i: int,
)
    requires
        tidy_groups(g),
        is_creation_order(g, go),
        0 <= base,
        base + go.len() <= i64::MAX,
        0 <= i < g.len(),
    ensures
        0 <= turn_of(go, i) < go.len(),
        go[turn_of(go, i)] == i,
        image_group(g[i], group_pairs(g, go, base, go.len()), project_id) == mirrored_group(
            g,
            go,
            base,
            project_id,
            turn_of(go, i),
        ),
{
    lemma_all_created(g, go, i);
    let t = turn_of(go, i);
    lemma_pair_found(g, go, base, go.len(), t);
    if g[i].parent_id is Some {
        lemma_parent_turn(g, go, t);
        let tp = turn_of(go, entry_of(g, g[i].parent_id->0));
        lemma_pair_found(g, go, base, go.len(), tp);
    }
}

/// The folders of a tidy manifest come back: the table holds, behind
/// what it held, exactly their images.
pub proof fn lemma_folders_come_back(
    before: Seq<DocGroupView>,
    g: Seq<DocGroupView>,
    go: Seq<int>,
    base: i64,
    project_id: i64,
)
    requires
        tidy_groups(g),
        is_creation_order(g, go),
        0 <= base,
        base + go.len() <= i64::MAX,
    ensures
        holds_images(
            before,
            with_mirrored(before, g, go, base, project_id, go.len()),
            group_images(g, group_pairs(g, go, base, go.len()), project_id),
        ),
{
    let mirror = mirrored_groups(g, go, base, project_id, go.len());
    let f = group_pairs(g, go, base, go.len());
    let images = group_images(g, f, project_id);
    let turn = |i: int| turn_of(go, i);
    lemma_turns(g, go);
    assert forall|i: int| 0 <= i < images.len() implies 0 <= #[trigger] turn(i) < mirror.len()
        && images[i] == mirror[turn(i)] by {
        lemma_group_image(g, go, base, project_id, i);
    }
    assert forall|i: int, j: int|
        0 <= i < images.len() && 0 <= j < images.len() && i != j implies #[trigger] images[i]
        != #[trigger] images[j] by {
        lemma_group_images_differ(g, go, base, project_id, i, j);
    }
    lemma_images_held(before, mirror, images, turn);
}

/// The images of two folders of a tidy manifest differ.
pub proof fn lemma_group_images_differ(
    g: Seq<DocGroupView>,
    go: Seq<int>,
    base: i64,
    project_id: i64,
    i: int,
    j: int,
)
    requires
        tidy_groups(g),
        is_creation_order(g, go),
        0 <= base,
        base + go.len() <= i64::MAX,
        0 <= i < g.len(),
        0 <= j < g.len(),
        i != j,
    ensures
        image_group(g[i], group_pairs(g, go, base, go.len()), project_id) != image_group(
            g[j],
            group_pairs(g, go, base, go.len()),
            project_id,
        ),
{
    lemma_group_image(g, go, base, project_id, i);
    lemma_group_image(g, go, base, project_id, j);
    let a = mirrored_group(g, go, base, project_id, turn_of(go, i));
    let b = mirrored_group(g, go, base, project_id, turn_of(go, j));
    assert(a.id == base + turn_of(go, i));
    assert(b.id == base + turn_of(go, j));
}

/// In the pairs of a tidy manifest, the document created at turn `l` is
/// found by its old identifier.
pub proof fn lemma_doc_pair_found(d: Seq<DocView>, g: Seq<DocGroupView>, dord: Seq<int>, base: i64, k: nat, l: int)
    requires
        tidy_docs(d, g),
        is_reading(d.len(), dord),
        0 <= l < k <= dord.len(),
    ensures
        new_id_of(doc_pairs(d, dord, base, k), d[dord[l]].id) == Some((base + l) as i64),
    decreases k,
{
    let pairs = doc_pairs(d, dord, base, k);
    let last = k - 1;
    assert(pairs.last() == pairs[last]);
    if l != last {
        assert(dord[l] != dord[last]);
        assert(d[dord[l]].id != d[dord[last]].id);
        assert(pairs.drop_last() =~= doc_pairs(d, dord, base, (k - 1) as nat));
        lemma_doc_pair_found(d, g, dord, base, (k - 1) as nat, l);
    }
}

/// The turn at which the document at place `i` of the manifest is
/// created.
pub open spec fn doc_turn_of(dord: Seq<int>, i: int) -> int {
    choose|t: int| 0 <= t < dord.len() && dord[t] == i
}

/// The image of a document of a tidy manifest is the mirror image that
/// was created at its turn.
pub proof fn lemma_doc_image(
    d: Seq<DocView>,
    dord: Seq<int>,
    g: Seq<DocGroupView>,
    go: Seq<int>,
    group_base: i64,
    base: i64,
    project_id: i64,
    i: int,
)
    requires
        tidy_groups(g),
        is_creation_order(g, go),
        tidy_docs(d, g),
        is_stable_order(doc_seed_keys(d), dord),
        0 <= group_base,
        group_base + go.len() <= i64::MAX,
        0 <= base,
        base + dord.len() <= i64::MAX,
        0 <= i < d.len(),
    ensures
        0 <= doc_turn_of(dord, i) < dord.len(),
        dord[doc_turn_of(dord, i)] == i,
        image_doc(
            d[i],
            doc_pairs(d, dord, base, dord.len()),
            group_pairs(g, go, group_base, go.len()),
            project_id,
        ) == mirrored_doc(d, dord, g, go, group_base, base, project_id, doc_turn_of(dord, i)),
{
    lemma_reading_onto(d.len(), dord, i);
    let t = doc_turn_of(dord, i);
    lemma_doc_pair_found(d, g, dord, base, dord.len(), t);
    lemma_home_found(g, go, group_base, d[i]);
}

/// The images of two documents of a tidy manifest differ.
pub proof fn lemma_doc_images_differ(
    d: Seq<DocView>,
    dord: Seq<int>,
    g: Seq<DocGroupView>,
    go: Seq<int>,
    group_base: i64,
    base: i64,
    project_id: i64,
    i: int,
    j: int,
)
    requires
        tidy_groups(g),
        is_creation_order(g, go),
        tidy_docs(d, g),
        is_stable_order(doc_seed_keys(d), dord),
        0 <= group_base,
        group_base + go.len() <= i64::MAX,
        0 <= base,
        base + dord.len() <= i64::MAX,
        0 <= i < d.len(),
        0 <= j < d.len(),
        i != j,
    ensures
        image_doc(
            d[i],
            doc_pairs(d, dord, base, dord.len()),
            group_pairs(g, go, group_base, go.len()),
            project_id,
        ) != image_doc(
            d[j],
            doc_pairs(d, dord, base, dord.len()),
            group_pairs(g, go, group_base, go.len()),
            project_id,
        ),
{
    lemma_doc_image(d, dord, g, go, group_base, base, project_id, i);
    lemma_doc_image(d, dord, g, go, group_base, base, project_id, j);
    let a = mirrored_doc(d, dord, g, go, group_base, base, project_id, doc_turn_of(dord, i));
    let b = mirrored_doc(d, dord, g, go, group_base, base, project_id, doc_turn_of(dord, j));
    assert(a.id == base + doc_turn_of(dord, i));
    assert(b.id == base + doc_turn_of(dord, j));
}

/// A table that holds, behind what it held, rows of which each image is
/// one, and as many rows as there are images, holds exactly the images.
pub proof fn lemma_images_held<R>(
    before: Seq<R>,
    mirror: Seq<R>,
    images: Seq<R>,
    turn: spec_fn(int) -> int,
)
    requires
        mirror.len() == images.len(),
        forall|i: int|
            0 <= i < images.len() ==> 0 <= #[trigger] turn(i) < mirror.len() && images[i]
                == mirror[turn(i)],
        forall|i: int, j: int|
            0 <= i < images.len() && 0 <= j < images.len() && i != j ==> #[trigger] images[i]
                != #[trigger] images[j],
    ensures
        holds_images(before, before + mirror, images),
{
    let now = before + mirror;
    let n0 = before.len() as int;
    assert(now.take(n0) =~= before);
    assert forall|i: int| 0 <= i < images.len() implies found_behind(
        now,
        n0,
        #[trigger] images[i],
    ) by {
        let x = n0 + turn(i);
        assert(now[x] == mirror[turn(i)]);
    }
}

/// The documents of a tidy manifest come back: the table holds, behind
/// what it held, exactly their images.
pub proof fn lemma_docs_come_back(
    before: Seq<DocView>,
    d: Seq<DocView>,
    dord: Seq<int>,
    g: Seq<DocGroupView>,
    go: Seq<int>,
    group_base: i64,
    base: i64,
    project_id: i64,
)
    requires
        tidy_groups(g),
        is_creation_order(g, go),
        tidy_docs(d, g),
        is_stable_order(doc_seed_keys(d), dord),
        0 <= group_base,
        group_base + go.len() <= i64::MAX,
        0 <= base,
        base + dord.len() <= i64::MAX,
    ensures
        holds_images(
            before,
            before + mirrored_docs(d, dord, g, go, group_base, base, project_id, dord.len()),
            doc_images(
                d,
                doc_pairs(d, dord, base, dord.len()),
                group_pairs(g, go, group_base, go.len()),
                project_id,
            ),
        ),
{
    let mirror = mirrored_docs(d, dord, g, go, group_base, base, project_id, dord.len());
    let f = doc_pairs(d, dord, base, dord.len());
    let gf = group_pairs(g, go, group_base, go.len());
    let images = doc_images(d, f, gf, project_id);
    let turn = |i: int| doc_turn_of(dord, i);
    assert forall|i: int| 0 <= i < images.len() implies 0 <= #[trigger] turn(i) < mirror.len()
        && images[i] == mirror[turn(i)] by {
        lemma_doc_image(d, dord, g, go, group_base, base, project_id, i);
    }
    assert forall|i: int, j: int|
        0 <= i < images.len() && 0 <= j < images.len() && i != j implies #[trigger] images[i]
        != #[trigger] images[j] by {
        lemma_doc_images_differ(d, dord, g, go, group_base, base, project_id, i, j);
    }
    lemma_images_held(before, mirror, images, turn);
}

/// The images of the characters of a manifest.
pub open spec fn character_images(rows: Seq<CharacterView>, f: Seq<IdPair>, project_id: i64) -> Seq<
    CharacterView,
> {
    Seq::new(rows.len(), |i: int| image_character(rows[i], f, project_id))
}

/// The images of the events of a manifest.
pub open spec fn event_images(rows: Seq<EventView>, f: Seq<IdPair>, project_id: i64) -> Seq<
    EventView,
> {
    Seq::new(rows.len(), |i: int| image_event(rows[i], f, project_id))
}

/// The images of the places of a manifest.
pub open spec fn place_images(rows: Seq<PlaceView>, f: Seq<IdPair>, project_id: i64) -> Seq<
    PlaceView,
> {
    Seq::new(rows.len(), |i: int| image_place(rows[i], f, project_id))
}

/// The characters of a manifest come back: the table holds, behind what
/// it held, exactly their images.
pub proof fn lemma_characters_come_back(
    before: Seq<CharacterView>,
    rows: Seq<CharacterView>,
    base: i64,
    project_id: i64,
)
    requires
        ids_differ(character_ids(rows)),
        0 <= base,
        base + rows.len() <= i64::MAX,
    ensures
        holds_images(
            before,
            before + mirrored_characters(rows, base, project_id, rows.len()),
            character_images(rows, plain_pairs(character_ids(rows), base, rows.len()), project_id),
        ),
{
    let mirror = mirrored_characters(rows, base, project_id, rows.len());
    let ids = character_ids(rows);
    let f = plain_pairs(ids, base, rows.len());
    let images = character_images(rows, f, project_id);
    let turn = |i: int| i;
    assert forall|i: int| 0 <= i < images.len() implies 0 <= #[trigger] turn(i) < mirror.len()
        && images[i] == mirror[turn(i)] by {
        lemma_plain_pair_found(ids, base, rows.len(), i);
        assert(ids[i] == rows[i].id);
    }
    assert forall|i: int, j: int|
        0 <= i < images.len() && 0 <= j < images.len() && i != j implies #[trigger] images[i]
        != #[trigger] images[j] by {
        lemma_plain_pair_found(ids, base, rows.len(), i);
        lemma_plain_pair_found(ids, base, rows.len(), j);
        assert(ids[i] == rows[i].id && ids[j] == rows[j].id);
        assert(images[i].id == base + i);
        assert(images[j].id == base + j);
    }
    lemma_images_held(before, mirror, images, turn);
}

/// The events of a manifest come back: the table holds, behind what it
/// held, exactly their images.
pub proof fn lemma_events_come_back(
    before: Seq<EventView>,
    rows: Seq<EventView>,
    base: i64,
    project_id: i64,
)
    requires
        ids_differ(event_ids(rows)),
        0 <= base,
        base + rows.len() <= i64::MAX,
    ensures
        holds_images(
            before,
            before + mirrored_events(rows, base, project_id, rows.len()),
            event_images(rows, plain_pairs(event_ids(rows), base, rows.len()), project_id),
        ),
{
    let mirror = mirrored_events(rows, base, project_id, rows.len());
    let ids = event_ids(rows);
    let f = plain_pairs(ids, base, rows.len());
    let images = event_images(rows, f, project_id);
    let turn = |i: int| i;
    assert forall|i: int| 0 <= i < images.len() implies 0 <= #[trigger] turn(i) < mirror.len()
        && images[i] == mirror[turn(i)] by {
        lemma_plain_pair_found(ids, base, rows.len(), i);
        assert(ids[i] == rows[i].id);
    }
    assert forall|i: int, j: int|
        0 <= i < images.len() && 0 <= j < images.len() && i != j implies #[trigger] images[i]
        != #[trigger] images[j] by {
        lemma_plain_pair_found(ids, base, rows.len(), i);
        lemma_plain_pair_found(ids, base, rows.len(), j);
        assert(ids[i] == rows[i].id && ids[j] == rows[j].id);
        assert(images[i].id == base + i);
        assert(images[j].id == base + j);
    }
    lemma_images_held(before, mirror, images, turn);
}

/// The places of a manifest come back: the table holds, behind what it
/// held, exactly their images.
pub proof fn lemma_places_come_back(
    before: Seq<PlaceView>,
    rows: Seq<PlaceView>,
    base: i64,
    project_id: i64,
)
    requires
        ids_differ(place_ids(rows)),
        0 <= base,
        base + rows.len() <= i64::MAX,
    ensures
        holds_images(
            before,
            before + mirrored_places(rows, base, project_id, rows.len()),
            place_images(rows, plain_pairs(place_ids(rows), base, rows.len()), project_id),
        ),
{
    let mirror = mirrored_places(rows, base, project_id, rows.len());
    let ids = place_ids(rows);
    let f = plain_pairs(ids, base, rows.len());
    let images = place_images(rows, f, project_id);
    let turn = |i: int| i;
    assert forall|i: int| 0 <= i < images.len() implies 0 <= #[trigger] turn(i) < mirror.len()
        && images[i] == mirror[turn(i)] by {
        lemma_plain_pair_found(ids, base, rows.len(), i);
        assert(ids[i] == rows[i].id);
    }
    assert forall|i: int, j: int|
        0 <= i < images.len() && 0 <= j < images.len() && i != j implies #[trigger] images[i]
        != #[trigger] images[j] by {
        lemma_plain_pair_found(ids, base, rows.len(), i);
        lemma_plain_pair_found(ids, base, rows.len(), j);
        assert(ids[i] == rows[i].id && ids[j] == rows[j].id);
        assert(images[i].id == base + i);
        assert(images[j].id == base + j);
    }
    lemma_images_held(before, mirror, images, turn);
}

/// The links of a manifest come back: after they were made again, the
/// new document at turn `t` is linked to the new item at place `j`
/// exactly when the manifest lists the old item for the old document.
pub proof fn lemma_links_come_back(
    before: Seq<Link>,
    next: i64,
    entries: Seq<DocItemsView>,
    d: Seq<DocView>,
    g: Seq<DocGroupView>,
    dord: Seq<int>,
    doc_base: i64,
    items: Seq<i64>,
    item_base: i64,
    i: int,
    j: int,
)
    requires
        crate::store::links_below(before, next),
        next <= doc_base,
        tidy_docs(d, g),
        is_reading(d.len(), dord),
        doc_base + dord.len() <= i64::MAX,
        0 <= item_base,
        item_base + items.len() <= i64::MAX,
        ids_differ(items),
        entries.len() == d.len(),
        forall|e: int| 0 <= e < entries.len() ==> (#[trigger] entries[e]).doc_id == d[e].id,
        0 <= i < d.len(),
        0 <= j < items.len(),
    ensures
        linked(
            links_replayed(
                before,
                entries,
                doc_pairs(d, dord, doc_base, dord.len()),
                plain_pairs(items, item_base, items.len()),
                entries.len(),
            ),
            new_id_of(doc_pairs(d, dord, doc_base, dord.len()), d[i].id)->0,
            new_id_of(plain_pairs(items, item_base, items.len()), items[j])->0,
        ) == entries[i].items.contains(items[j]),
{
    let dm = doc_pairs(d, dord, doc_base, dord.len());
    let im = plain_pairs(items, item_base, items.len());
    lemma_reading_onto(d.len(), dord, i);
    let t = doc_turn_of(dord, i);
    lemma_doc_pair_found(d, g, dord, doc_base, dord.len(), t);
    lemma_plain_pair_found(items, item_base, items.len(), j);
    let a = (doc_base + t) as i64;
    let b = (item_base + j) as i64;
    lemma_links_replayed(before, entries, dm, im, entries.len(), a, b);
    if linked(before, a, b) {
        let w = choose|w: int| 0 <= w < before.len() && before[w] == (Link { owner: a, item: b });
        assert(before[w].owner < next);
    }
    if entries[i].items.contains(items[j]) {
        let x = choose|x: int| 0 <= x < entries[i].items.len() && entries[i].items[x] == items[j];
        assert(new_id_of(im, entries[i].items[x]) == Some(b));
        assert(item_made(entries[i].items, im, entries[i].items.len(), b));
        assert(new_id_of(dm, entries[i].doc_id) == Some(a));
        assert(link_made(entries, dm, im, entries.len(), a, b));
    }
    if link_made(entries, dm, im, entries.len(), a, b) {
        let e = choose|e: int|
            0 <= e < entries.len() && new_id_of(dm, (#[trigger] entries[e]).doc_id) == Some(a)
                && item_made(entries[e].items, im, entries[e].items.len(), b);
        lemma_reading_onto(d.len(), dord, e);
        let te = doc_turn_of(dord, e);
        lemma_doc_pair_found(d, g, dord, doc_base, dord.len(), te);
        assert(te == t);
        assert(e == i);
        let x = choose|x: int|
            0 <= x < entries[e].items.len() && new_id_of(im, #[trigger] entries[e].items[x]) == Some(
                b,
            );
        let y = entries[e].items[x];
        lemma_new_id_of(im, y);
        let p = choose|p: int| 0 <= p < im.len() && #[trigger] im[p] == (IdPair { old: y, new: b });
        assert(im[p].new == item_base + p);
        assert(p == j);
        assert(y == items[j]);
    }
}

/// The manifest of a whole project is tidy.
pub proof fn lemma_manifest_tidy(v: StoreView, project_id: i64, m: ManifestView, exported_at: Seq<char>)
    requires
        v.wf(),
        is_whole_project(v, project_id),
        is_manifest_of(m, v, project_id, exported_at),
    ensures
        is_tidy_manifest(m),
{
    lemma_groups_tidy(v, project_id, m.groups);
    lemma_docs_tidy(v, project_id, m.docs, m.groups);
    assert forall|i: int| 0 <= i < m.characters.len() implies !is_blank(
        (#[trigger] m.characters[i]).name,
    ) by {
        assert(v.characters.contains(m.characters[i]));
        let a = choose|a: int| 0 <= a < v.characters.len() && v.characters[a] == m.characters[i];
        assert(v.characters[a].project_id == project_id);
    }
    assert forall|i: int| 0 <= i < m.places.len() implies !is_blank((#[trigger] m.places[i]).name) by {
        assert(v.places.contains(m.places[i]));
        let a = choose|a: int| 0 <= a < v.places.len() && v.places[a] == m.places[i];
        assert(v.places[a].project_id == project_id);
    }
    let cids = character_ids(m.characters);
    assert forall|i: int, j: int|
        0 <= i < cids.len() && 0 <= j < cids.len() && i != j implies #[trigger] cids[i]
        != #[trigger] cids[j] by {
        lemma_listing_ids_differ(
            m.characters,
            v.characters,
            character_in(project_id),
            character_key(),
            i,
            j,
        );
    }
    let pids = place_ids(m.places);
    assert forall|i: int, j: int|
        0 <= i < pids.len() && 0 <= j < pids.len() && i != j implies #[trigger] pids[i]
        != #[trigger] pids[j] by {
        lemma_listing_ids_differ(m.places, v.places, place_in(project_id), place_key(), i, j);
    }
    let pred = event_in(project_id);
    lemma_kept_places(v.events, pred);
    let kp = kept_places(v.events, pred);
    assert forall|i: int| 0 <= i < m.events.len() implies !is_blank((#[trigger] m.events[i]).name) by {
        assert(m.events[i] == v.events[kp[i]]);
        assert(pred(v.events[kp[i]]));
    }
    let eids = event_ids(m.events);
    assert forall|i: int, j: int|
        0 <= i < eids.len() && 0 <= j < eids.len() && i != j implies #[trigger] eids[i]
        != #[trigger] eids[j] by {
        assert(m.events[i] == v.events[kp[i]]);
        assert(m.events[j] == v.events[kp[j]]);
        if i < j {
            assert(kp[i] < kp[j]);
            assert(v.events[kp[i]].key() < v.events[kp[j]].key());
        } else {
            assert(kp[j] < kp[i]);
            assert(v.events[kp[j]].key() < v.events[kp[i]].key());
        }
    }
}

/// The project came back: the import ran to its end, and the target
/// holds, behind what it held, a new project with the name, the
/// description and the notes of the old one, and exactly the images of
/// its folders, documents, characters, events and places; and a new
/// document is linked to a new character, event or place exactly when
/// the old document was linked to the old one.
pub open spec fn comes_back(
    v: StoreView,
    m: ManifestView,
    w: StoreView,
    out: ImportView,
    path: Seq<char>,
) -> bool {
    let pid = w.next_id;
    &&& out.complete
    &&& out.v.projects == w.projects.push(
        ProjectView {
            id: pid,
            name: m.project.name,
            desc: m.project.desc,
            path: Some(path),
            notes: m.project.notes,
            timeline_start: None,
            timeline_end: None,
        },
    )
    &&& holds_images(w.groups, out.v.groups, group_images(m.groups, out.groups, pid))
    &&& holds_images(w.docs, out.v.docs, doc_images(m.docs, out.docs, out.groups, pid))
    &&& holds_images(
        w.characters,
        out.v.characters,
        character_images(m.characters, out.characters, pid),
    )
    &&& holds_images(w.events, out.v.events, event_images(m.events, out.events, pid))
    &&& holds_images(w.places, out.v.places, place_images(m.places, out.places, pid))
    &&& forall|i: int, j: int|
        0 <= i < m.docs.len() && 0 <= j < m.characters.len() ==> linked(
            out.v.doc_characters,
            new_id_of(out.docs, (#[trigger] m.docs[i]).id)->0,
            new_id_of(out.characters, (#[trigger] m.characters[j]).id)->0,
        ) == linked(v.doc_characters, m.docs[i].id, m.characters[j].id)
    &&& forall|i: int, j: int|
        0 <= i < m.docs.len() && 0 <= j < m.events.len() ==> linked(
            out.v.doc_events,
            new_id_of(out.docs, (#[trigger] m.docs[i]).id)->0,
            new_id_of(out.events, (#[trigger] m.events[j]).id)->0,
        ) == linked(v.doc_events, m.docs[i].id, m.events[j].id)
    &&& forall|i: int, j: int|
        0 <= i < m.docs.len() && 0 <= j < m.places.len() ==> linked(
            out.v.doc_places,
            new_id_of(out.docs, (#[trigger] m.docs[i]).id)->0,
            new_id_of(out.places, (#[trigger] m.places[j]).id)->0,
        ) == linked(v.doc_places, m.docs[i].id, m.places[j].id)
}

/// The folders and documents of a tidy manifest come back.
pub proof fn lemma_tree_comes_back(
    w: StoreView,
    m: ManifestView,
    path: Seq<char>,
    now: Seq<char>,
    go: Seq<int>,
    dord: Seq<int>,
)
    requires
        is_tidy_manifest(m),
        is_mirrored_import(w, m, path, now, go, dord),
        are_import_orders(m, go, dord),
    ensures
        holds_images(
            w.groups,
            imported(w, m, path, now, go, dord).v.groups,
            group_images(m.groups, imported(w, m, path, now, go, dord).groups, w.next_id),
        ),
        holds_images(
            w.docs,
            imported(w, m, path, now, go, dord).v.docs,
            doc_images(
                m.docs,
                imported(w, m, path, now, go, dord).docs,
                imported(w, m, path, now, go, dord).groups,
                w.next_id,
            ),
        ),
{
    let pid = w.next_id;
    let group_base = (w.next_id + 1) as i64;
    let doc_base = (w.next_id + 1 + go.len()) as i64;
    lemma_folders_come_back(w.groups, m.groups, go, group_base, pid);
    lemma_docs_come_back(w.docs, m.docs, dord, m.groups, go, group_base, doc_base, pid);
}

/// The characters, events and places of a tidy manifest come back.
pub proof fn lemma_cast_comes_back(
    w: StoreView,
    m: ManifestView,
    path: Seq<char>,
    now: Seq<char>,
    go: Seq<int>,
    dord: Seq<int>,
)
    requires
        is_tidy_manifest(m),
        is_mirrored_import(w, m, path, now, go, dord),
    ensures
        holds_images(
            w.characters,
            imported(w, m, path, now, go, dord).v.characters,
            character_images(
                m.characters,
                imported(w, m, path, now, go, dord).characters,
                w.next_id,
            ),
        ),
        holds_images(
            w.events,
            imported(w, m, path, now, go, dord).v.events,
            event_images(m.events, imported(w, m, path, now, go, dord).events, w.next_id),
        ),
        holds_images(
            w.places,
            imported(w, m, path, now, go, dord).v.places,
            place_images(m.places, imported(w, m, path, now, go, dord).places, w.next_id),
        ),
{
    let pid = w.next_id;
    let cbase = cast_base(w, m, now, go, dord);
    let ebase = (cbase + m.characters.len()) as i64;
    let pbase = (ebase + m.events.len()) as i64;
    lemma_characters_come_back(w.characters, m.characters, cbase, pid);
    lemma_events_come_back(w.events, m.events, ebase, pid);
    lemma_places_come_back(w.places, m.places, pbase, pid);
}

/// One kind of link of a tidy manifest comes back.
pub proof fn lemma_kind_comes_back(
    source: Seq<Link>,
    before: Seq<Link>,
    next: i64,
    entries: Seq<DocItemsView>,
    d: Seq<DocView>,
    g: Seq<DocGroupView>,
    dord: Seq<int>,
    doc_base: i64,
    items: Seq<i64>,
    item_base: i64,
    i: int,
    j: int,
)
    requires
        crate::store::links_below(before, next),
        next <= doc_base,
        tidy_docs(d, g),
        is_reading(d.len(), dord),
        doc_base + dord.len() <= i64::MAX,
        0 <= item_base,
        item_base + items.len() <= i64::MAX,
        ids_differ(items),
        lists_links(entries, d, source),
        0 <= i < d.len(),
        0 <= j < items.len(),
    ensures
        linked(
            links_replayed(
                before,
                entries,
                doc_pairs(d, dord, doc_base, dord.len()),
                plain_pairs(items, item_base, items.len()),
                entries.len(),
            ),
            new_id_of(doc_pairs(d, dord, doc_base, dord.len()), d[i].id)->0,
            new_id_of(plain_pairs(items, item_base, items.len()), items[j])->0,
        ) == linked(source, d[i].id, items[j]),
{
    lemma_links_come_back(before, next, entries, d, g, dord, doc_base, items, item_base, i, j);
    assert(entries[i].items.contains(items[j]) <==> linked(source, d[i].id, items[j]));
}

/// The links of a tidy manifest come back.
pub proof fn lemma_all_links_come_back(
    v: StoreView,
    w: StoreView,
    m: ManifestView,
    path: Seq<char>,
    now: Seq<char>,
    go: Seq<int>,
    dord: Seq<int>,
)
    requires
        w.wf(),
        is_tidy_manifest(m),
        is_mirrored_import(w, m, path, now, go, dord),
        is_reading(m.docs.len(), dord),
        lists_links(m.doc_characters, m.docs, v.doc_characters),
        lists_links(m.doc_events, m.docs, v.doc_events),
        lists_links(m.doc_places, m.docs, v.doc_places),
    ensures
        forall|i: int, j: int|
            0 <= i < m.docs.len() && 0 <= j < m.characters.len() ==> linked(
                imported(w, m, path, now, go, dord).v.doc_characters,
                new_id_of(imported(w, m, path, now, go, dord).docs, (#[trigger] m.docs[i]).id)->0,
                new_id_of(
                    imported(w, m, path, now, go, dord).characters,
                    (#[trigger] m.characters[j]).id,
                )->0,
            ) == linked(v.doc_characters, m.docs[i].id, m.characters[j].id),
        forall|i: int, j: int|
            0 <= i < m.docs.len() && 0 <= j < m.events.len() ==> linked(
                imported(w, m, path, now, go, dord).v.doc_events,
                new_id_of(imported(w, m, path, now, go, dord).docs, (#[trigger] m.docs[i]).id)->0,
                new_id_of(imported(w, m, path, now, go, dord).events, (#[trigger] m.events[j]).id)->0,
            ) == linked(v.doc_events, m.docs[i].id, m.events[j].id),
        forall|i: int, j: int|
            0 <= i < m.docs.len() && 0 <= j < m.places.len() ==> linked(
                imported(w, m, path, now, go, dord).v.doc_places,
                new_id_of(imported(w, m, path, now, go, dord).docs, (#[trigger] m.docs[i]).id)->0,
                new_id_of(imported(w, m, path, now, go, dord).places, (#[trigger] m.places[j]).id)->0,
            ) == linked(v.doc_places, m.docs[i].id, m.places[j].id),
{
    let out = imported(w, m, path, now, go, dord);
    let doc_base = (w.next_id + 1 + go.len()) as i64;
    let cbase = cast_base(w, m, now, go, dord);
    let ebase = (cbase + m.characters.len()) as i64;
    let pbase = (ebase + m.events.len()) as i64;
    assert forall|i: int, j: int| 0 <= i < m.docs.len() && 0 <= j < m.characters.len() implies linked(
        out.v.doc_characters,
        new_id_of(out.docs, (#[trigger] m.docs[i]).id)->0,
        new_id_of(out.characters, (#[trigger] m.characters[j]).id)->0,
    ) == linked(v.doc_characters, m.docs[i].id, m.characters[j].id) by {
        let ids = character_ids(m.characters);
        assert(ids[j] == m.characters[j].id);
        lemma_kind_comes_back(
            v.doc_characters,
            w.doc_characters,
            w.next_id,
            m.doc_characters,
            m.docs,
            m.groups,
            dord,
            doc_base,
            ids,
            cbase,
            i,
            j,
        );
    }
    assert forall|i: int, j: int| 0 <= i < m.docs.len() && 0 <= j < m.events.len() implies linked(
        out.v.doc_events,
        new_id_of(out.docs, (#[trigger] m.docs[i]).id)->0,
        new_id_of(out.events, (#[trigger] m.events[j]).id)->0,
    ) == linked(v.doc_events, m.docs[i].id, m.events[j].id) by {
        let ids = event_ids(m.events);
        assert(ids[j] == m.events[j].id);
        lemma_kind_comes_back(
            v.doc_events,
            w.doc_events,
            w.next_id,
            m.doc_events,
            m.docs,
            m.groups,
            dord,
            doc_base,
            ids,
            ebase,
            i,
            j,
        );
    }
    assert forall|i: int, j: int| 0 <= i < m.docs.len() && 0 <= j < m.places.len() implies linked(
        out.v.doc_places,
        new_id_of(out.docs, (#[trigger] m.docs[i]).id)->0,
        new_id_of(out.places, (#[trigger] m.places[j]).id)->0,
    ) == linked(v.doc_places, m.docs[i].id, m.places[j].id) by {
        let ids = place_ids(m.places);
        assert(ids[j] == m.places[j].id);
        lemma_kind_comes_back(
            v.doc_places,
            w.doc_places,
            w.next_id,
            m.doc_places,
            m.docs,
            m.groups,
            dord,
            doc_base,
            ids,
            pbase,
            i,
            j,
        );
    }
}

/// The round trip: a whole project that is exported and then imported,
/// into any store that has room for it, comes back as it was but for
/// its identifiers: with its structure, names, texts, notes of
/// documents, characters, events, places and links.
pub proof fn lemma_round_trip(
    v: StoreView,
    project_id: i64,
    m: ManifestView,
    exported_at: Seq<char>,
    w: StoreView,
    path: Seq<char>,
    now: Seq<char>,
    group_order: Seq<int>,
    doc_order: Seq<int>,
)
    requires
        v.wf(),
        is_whole_project(v, project_id),
        is_manifest_of(m, v, project_id, exported_at),
        w.wf(),
        has_import_room(w, m),
        are_import_orders(m, group_order, doc_order),
    ensures
        comes_back(v, m, w, imported(w, m, path, now, group_order, doc_order), path),
{
    lemma_manifest_tidy(v, project_id, m, exported_at);
    lemma_import_mirrors(w, m, path, now, group_order, doc_order);
    lemma_tree_comes_back(w, m, path, now, group_order, doc_order);
    lemma_cast_comes_back(w, m, path, now, group_order, doc_order);
    lemma_all_links_come_back(v, w, m, path, now, group_order, doc_order);
}

} // verus!
