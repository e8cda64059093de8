//! The order in which the folders of a manifest are created anew.
//!
//! A folder can only be created below a parent that exists, so parents
//! come first: the top-level folders are created in their order, and
//! then, for each folder created, its children in their order. The
//! children of one parent are always created together.

use vstd::prelude::*;
use crate::models::{DocGroup, DocGroupView};
use crate::sorting::{
    is_stable_order, key_le, keys_view, lemma_reading_onto, places_view, stable_order,
};

verus! {

/// The place that a folder of a manifest takes among its siblings when
/// it has no sort order: the first.
pub open spec fn seed_order(g: DocGroupView) -> i64 {
    match g.sort_order {
        Some(o) => o,
        None => 0i64,
    }
}

/// Of two folders of a manifest, the one at place `a` is created before
/// the one at place `b` when both have one parent: it has the lower sort
/// order, or the same and stands earlier in the manifest.
pub open spec fn comes_first(g: Seq<DocGroupView>, a: int, b: int) -> bool {
    seed_order(g[a]) < seed_order(g[b]) || (seed_order(g[a]) == seed_order(g[b]) && a < b)
}

/// `order` names places of the manifest, each at most once.
pub open spec fn is_selection(len: nat, order: Seq<int>) -> bool {
    &&& forall|k: int| 0 <= k < order.len() ==> 0 <= #[trigger] order[k] < len
    &&& forall|k: int, l: int| 0 <= k < l < order.len() ==> #[trigger] order[k] != #[trigger] order[l]
}

/// Every folder in `order` with a parent comes behind a folder that
/// carries the identifier of that parent.
pub open spec fn parents_lead(g: Seq<DocGroupView>, order: Seq<int>) -> bool {
    forall|k: int|
        0 <= k < order.len() ==> ((#[trigger] g[order[k]]).parent_id matches Some(p) ==> exists|
            l: int,
        | 0 <= l < k && (#[trigger] g[order[l]]).id == p)
}

/// The folders in `order` that have one parent stand in their order.
pub open spec fn siblings_in_order(g: Seq<DocGroupView>, order: Seq<int>) -> bool {
    forall|k: int, l: int|
        0 <= k < l < order.len() && g[#[trigger] order[k]].parent_id == g[#[trigger] order[l]].parent_id
            ==> comes_first(g, order[k], order[l])
}

/// `order` leaves out no folder that can be created: no top-level
/// folder, and no child of a folder that it names.
pub open spec fn reaches_all(g: Seq<DocGroupView>, order: Seq<int>) -> bool {
    &&& forall|i: int| 0 <= i < g.len() && (#[trigger] g[i]).parent_id is None ==> order.contains(i)
    &&& forall|i: int, k: int|
        0 <= i < g.len() && 0 <= k < order.len() && (#[trigger] g[i]).parent_id == Some(
            (#[trigger] g[order[k]]).id,
        ) ==> order.contains(i)
}

/// `order` is an order in which the folders of the manifest can be
/// created anew: parents first, siblings in their order, and every
/// folder that hangs, through its parents, on a top-level folder.
pub open spec fn is_creation_order(g: Seq<DocGroupView>, order: Seq<int>) -> bool {
    &&& is_selection(g.len(), order)
    &&& parents_lead(g, order)
    &&& siblings_in_order(g, order)
    &&& reaches_all(g, order)
}

/// The number of places that are not marked.
pub open spec fn unmarked(marks: Seq<bool>) -> nat
    decreases marks.len(),
{
    if marks.len() == 0 {
        0
    } else {
        unmarked(marks.drop_last()) + if marks.last() {
            0nat
        } else {
            1nat
        }
    }
}

/// Marking a place that was not marked leaves one place less unmarked.
pub proof fn lemma_unmarked_update(marks: Seq<bool>, i: int)
    requires
        0 <= i < marks.len(),
        !marks[i],
    ensures
        unmarked(marks.update(i, true)) + 1 == unmarked(marks),
    decreases marks.len(),
{
    let after = marks.update(i, true);
    if i == marks.len() - 1 {
        assert(after.drop_last() =~= marks.drop_last());
    } else {
        assert(after.drop_last() =~= marks.drop_last().update(i, true));
        lemma_unmarked_update(marks.drop_last(), i);
    }
}

/// The folders that are not yet created and have the parent `parent`,
/// in the order in which they are to be created.
pub fn pending_children(groups: &Vec<DocGroup>, parent: Option<i64>, created: &Vec<bool>) -> (r: Vec<
    usize,
>)
    requires
        created.len() == groups.len(),
    ensures
        forall|u: int|
            0 <= u < r.len() ==> #[trigger] r[u] < groups.len() && !created[r[u] as int]
                && groups.deep_view()[r[u] as int].parent_id == parent,
        forall|u: int, w: int|
            0 <= u < w < r.len() ==> comes_first(
                groups.deep_view(),
                #[trigger] r[u] as int,
                #[trigger] r[w] as int,
            ),
        forall|i: int|
            0 <= i < groups.len() && !created[i] && (#[trigger] groups.deep_view()[i]).parent_id
                == parent ==> r@.contains(i as usize),
{
    let ghost g = groups.deep_view();
    let mut picked: Vec<usize> = Vec::new();
    let mut keys: Vec<Vec<i64>> = Vec::new();
    let mut i: usize = 0;
    while i < groups.len()
        invariant
            i <= groups.len(),
            created.len() == groups.len(),
            g == groups.deep_view(),
            keys.len() == picked.len(),
            forall|m: int|
                0 <= m < picked.len() ==> #[trigger] picked[m] < i && !created[picked[m] as int]
                    && g[picked[m] as int].parent_id == parent,
            forall|m: int, n: int|
                0 <= m < n < picked.len() ==> #[trigger] picked[m] < #[trigger] picked[n],
            forall|j: int|
                0 <= j < i && !created[j] && (#[trigger] g[j]).parent_id == parent
                    ==> picked@.contains(j as usize),
            forall|m: int|
                0 <= m < picked.len() ==> (#[trigger] keys[m])@ == seq![
                    seed_order(g[picked[m] as int]),
                ],
        decreases groups.len() - i,
    {
        if !created[i] && groups[i].parent_id == parent {
            let ghost before = picked@;
            let mut key: Vec<i64> = Vec::new();
            key.push(
                match groups[i].sort_order {
                    Some(o) => o,
                    None => 0,
                },
            );
            assert(key@ =~= seq![seed_order(g[i as int])]);
            picked.push(i);
            keys.push(key);
            proof {
                assert forall|j: int|
                    0 <= j < i + 1 && !created[j] && (#[trigger] g[j]).parent_id
                        == parent implies picked@.contains(j as usize) by {
                    if j < i {
                        assert(before.contains(j as usize));
                        let m = choose|m: int| 0 <= m < before.len() && before[m] == j as usize;
                        assert(picked@[m] == j as usize);
                    } else {
                        assert(picked@[picked.len() - 1] == j as usize);
                    }
                }
            }
        }
        i += 1;
    }
    let ord = stable_order(&keys);
    let ghost kv = keys_view(keys@);
    let ghost ov = places_view(ord@);
    let mut out: Vec<usize> = Vec::new();
    let mut u: usize = 0;
    while u < ord.len()
        invariant
            u <= ord.len(),
            ord.len() == picked.len(),
            ov == places_view(ord@),
            is_stable_order(kv, ov),
            kv.len() == picked.len(),
            out.len() == u,
            forall|w: int| 0 <= w < u ==> #[trigger] out[w] == picked[ord[w] as int],
        decreases ord.len() - u,
    {
        assert(ov[u as int] == ord[u as int]);
        out.push(picked[ord[u]]);
        u += 1;
    }
    proof {
        assert forall|w: int| 0 <= w < out.len() implies #[trigger] out[w] < groups.len()
            && !created[out[w] as int] && g[out[w] as int].parent_id == parent by {
            assert(ov[w] == ord[w]);
        }
        assert forall|a: int, b: int| 0 <= a < b < out.len() implies comes_first(
            g,
            #[trigger] out[a] as int,
            #[trigger] out[b] as int,
        ) by {
            assert(ov[a] == ord[a]);
            assert(ov[b] == ord[b]);
            let ma = ov[a];
            let mb = ov[b];
            assert(kv[ma] == keys[ma]@);
            assert(kv[mb] == keys[mb]@);
            assert(key_le(kv[ma], kv[mb]));
            reveal_with_fuel(key_le, 3);
            let ka = seed_order(g[picked[ma] as int]);
            let kb = seed_order(g[picked[mb] as int]);
            assert(kv[ma][0] == ka);
            assert(kv[mb][0] == kb);
            if ka == kb {
                assert(kv[ma] =~= kv[mb]);
                assert(ma < mb);
                assert(picked[ma] < picked[mb]);
            }
        }
        assert forall|i: int|
            0 <= i < groups.len() && !created[i] && (#[trigger] g[i]).parent_id
                == parent implies out@.contains(i as usize) by {
            assert(picked@.contains(i as usize));
            let m = choose|m: int| 0 <= m < picked.len() && picked[m] == i as usize;
            lemma_reading_onto(keys.len() as nat, ov, m);
            let w = choose|w: int| 0 <= w < ov.len() && ov[w] == m;
            assert(ov[w] == ord[w]);
            assert(out@[w] == i as usize);
        }
    }
    out
}

/// The folders marked as created are those that `order` names.
pub open spec fn marks_match(created: Seq<bool>, order: Seq<int>) -> bool {
    forall|i: int| 0 <= i < created.len() ==> (#[trigger] created[i] <==> order.contains(i))
}

/// Of the folders that have one parent, all are created or none is.
pub open spec fn all_or_none(g: Seq<DocGroupView>, created: Seq<bool>) -> bool {
    forall|i: int, j: int|
        0 <= i < g.len() && 0 <= j < g.len() && (#[trigger] g[i]).parent_id == (
        #[trigger] g[j]).parent_id ==> created[i] == created[j]
}

/// What holds of the plan between two rounds of creation.
pub open spec fn plan_sound(g: Seq<DocGroupView>, created: Seq<bool>, order: Seq<int>) -> bool {
    &&& created.len() == g.len()
    &&& is_selection(g.len(), order)
    &&& marks_match(created, order)
    &&& parents_lead(g, order)
    &&& siblings_in_order(g, order)
    &&& all_or_none(g, created)
}

/// The identifiers of the folders that `order` names from place `from`
/// on.
pub open spec fn ids_from(g: Seq<DocGroupView>, order: Seq<int>, from: int) -> Seq<i64> {
    Seq::new((order.len() - from) as nat, |t: int| g[order[from + t]].id)
}

/// What a round of creation finds: the folders with the parent
/// `parent` that are not yet created, all of them, in their order.
pub open spec fn is_round(
    g: Seq<DocGroupView>,
    created: Seq<bool>,
    parent: Option<i64>,
    list: Seq<int>,
) -> bool {
    &&& forall|w: int|
        0 <= w < list.len() ==> 0 <= #[trigger] list[w] < g.len() && !created[list[w]]
            && g[list[w]].parent_id == parent
    &&& forall|a: int, b: int|
        0 <= a < b < list.len() ==> comes_first(g, #[trigger] list[a], #[trigger] list[b])
    &&& forall|i: int|
        0 <= i < g.len() && !created[i] && (#[trigger] g[i]).parent_id == parent
            ==> list.contains(i)
}

/// Where a round finds a folder, no folder with that parent was created
/// before.
pub proof fn lemma_round_starts_fresh(
    g: Seq<DocGroupView>,
    created0: Seq<bool>,
    order0: Seq<int>,
    parent: Option<i64>,
    list: Seq<int>,
)
    requires
        plan_sound(g, created0, order0),
        is_round(g, created0, parent, list),
        list.len() > 0,
    ensures
        forall|k: int| 0 <= k < order0.len() ==> (#[trigger] g[order0[k]]).parent_id != parent,
{
    let c = list[0];
    assert forall|k: int| 0 <= k < order0.len() implies (#[trigger] g[order0[k]]).parent_id
        != parent by {
        assert(order0.contains(order0[k]));
        assert(created0[order0[k]]);
        if g[order0[k]].parent_id == parent {
            assert(g[order0[k]].parent_id == g[c].parent_id);
            assert(created0[order0[k]] == created0[c]);
        }
    }
}

/// After a round, the order still names every place at most once, and
/// the marks still match it.
pub proof fn lemma_round_selection(
    g: Seq<DocGroupView>,
    created0: Seq<bool>,
    order0: Seq<int>,
    parent: Option<i64>,
    list: Seq<int>,
    created: Seq<bool>,
)
    requires
        plan_sound(g, created0, order0),
        is_round(g, created0, parent, list),
        created.len() == g.len(),
        forall|i: int|
            0 <= i < g.len() ==> #[trigger] created[i] == (created0[i] || list.contains(i)),
    ensures
        is_selection(g.len(), order0 + list),
        marks_match(created, order0 + list),
{
    let now = order0 + list;
    let len0 = order0.len() as int;
    assert forall|k: int, l: int| 0 <= k < l < now.len() implies #[trigger] now[k]
        != #[trigger] now[l] by {
        if l < len0 {
            assert(now[k] == order0[k] && now[l] == order0[l]);
        } else if k < len0 {
            assert(now[k] == order0[k]);
            assert(order0.contains(order0[k]));
            assert(created0[order0[k]]);
            assert(now[l] == list[l - len0]);
        } else {
            assert(now[k] == list[k - len0]);
            assert(now[l] == list[l - len0]);
            assert(comes_first(g, list[k - len0], list[l - len0]));
        }
    }
    assert forall|k: int| 0 <= k < now.len() implies 0 <= #[trigger] now[k] < g.len() by {
        if k < len0 {
            assert(now[k] == order0[k]);
        } else {
            assert(now[k] == list[k - len0]);
        }
    }
    assert forall|i: int| 0 <= i < created.len() implies (#[trigger] created[i] <==> now.contains(
        i,
    )) by {
        if created[i] {
            if created0[i] {
                assert(order0.contains(i));
                let k = choose|k: int| 0 <= k < order0.len() && order0[k] == i;
                assert(now[k] == i);
            } else {
                let t = choose|t: int| 0 <= t < list.len() && list[t] == i;
                assert(now[len0 + t] == i);
            }
        }
        if now.contains(i) {
            let k = choose|k: int| 0 <= k < now.len() && now[k] == i;
            if k < len0 {
                assert(order0[k] == i);
                assert(order0.contains(i));
            } else {
                assert(list[k - len0] == i);
                assert(list.contains(i));
            }
        }
    }
}

/// After a round, parents still lead and siblings still stand in their
/// order.
pub proof fn lemma_round_order(
    g: Seq<DocGroupView>,
    created0: Seq<bool>,
    order0: Seq<int>,
    parent: Option<i64>,
    list: Seq<int>,
)
    requires
        plan_sound(g, created0, order0),
        is_round(g, created0, parent, list),
        parent is Some ==> exists|l: int|
            0 <= l < order0.len() && (#[trigger] g[order0[l]]).id == parent->0,
    ensures
        parents_lead(g, order0 + list),
        siblings_in_order(g, order0 + list),
{
    let now = order0 + list;
    let len0 = order0.len() as int;
    if list.len() > 0 {
        lemma_round_starts_fresh(g, created0, order0, parent, list);
    }
    assert forall|k: int| 0 <= k < now.len() implies ((#[trigger] g[now[k]]).parent_id matches Some(
        p,
    ) ==> exists|l: int| 0 <= l < k && (#[trigger] g[now[l]]).id == p) by {
        if k < len0 {
            assert(now[k] == order0[k]);
            if g[order0[k]].parent_id is Some {
                let p = g[order0[k]].parent_id->0;
                let l = choose|l: int| 0 <= l < k && (#[trigger] g[order0[l]]).id == p;
                assert(now[l] == order0[l]);
                assert(0 <= l < k && g[now[l]].id == p);
            }
        } else {
            assert(now[k] == list[k - len0]);
            if parent is Some {
                let p = parent->0;
                let l = choose|l: int| 0 <= l < len0 && (#[trigger] g[order0[l]]).id == p;
                assert(now[l] == order0[l]);
                assert(0 <= l < k && g[now[l]].id == p);
            }
        }
    }
    assert forall|k: int, l: int|
        0 <= k < l < now.len() && g[#[trigger] now[k]].parent_id == g[#[trigger] now[l]].parent_id implies comes_first(
        g,
        now[k],
        now[l],
    ) by {
        if l < len0 {
            assert(now[k] == order0[k] && now[l] == order0[l]);
        } else if k < len0 {
            assert(now[k] == order0[k]);
            assert(now[l] == list[l - len0]);
            assert(g[order0[k]].parent_id != parent);
        } else {
            assert(now[k] == list[k - len0]);
            assert(now[l] == list[l - len0]);
            assert(comes_first(g, list[k - len0], list[l - len0]));
        }
    }
}

/// After a round, the folders with the parent of the round are all
/// created, and of the folders with any one parent all are created or
/// none is.
pub proof fn lemma_round_marks(
    g: Seq<DocGroupView>,
    created0: Seq<bool>,
    order0: Seq<int>,
    parent: Option<i64>,
    list: Seq<int>,
    created: Seq<bool>,
)
    requires
        plan_sound(g, created0, order0),
        is_round(g, created0, parent, list),
        created.len() == g.len(),
        forall|i: int|
            0 <= i < g.len() ==> #[trigger] created[i] == (created0[i] || list.contains(i)),
    ensures
        all_or_none(g, created),
        forall|i: int| 0 <= i < g.len() && (#[trigger] g[i]).parent_id == parent ==> created[i],
{
    assert forall|i: int|
        0 <= i < g.len() && (#[trigger] g[i]).parent_id == parent implies created[i] by {
        if !created0[i] {
            assert(list.contains(i));
        }
    }
    assert forall|i: int, j: int|
        0 <= i < g.len() && 0 <= j < g.len() && (#[trigger] g[i]).parent_id == (
        #[trigger] g[j]).parent_id implies created[i] == created[j] by {
        assert(created0[i] == created0[j]);
        if g[i].parent_id != parent {
            if list.contains(i) {
                let t = choose|t: int| 0 <= t < list.len() && list[t] == i;
                assert(g[list[t]].parent_id == parent);
            }
            if list.contains(j) {
                let t = choose|t: int| 0 <= t < list.len() && list[t] == j;
                assert(g[list[t]].parent_id == parent);
            }
        }
    }
}

/// One round of creation: puts the folders with the parent `parent`
/// that are not yet created behind the others, in their order, and
/// notes their identifiers as parents whose children are due.
pub fn create_children(
    groups: &Vec<DocGroup>,
    parent: Option<i64>,
    created: &mut Vec<bool>,
    order: &mut Vec<usize>,
    due: &mut Vec<i64>,
)
    requires
        plan_sound(groups.deep_view(), old(created)@, places_view(old(order)@)),
        parent matches Some(p) ==> exists|l: int|
            0 <= l < old(order).len() && (#[trigger] groups.deep_view()[places_view(
                old(order)@,
            )[l]]).id == p,
    ensures
        plan_sound(groups.deep_view(), final(created)@, places_view(final(order)@)),
        forall|i: int|
            0 <= i < groups.len() && (#[trigger] groups.deep_view()[i]).parent_id == parent
                ==> final(created)[i],
        forall|i: int| 0 <= i < groups.len() && old(created)[i] ==> #[trigger] final(created)[i],
        final(order).len() >= old(order).len(),
        places_view(final(order)@).take(old(order).len() as int) == places_view(old(order)@),
        final(due)@ == old(due)@ + ids_from(
            groups.deep_view(),
            places_view(final(order)@),
            old(order).len() as int,
        ),
        unmarked(final(created)@) + (final(order).len() - old(order).len()) == unmarked(
            old(created)@,
        ),
{
    let ghost g = groups.deep_view();
    let ghost created0 = created@;
    let ghost order0 = places_view(order@);
    let ghost due0 = due@;
    let ghost len0 = order.len() as int;
    let list = pending_children(groups, parent, created);
    let ghost lv = places_view(list@);
    proof {
        assert(is_round(g, created0, parent, lv)) by {
            assert forall|i: int|
                0 <= i < g.len() && !created0[i] && (#[trigger] g[i]).parent_id
                    == parent implies lv.contains(i) by {
                assert(list@.contains(i as usize));
                let t = choose|t: int| 0 <= t < list@.len() && list@[t] == i as usize;
                assert(lv[t] == i);
            }
        }
        assert(due@ =~= due0 + ids_from(g, places_view(order@), len0));
        assert(lv.take(0) =~= Seq::<int>::empty());
        assert(places_view(order@) =~= order0 + lv.take(0));
    }
    let mut u: usize = 0;
    while u < list.len()
        invariant
            u <= list.len(),
            g == groups.deep_view(),
            lv == places_view(list@),
            created.len() == g.len(),
            created0.len() == g.len(),
            len0 == order0.len(),
            places_view(order@) == order0 + lv.take(u as int),
            forall|i: int|
                0 <= i < g.len() ==> #[trigger] created[i] == (created0[i] || lv.take(
                    u as int,
                ).contains(i)),
            due@ == due0 + ids_from(g, places_view(order@), len0),
            unmarked(created@) + u == unmarked(created0),
            is_round(g, created0, parent, lv),
        decreases list.len() - u,
    {
        let c = list[u];
        let ghost marks = created@;
        let ghost before_due = due@;
        let ghost before_order = places_view(order@);
        proof {
            assert(lv[u as int] == c as int);
            let a = lv.take(u as int);
            if a.contains(c as int) {
                let t = choose|t: int| 0 <= t < u && a[t] == c as int;
                assert(lv[t] == c as int);
                assert(comes_first(g, lv[t], lv[u as int]));
            }
            assert(!created[c as int]);
            lemma_unmarked_update(marks, c as int);
        }
        created.set(c, true);
        order.push(c);
        due.push(groups[c].id);
        proof {
            let now = places_view(order@);
            assert(created@ =~= marks.update(c as int, true));
            let a = lv.take(u as int);
            let b = lv.take(u + 1);
            assert(b =~= a.push(c as int));
            assert(b[u as int] == c as int);
            assert(now =~= order0 + b) by {
                let want = order0 + b;
                assert(now.len() == want.len());
                assert forall|x: int| 0 <= x < now.len() implies now[x] == want[x] by {
                    if x < before_order.len() {
                        assert(now[x] == before_order[x]);
                        assert(before_order[x] == (order0 + a)[x]);
                    }
                }
            }
            assert forall|i: int| 0 <= i < g.len() implies #[trigger] created[i] == (created0[i]
                || b.contains(i)) by {
                if a.contains(i) {
                    let t = choose|t: int| 0 <= t < a.len() && a[t] == i;
                    assert(b[t] == i);
                }
                if b.contains(i) {
                    let t = choose|t: int| 0 <= t < b.len() && b[t] == i;
                    if t < u {
                        assert(a[t] == i);
                        assert(a.contains(i));
                    }
                }
            }
            assert(due@ =~= due0 + ids_from(g, now, len0)) by {
                let want = due0 + ids_from(g, now, len0);
                assert(due@.len() == want.len());
                assert forall|x: int| 0 <= x < due@.len() implies due@[x] == want[x] by {
                    if x < before_due.len() {
                        assert(due@[x] == before_due[x]);
                        if x >= due0.len() {
                            let t = x - due0.len();
                            assert(before_order[len0 + t] == now[len0 + t]);
                        }
                    } else {
                        assert(now[len0 + u] == c as int);
                    }
                }
            }
        }
        u += 1;
    }
    proof {
        let now = places_view(order@);
        assert(lv.take(list.len() as int) =~= lv);
        assert(now.take(len0) =~= order0);
        lemma_round_selection(g, created0, order0, parent, lv, created@);
        lemma_round_order(g, created0, order0, parent, lv);
        lemma_round_marks(g, created0, order0, parent, lv, created@);
    }
}

/// A folder of the order carries the identifier.
pub open spec fn names_id(g: Seq<DocGroupView>, order: Seq<int>, id: i64) -> bool {
    exists|l: int| 0 <= l < order.len() && (#[trigger] g[order[l]]).id == id
}

/// Every parent whose children are due is a folder of the order.
pub open spec fn due_are_created(g: Seq<DocGroupView>, order: Seq<int>, due: Seq<i64>) -> bool {
    forall|s: int| 0 <= s < due.len() ==> names_id(g, order, #[trigger] due[s])
}

/// Of every folder of the order, the children are created or due.
pub open spec fn children_settled(
    g: Seq<DocGroupView>,
    created: Seq<bool>,
    order: Seq<int>,
    due: Seq<i64>,
) -> bool {
    forall|k: int, i: int|
        0 <= k < order.len() && 0 <= i < g.len() && (#[trigger] g[i]).parent_id == Some(
            (#[trigger] g[order[k]]).id,
        ) ==> created[i] || due.contains(g[order[k]].id)
}

/// After the first round, the children of every folder of the order
/// are due.
pub proof fn lemma_first_round_settles(
    g: Seq<DocGroupView>,
    created: Seq<bool>,
    order: Seq<int>,
    due: Seq<i64>,
)
    requires
        is_selection(g.len(), order),
        created.len() == g.len(),
        due == ids_from(g, order, 0),
    ensures
        due_are_created(g, order, due),
        children_settled(g, created, order, due),
{
    assert forall|s: int| 0 <= s < due.len() implies names_id(g, order, #[trigger] due[s]) by {
        assert(g[order[s]].id == due[s]);
    }
    assert forall|k: int, i: int|
        0 <= k < order.len() && 0 <= i < g.len() && (#[trigger] g[i]).parent_id == Some(
            (#[trigger] g[order[k]]).id,
        ) implies created[i] || due.contains(g[order[k]].id) by {
        assert(due[k] == g[order[k]].id);
    }
}

/// After a round for the parent that was due last, the children of
/// every folder of the order are created or due.
pub proof fn lemma_round_settles(
    g: Seq<DocGroupView>,
    before_marks: Seq<bool>,
    before_order: Seq<int>,
    before_due: Seq<i64>,
    marks: Seq<bool>,
    order: Seq<int>,
    due: Seq<i64>,
)
    requires
        before_due.len() > 0,
        due_are_created(g, before_order, before_due),
        children_settled(g, before_marks, before_order, before_due),
        is_selection(g.len(), order),
        order.len() >= before_order.len(),
        order.take(before_order.len() as int) == before_order,
        due == before_due.drop_last() + ids_from(g, order, before_order.len() as int),
        marks.len() == g.len(),
        before_marks.len() == g.len(),
        forall|i: int| 0 <= i < g.len() && before_marks[i] ==> #[trigger] marks[i],
        forall|i: int|
            0 <= i < g.len() && (#[trigger] g[i]).parent_id == Some(before_due.last())
                ==> marks[i],
    ensures
        due_are_created(g, order, due),
        children_settled(g, marks, order, due),
{
    let p = before_due.last();
    let rest = before_due.drop_last();
    let len0 = before_order.len() as int;
    let added = ids_from(g, order, len0);
    assert forall|k: int| 0 <= k < len0 implies order[k] == before_order[k] by {
        assert(order.take(len0)[k] == before_order[k]);
    }
    assert forall|s: int| 0 <= s < due.len() implies names_id(g, order, #[trigger] due[s]) by {
        if s < rest.len() {
            assert(due[s] == rest[s]);
            assert(rest[s] == before_due[s]);
            assert(names_id(g, before_order, before_due[s]));
            let l = choose|l: int|
                0 <= l < before_order.len() && (#[trigger] g[before_order[l]]).id
                    == before_due[s];
            assert(order[l] == before_order[l]);
            assert(g[order[l]].id == due[s]);
        } else {
            let t = s - rest.len();
            assert(due[s] == added[t]);
            assert(g[order[len0 + t]].id == due[s]);
        }
    }
    assert forall|k: int, i: int|
        0 <= k < order.len() && 0 <= i < g.len() && (#[trigger] g[i]).parent_id == Some(
            (#[trigger] g[order[k]]).id,
        ) implies marks[i] || due.contains(g[order[k]].id) by {
        let id = g[order[k]].id;
        if id == p {
            assert(g[i].parent_id == Some(p));
        } else if k < len0 {
            assert(order[k] == before_order[k]);
            assert(g[i].parent_id == Some(g[before_order[k]].id));
            if !before_marks[i] {
                assert(before_due.contains(id));
                let s = choose|s: int| 0 <= s < before_due.len() && before_due[s] == id;
                assert(s < rest.len());
                assert(due[s] == rest[s]);
            }
        } else {
            let t = k - len0;
            assert(added[t] == id);
            assert(due[rest.len() + t] == id);
        }
    }
}

/// The order in which the folders of a manifest are created anew:
/// the top-level folders in their order, then, for each folder created,
/// its children in their order, the children of the folder created last
/// first. A folder that hangs on no top-level folder is left out.
pub fn creation_order(groups: &Vec<DocGroup>) -> (r: Vec<usize>)
    ensures
        is_creation_order(groups.deep_view(), places_view(r@)),
{
    let ghost g = groups.deep_view();
    let mut created: Vec<bool> = Vec::new();
    let mut n: usize = 0;
    while n < groups.len()
        invariant
            n <= groups.len(),
            created.len() == n,
            forall|i: int| 0 <= i < n ==> !(#[trigger] created[i]),
        decreases groups.len() - n,
    {
        created.push(false);
        n += 1;
    }
    let mut order: Vec<usize> = Vec::new();
    let mut due: Vec<i64> = Vec::new();
    proof {
        let empty = places_view(order@);
        assert(empty.len() == 0);
        assert forall|i: int| 0 <= i < created.len() implies (#[trigger] created[i]
            <==> empty.contains(i)) by {}
    }
    create_children(groups, None, &mut created, &mut order, &mut due);
    proof {
        assert(due@ =~= ids_from(g, places_view(order@), 0));
        lemma_first_round_settles(g, created@, places_view(order@), due@);
    }
    while due.len() > 0
        invariant
            g == groups.deep_view(),
            plan_sound(g, created@, places_view(order@)),
            due_are_created(g, places_view(order@), due@),
            children_settled(g, created@, places_view(order@), due@),
            forall|i: int| 0 <= i < g.len() && (#[trigger] g[i]).parent_id is None ==> created[i],
        decreases 2 * unmarked(created@) + due.len(),
    {
        let ghost before_order = places_view(order@);
        let ghost before_due = due@;
        let ghost before_marks = created@;
        let p = due.pop().unwrap();
        proof {
            let last = before_due.len() - 1;
            assert(before_due[last] == p);
            assert(names_id(g, before_order, before_due[last]));
            let l = choose|l: int|
                0 <= l < before_order.len() && (#[trigger] g[before_order[l]]).id
                    == before_due[last];
            assert(g[before_order[l]].id == p);
            assert(due@ =~= before_due.drop_last());
        }
        create_children(groups, Some(p), &mut created, &mut order, &mut due);
        proof {
            lemma_round_settles(
                g,
                before_marks,
                before_order,
                before_due,
                created@,
                places_view(order@),
                due@,
            );
        }
    }
    proof {
        let now = places_view(order@);
        assert forall|i: int| 0 <= i < g.len() && (#[trigger] g[i]).parent_id is None implies now.contains(
            i,
        ) by {
            assert(created[i]);
        }
        assert forall|i: int, k: int|
            0 <= i < g.len() && 0 <= k < now.len() && (#[trigger] g[i]).parent_id == Some(
                (#[trigger] g[now[k]]).id,
            ) implies now.contains(i) by {
            assert(created[i] || due@.contains(g[now[k]].id));
            assert(created[i]);
        }
    }
    order
}

} // verus!
