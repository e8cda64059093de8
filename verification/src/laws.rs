//! Laws of the store: what holds of every store and of every sequence
//! of operations on it.

use vstd::prelude::*;
use crate::doc_groups::{
    group_order_error, group_slots, groups_dense_in, reordered_groups, target_order,
};
use crate::docs::{doc_order_error, doc_slots, docs_dense_in, reordered_docs};
use crate::links::{with_link, without_link, other_link, lemma_filter_keeps_all};
use crate::order::{dense_in, occupied, ranked, set_len, Slot};
use crate::sorting::lemma_reading_onto;
use crate::store::{linked, links_distinct, place_of, Link, StoreView};
use crate::tables::{kept_places, lemma_kept_places};

verus! {

/// The members of the sibling set.
pub open spec fn is_member(project: i64, scope: Option<i64>) -> spec_fn(Slot) -> bool {
    |s: Slot| ranked(s, project, scope)
}

/// The number of members of a sibling set is the number of rows that
/// are members.
pub proof fn lemma_set_len_counts(slots: Seq<Slot>, project: i64, scope: Option<i64>)
    ensures
        set_len(slots, project, scope) == slots.filter(is_member(project, scope)).len(),
    decreases slots.len(),
{
    reveal(Seq::filter);
    if slots.len() > 0 {
        lemma_set_len_counts(slots.drop_last(), project, scope);
    }
}

/// Density is exact: in a dense sibling set of `n` members every place
/// from 0 to `n - 1` is taken, so the sort orders, sorted, are
/// `0, 1, .., n - 1`.
pub proof fn lemma_dense_is_exact(slots: Seq<Slot>, project: i64, scope: Option<i64>, k: i64)
    requires
        dense_in(slots, project, scope),
        0 <= k < set_len(slots, project, scope),
    ensures
        occupied(slots, project, scope, k),
{
    let pred = is_member(project, scope);
    let n = set_len(slots, project, scope);
    lemma_set_len_counts(slots, project, scope);
    lemma_kept_places(slots, pred);
    let kp = kept_places(slots, pred);
    let orders = Seq::new(n, |i: int| slots[kp[i]].order->0 as int);
    assert forall|i: int| 0 <= i < orders.len() implies 0 <= #[trigger] orders[i] < n by {
        assert(pred(slots[kp[i]]));
    }
    assert forall|i: int, j: int| 0 <= i < j < orders.len() implies #[trigger] orders[i]
        != #[trigger] orders[j] by {
        assert(pred(slots[kp[i]]));
        assert(pred(slots[kp[j]]));
        assert(kp[i] < kp[j]);
        assert(slots[kp[i]].order != slots[kp[j]].order);
    }
    lemma_reading_onto(n, orders, k as int);
    let w = choose|w: int| 0 <= w < orders.len() && orders[w] == k as int;
    assert(pred(slots[kp[w]]));
    assert(slots[kp[w]].order == Some(k));
}

/// In a dense sibling set of `n` members no row sits below 0 or at `n`
/// or above.
pub proof fn lemma_dense_has_edges(slots: Seq<Slot>, project: i64, scope: Option<i64>, k: i64)
    requires
        dense_in(slots, project, scope),
        k < 0 || k >= set_len(slots, project, scope),
    ensures
        !occupied(slots, project, scope, k),
{
}

/// Every sibling set of folders and of documents is dense.
pub open spec fn all_dense(v: StoreView) -> bool {
    forall|p: i64, q: Option<i64>|
        #![trigger groups_dense_in(v.groups, p, q)]
        #![trigger docs_dense_in(v.docs, p, q)]
        groups_dense_in(v.groups, p, q) && docs_dense_in(v.docs, p, q)
}

/// A store without folders and documents is dense.
pub proof fn lemma_empty_store_is_dense(v: StoreView)
    requires
        v.groups.len() == 0,
        v.docs.len() == 0,
    ensures
        all_dense(v),
{
    assert forall|p: i64, q: Option<i64>|
        #![trigger groups_dense_in(v.groups, p, q)]
        #![trigger docs_dense_in(v.docs, p, q)]
        groups_dense_in(v.groups, p, q) && docs_dense_in(v.docs, p, q) by {
        assert(group_slots(v.groups).len() == 0);
        assert(doc_slots(v.docs).len() == 0);
    }
}

/// Moving the first folder of a dense sibling set up, or the last one
/// down, changes nothing.
pub proof fn lemma_group_reorder_at_edge(v: StoreView, id: i64, direction: Seq<char>)
    requires
        v.wf(),
        group_order_error(v, id) is None,
        groups_dense_in(
            v.groups,
            v.groups[place_of(v.groups, id)].project_id,
            v.groups[place_of(v.groups, id)].parent_id,
        ),
        (direction == "up"@ && v.groups[place_of(v.groups, id)].sort_order == Some(0i64)) || (
        direction == "down"@ && v.groups[place_of(v.groups, id)].sort_order->0 + 1 == set_len(
            group_slots(v.groups),
            v.groups[place_of(v.groups, id)].project_id,
            v.groups[place_of(v.groups, id)].parent_id,
        )),
    ensures
        reordered_groups(v, id, direction) == v,
{
    let g = v.groups[place_of(v.groups, id)];
    reveal_strlit("up");
    reveal_strlit("down");
    assert("up"@.len() != "down"@.len());
    let t = target_order(g.sort_order->0, direction)->0;
    if i64::MIN <= t <= i64::MAX {
        lemma_dense_has_edges(group_slots(v.groups), g.project_id, g.parent_id, t as i64);
    }
}

/// Moving the first document of a dense sibling set up, or the last one
/// down, changes nothing.
pub proof fn lemma_doc_reorder_at_edge(v: StoreView, id: i64, direction: Seq<char>)
    requires
        v.wf(),
        doc_order_error(v, id) is None,
        docs_dense_in(
            v.docs,
            v.docs[place_of(v.docs, id)].project_id,
            v.docs[place_of(v.docs, id)].doc_group_id,
        ),
        (direction == "up"@ && v.docs[place_of(v.docs, id)].sort_order == Some(0i64)) || (direction
            == "down"@ && v.docs[place_of(v.docs, id)].sort_order->0 + 1 == set_len(
            doc_slots(v.docs),
            v.docs[place_of(v.docs, id)].project_id,
            v.docs[place_of(v.docs, id)].doc_group_id,
        )),
    ensures
        reordered_docs(v, id, direction) == v,
{
    let d = v.docs[place_of(v.docs, id)];
    reveal_strlit("up");
    reveal_strlit("down");
    assert("up"@.len() != "down"@.len());
    let t = target_order(d.sort_order->0, direction)->0;
    if i64::MIN <= t <= i64::MAX {
        lemma_dense_has_edges(doc_slots(v.docs), d.project_id, d.doc_group_id, t as i64);
    }
}

/// The number of times that the relation holds the pair.
pub open spec fn link_count(links: Seq<Link>, owner: i64, item: i64) -> nat {
    links.filter(|l: Link| l == (Link { owner, item })).len()
}

/// A relation without doubled pairs holds a pair once or not at all.
pub proof fn lemma_link_count(links: Seq<Link>, owner: i64, item: i64)
    requires
        links_distinct(links),
    ensures
        link_count(links, owner, item) == (if linked(links, owner, item) {
            1nat
        } else {
            0nat
        }),
    decreases links.len(),
{
    reveal(Seq::filter);
    let pred = |l: Link| l == (Link { owner, item });
    if links.len() > 0 {
        let rest = links.drop_last();
        let n = links.len() - 1;
        assert forall|i: int, j: int| 0 <= i < j < rest.len() implies #[trigger] rest[i]
            != #[trigger] rest[j] by {
            assert(rest[i] == links[i] && rest[j] == links[j]);
        }
        lemma_link_count(rest, owner, item);
        if linked(rest, owner, item) {
            let w = choose|w: int| 0 <= w < rest.len() && rest[w] == (Link { owner, item });
            assert(links[w] == rest[w]);
            assert(links[w] != links[n]);
            assert(linked(links, owner, item));
        } else if links[n] == (Link { owner, item }) {
            assert(linked(links, owner, item));
        } else {
            if linked(links, owner, item) {
                let w = choose|w: int| 0 <= w < links.len() && links[w] == (Link { owner, item });
                assert(rest[w] == links[w]);
            }
        }
    }
}

/// Attaching is idempotent: attaching a pair twice leaves the relation
/// as attaching it once does, and with exactly one row for the pair.
pub proof fn lemma_attach_twice(links: Seq<Link>, owner: i64, item: i64)
    requires
        links_distinct(links),
    ensures
        with_link(with_link(links, owner, item), owner, item) == with_link(links, owner, item),
        link_count(with_link(links, owner, item), owner, item) == 1,
{
    let once = with_link(links, owner, item);
    if !linked(links, owner, item) {
        assert(once[once.len() - 1] == (Link { owner, item }));
        assert forall|i: int, j: int| 0 <= i < j < once.len() implies #[trigger] once[i]
            != #[trigger] once[j] by {
            assert(once[i] == links[i]);
            if j < links.len() {
                assert(once[j] == links[j]);
            } else {
                assert(links.contains(links[i]));
            }
        }
    }
    assert(linked(once, owner, item));
    lemma_link_count(once, owner, item);
}

/// Detaching a pair that is not attached changes nothing.
pub proof fn lemma_detach_absent(links: Seq<Link>, owner: i64, item: i64)
    requires
        !linked(links, owner, item),
    ensures
        without_link(links, owner, item) == links,
{
    let pred = other_link(owner, item);
    assert forall|i: int| 0 <= i < links.len() implies pred(#[trigger] links[i]) by {
        assert(links.contains(links[i]));
    }
    lemma_filter_keeps_all(links, pred);
}

} // verus!
