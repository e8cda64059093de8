//! Taking rows out of a table.
//!
//! A table after a removal is the old table filtered by a predicate. The
//! rows that stay keep their relative order; [`kept_places`] names the
//! place in the old table from which each of them comes.

use vstd::prelude::*;
use crate::models::DocView;
use crate::store::{
    ascending, filed_below, growing, links_below, links_distinct, owners_below, Keyed, Link,
    Owned, OwnedRecord, Record,
};

verus! {

/// The places of the rows that satisfy `pred`, in growing order.
pub open spec fn kept_places<A>(s: Seq<A>, pred: spec_fn(A) -> bool) -> Seq<int>
    decreases s.len(),
{
    if s.len() == 0 {
        Seq::<int>::empty()
    } else {
        let rest = kept_places(s.drop_last(), pred);
        if pred(s.last()) {
            rest.push(s.len() - 1)
        } else {
            rest
        }
    }
}

/// The filtered table holds, in the old order, exactly the rows that
/// satisfy the predicate.
pub proof fn lemma_kept_places<A>(s: Seq<A>, pred: spec_fn(A) -> bool)
    ensures
        kept_places(s, pred).len() == s.filter(pred).len(),
        forall|i: int|
            0 <= i < kept_places(s, pred).len() ==> 0 <= #[trigger] kept_places(s, pred)[i]
                < s.len(),
        forall|i: int|
            0 <= i < kept_places(s, pred).len() ==> #[trigger] s.filter(pred)[i]
                == s[kept_places(s, pred)[i]],
        forall|i: int|
            0 <= i < kept_places(s, pred).len() ==> pred(s[#[trigger] kept_places(s, pred)[i]]),
        forall|i: int, j: int|
            0 <= i < j < kept_places(s, pred).len() ==> #[trigger] kept_places(s, pred)[i]
                < #[trigger] kept_places(s, pred)[j],
        forall|k: int|
            0 <= k < s.len() && pred(#[trigger] s[k]) ==> kept_places(s, pred).contains(k),
    decreases s.len(),
{
    reveal(Seq::filter);
    if s.len() > 0 {
        let rest = s.drop_last();
        let n = s.len() - 1;
        lemma_kept_places(rest, pred);
        let kp = kept_places(s, pred);
        let kr = kept_places(rest, pred);
        assert forall|i: int| 0 <= i < kr.len() implies #[trigger] s[kr[i]] == rest[kr[i]] by {}
        assert forall|i: int| 0 <= i < kp.len() implies #[trigger] s.filter(pred)[i]
            == s[kp[i]] by {
            if i < kr.len() {
                assert(s.filter(pred)[i] == rest.filter(pred)[i]);
                assert(kp[i] == kr[i]);
            }
        }
        assert forall|i: int| 0 <= i < kp.len() implies pred(s[#[trigger] kp[i]]) by {
            if i < kr.len() {
                assert(kp[i] == kr[i]);
                assert(s[kr[i]] == rest[kr[i]]);
            }
        }
        assert forall|i: int, j: int| 0 <= i < j < kp.len() implies #[trigger] kp[i]
            < #[trigger] kp[j] by {
            assert(kp[i] == kr[i]);
            if j < kr.len() {
                assert(kp[j] == kr[j]);
            }
        }
        assert forall|k: int| 0 <= k < s.len() && pred(#[trigger] s[k]) implies kp.contains(
            k,
        ) by {
            if k < n {
                assert(rest[k] == s[k]);
                assert(kr.contains(k));
                let w = choose|w: int| 0 <= w < kr.len() && kr[w] == k;
                assert(kp[w] == k);
            } else {
                assert(kp[kp.len() - 1] == k);
            }
        }
    }
}

/// Filtering a table keeps its identifiers fresh and growing.
pub proof fn lemma_filter_ascending<R: Keyed>(s: Seq<R>, pred: spec_fn(R) -> bool, next: i64)
    requires
        ascending(s, next),
    ensures
        ascending(s.filter(pred), next),
{
    lemma_kept_places(s, pred);
    let f = s.filter(pred);
    let kp = kept_places(s, pred);
    assert forall|i: int| 0 <= i < f.len() implies 0 < (#[trigger] f[i]).key() < next by {
        assert(f[i] == s[kp[i]]);
    }
    assert forall|i: int, j: int| 0 <= i < j < f.len() implies (#[trigger] f[i]).key() < (
    #[trigger] f[j]).key() by {
        assert(f[i] == s[kp[i]]);
        assert(f[j] == s[kp[j]]);
        assert(kp[i] < kp[j]);
    }
}

/// Filtering a relation leaves no pair doubled, and brings in no
/// reference to a row that is yet to be created.
pub proof fn lemma_filter_links(s: Seq<Link>, pred: spec_fn(Link) -> bool)
    requires
        links_distinct(s),
    ensures
        links_distinct(s.filter(pred)),
        forall|next: i64| links_below(s, next) ==> #[trigger] links_below(s.filter(pred), next),
{
    lemma_kept_places(s, pred);
    let f = s.filter(pred);
    let kp = kept_places(s, pred);
    assert forall|i: int, j: int| 0 <= i < j < f.len() implies #[trigger] f[i]
        != #[trigger] f[j] by {
        assert(f[i] == s[kp[i]]);
        assert(f[j] == s[kp[j]]);
        assert(kp[i] < kp[j]);
    }
    assert forall|next: i64| links_below(s, next) implies #[trigger] links_below(f, next) by {
        assert forall|i: int| 0 <= i < f.len() implies (#[trigger] f[i]).owner < next
            && f[i].item < next by {
            assert(f[i] == s[kp[i]]);
        }
    }
}

/// Filtering a table brings in no reference to a row that is yet to be
/// created.
pub proof fn lemma_filter_owned<R: Owned>(s: Seq<R>, pred: spec_fn(R) -> bool, next: i64)
    requires
        owners_below(s, next),
    ensures
        owners_below(s.filter(pred), next),
{
    lemma_kept_places(s, pred);
    let f = s.filter(pred);
    let kp = kept_places(s, pred);
    assert forall|i: int| 0 <= i < f.len() implies (#[trigger] f[i]).owner() < next by {
        assert(f[i] == s[kp[i]]);
    }
}

/// Filtering the documents brings in no reference to a folder that is
/// yet to be created.
pub proof fn lemma_filter_filed(s: Seq<DocView>, pred: spec_fn(DocView) -> bool, next: i64)
    requires
        filed_below(s, next),
    ensures
        filed_below(s.filter(pred), next),
{
    lemma_kept_places(s, pred);
    let f = s.filter(pred);
    let kp = kept_places(s, pred);
    assert forall|i: int| 0 <= i < f.len() implies ((#[trigger] f[i]).doc_group_id matches Some(g)
        ==> g < next) by {
        assert(f[i] == s[kp[i]]);
    }
}

/// The filter of a table that grew by one row.
pub proof fn lemma_filter_push<A>(s: Seq<A>, x: A, pred: spec_fn(A) -> bool)
    ensures
        s.push(x).filter(pred) == (if pred(x) {
            s.filter(pred).push(x)
        } else {
            s.filter(pred)
        }),
{
    reveal(Seq::filter);
    assert(s.push(x).drop_last() =~= s);
}

/// The rows of the table whose flag is set, in the old order.
pub(crate) fn retain_rows<T: Record>(
    rows: &Vec<T>,
    keep: &Vec<bool>,
    Ghost(pred): Ghost<spec_fn(T::V) -> bool>,
) -> (r: Vec<T>) where <T as DeepView>::V: Keyed
    requires
        keep.len() == rows.len(),
        forall|i: int| 0 <= i < rows.len() ==> #[trigger] keep[i] == pred(rows.deep_view()[i]),
    ensures
        r.deep_view() == rows.deep_view().filter(pred),
{
    let ghost view = rows.deep_view();
    let mut out: Vec<T> = Vec::new();
    let mut i: usize = 0;
    proof {
        reveal(Seq::filter);
        assert(view.take(0).filter(pred) =~= out.deep_view());
    }
    while i < rows.len()
        invariant
            i <= rows.len(),
            keep.len() == rows.len(),
            view == rows.deep_view(),
            forall|j: int| 0 <= j < rows.len() ==> #[trigger] keep[j] == pred(view[j]),
            out.deep_view() == view.take(i as int).filter(pred),
        decreases rows.len() - i,
    {
        let ghost prev = out.deep_view();
        proof {
            lemma_filter_push(view.take(i as int), view[i as int], pred);
            assert(view.take(i as int).push(view[i as int]) =~= view.take(i + 1));
        }
        if keep[i] {
            let row = rows[i].copy();
            out.push(row);
            assert(out.deep_view() =~= prev.push(view[i as int]));
        }
        i += 1;
    }
    proof {
        assert(view.take(rows.len() as int) =~= view);
    }
    out
}

/// The pairs of the relation whose flag is set, in the old order.
pub(crate) fn retain_links(rows: &Vec<Link>, keep: &Vec<bool>, Ghost(pred): Ghost<spec_fn(Link) -> bool>) -> (r:
    Vec<Link>)
    requires
        keep.len() == rows.len(),
        forall|i: int| 0 <= i < rows.len() ==> #[trigger] keep[i] == pred(rows[i]),
    ensures
        r@ == rows@.filter(pred),
{
    let mut out: Vec<Link> = Vec::new();
    let mut i: usize = 0;
    proof {
        reveal(Seq::filter);
        assert(rows@.take(0).filter(pred) =~= out@);
    }
    while i < rows.len()
        invariant
            i <= rows.len(),
            keep.len() == rows.len(),
            forall|j: int| 0 <= j < rows.len() ==> #[trigger] keep[j] == pred(rows[j]),
            out@ == rows@.take(i as int).filter(pred),
        decreases rows.len() - i,
    {
        proof {
            lemma_filter_push(rows@.take(i as int), rows[i as int], pred);
            assert(rows@.take(i as int).push(rows[i as int]) =~= rows@.take(i + 1));
        }
        if keep[i] {
            out.push(rows[i]);
        }
        i += 1;
    }
    proof {
        assert(rows@.take(rows.len() as int) =~= rows@);
    }
    out
}

/// Whether the list holds the identifier.
pub fn holds(ids: &Vec<i64>, id: i64) -> (r: bool)
    ensures
        r == ids@.contains(id),
{
    let mut i: usize = 0;
    while i < ids.len()
        invariant
            i <= ids.len(),
            forall|j: int| 0 <= j < i ==> ids[j] != id,
        decreases ids.len() - i,
    {
        if ids[i] == id {
            return true;
        }
        i += 1;
    }
    false
}

/// The rows that belong to another row than `owner`.
pub open spec fn not_owned_by<R: Owned>(owner: i64) -> spec_fn(R) -> bool {
    |r: R| r.owner() != owner
}

/// The rows that belong to none of the rows named.
pub open spec fn owner_not_in<R: Owned>(gone: Seq<i64>) -> spec_fn(R) -> bool {
    |r: R| !gone.contains(r.owner())
}

/// The pairs of which neither side is named.
pub open spec fn link_clear_of(owners: Seq<i64>, items: Seq<i64>) -> spec_fn(Link) -> bool {
    |l: Link| !owners.contains(l.owner) && !items.contains(l.item)
}

/// The pairs of the relation of which neither side is named.
pub fn links_without(links: &Vec<Link>, owners: &Vec<i64>, items: &Vec<i64>) -> (r: Vec<Link>)
    ensures
        r@ == links@.filter(link_clear_of(owners@, items@)),
{
    let ghost pred = link_clear_of(owners@, items@);
    let mut keep: Vec<bool> = Vec::new();
    let mut i: usize = 0;
    while i < links.len()
        invariant
            i <= links.len(),
            pred == link_clear_of(owners@, items@),
            keep.len() == i,
            forall|j: int| 0 <= j < i ==> #[trigger] keep[j] == pred(links[j]),
        decreases links.len() - i,
    {
        let stays = !holds(owners, links[i].owner) && !holds(items, links[i].item);
        keep.push(stays);
        i += 1;
    }
    retain_links(links, &keep, Ghost(pred))
}

/// Two predicates that agree on every row of a table filter it alike.
pub proof fn lemma_filter_ext<A>(s: Seq<A>, left: spec_fn(A) -> bool, right: spec_fn(A) -> bool)
    requires
        forall|i: int| 0 <= i < s.len() ==> left(#[trigger] s[i]) == right(s[i]),
    ensures
        s.filter(left) == s.filter(right),
    decreases s.len(),
{
    reveal(Seq::filter);
    if s.len() > 0 {
        let rest = s.drop_last();
        assert forall|i: int| 0 <= i < rest.len() implies left(#[trigger] rest[i]) == right(
            rest[i],
        ) by {
            assert(rest[i] == s[i]);
        }
        lemma_filter_ext(rest, left, right);
        assert(left(s[s.len() - 1]) == right(s[s.len() - 1]));
    }
}

/// Some row of the table carries the identifier and belongs to `owner`.
pub open spec fn owned_key<R: Keyed + Owned>(rows: Seq<R>, owner: i64, id: i64) -> bool {
    exists|i: int|
        0 <= i < rows.len() && (#[trigger] rows[i]).key() == id && rows[i].owner() == owner
}

/// The identifiers of the rows that belong to `owner`.
pub fn keys_owned_by<T: OwnedRecord>(rows: &Vec<T>, owner: i64) -> (r: Vec<i64>) where
    <T as DeepView>::V: Keyed + Owned,

    ensures
        forall|x: i64| r@.contains(x) <==> owned_key(rows.deep_view(), owner, x),
{
    let ghost view = rows.deep_view();
    let mut out: Vec<i64> = Vec::new();
    let mut i: usize = 0;
    while i < rows.len()
        invariant
            i <= rows.len(),
            view == rows.deep_view(),
            forall|x: i64| out@.contains(x) ==> owned_key(view, owner, x),
            forall|j: int|
                0 <= j < i && (#[trigger] view[j]).owner() == owner ==> out@.contains(
                    view[j].key(),
                ),
        decreases rows.len() - i,
    {
        let ghost prev = out@;
        if rows[i].owner_id() == owner {
            out.push(rows[i].id());
            proof {
                assert forall|x: i64| out@.contains(x) implies owned_key(view, owner, x) by {
                    let w = choose|w: int| 0 <= w < out@.len() && out@[w] == x;
                    if w < prev.len() {
                        assert(prev[w] == x);
                        assert(prev.contains(x));
                    } else {
                        assert(view[i as int].key() == x);
                    }
                }
                assert forall|j: int|
                    0 <= j < i + 1 && (#[trigger] view[j]).owner() == owner implies out@.contains(
                    view[j].key(),
                ) by {
                    if j < i {
                        assert(prev.contains(view[j].key()));
                        let w = choose|w: int| 0 <= w < prev.len() && prev[w] == view[j].key();
                        assert(out@[w] == view[j].key());
                    } else {
                        assert(out@[out@.len() - 1] == view[j].key());
                    }
                }
            }
        }
        i += 1;
    }
    proof {
        assert forall|x: i64| owned_key(view, owner, x) implies out@.contains(x) by {
            let j = choose|j: int|
                0 <= j < view.len() && (#[trigger] view[j]).key() == x && view[j].owner()
                    == owner;
            assert(out@.contains(view[j].key()));
        }
    }
    out
}

/// The rows of the table that belong to another row than `owner`.
pub fn rows_not_owned_by<T: OwnedRecord>(rows: &Vec<T>, owner: i64) -> (r: Vec<T>) where
    <T as DeepView>::V: Keyed + Owned,

    ensures
        r.deep_view() == rows.deep_view().filter(not_owned_by(owner)),
{
    let ghost pred = not_owned_by::<T::V>(owner);
    let mut keep: Vec<bool> = Vec::new();
    let mut i: usize = 0;
    while i < rows.len()
        invariant
            i <= rows.len(),
            pred == not_owned_by::<T::V>(owner),
            keep.len() == i,
            forall|j: int| 0 <= j < i ==> #[trigger] keep[j] == pred(rows.deep_view()[j]),
        decreases rows.len() - i,
    {
        keep.push(rows[i].owner_id() != owner);
        i += 1;
    }
    retain_rows(rows, &keep, Ghost(pred))
}

/// The rows of the table that belong to none of the rows named.
pub fn rows_owner_not_in<T: OwnedRecord>(rows: &Vec<T>, gone: &Vec<i64>) -> (r: Vec<T>) where
    <T as DeepView>::V: Keyed + Owned,

    ensures
        r.deep_view() == rows.deep_view().filter(owner_not_in(gone@)),
{
    let ghost pred = owner_not_in::<T::V>(gone@);
    let mut keep: Vec<bool> = Vec::new();
    let mut i: usize = 0;
    while i < rows.len()
        invariant
            i <= rows.len(),
            pred == owner_not_in::<T::V>(gone@),
            keep.len() == i,
            forall|j: int| 0 <= j < i ==> #[trigger] keep[j] == pred(rows.deep_view()[j]),
        decreases rows.len() - i,
    {
        let stays = !holds(gone, rows[i].owner_id());
        keep.push(stays);
        i += 1;
    }
    retain_rows(rows, &keep, Ghost(pred))
}

} // verus!
