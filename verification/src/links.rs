//! Relations between owners and items: a document or a folder on one
//! side, a character, an event or a place on the other. A relation holds
//! each pair at most once.

use vstd::prelude::*;
use crate::models::{Doc, DocView};
use crate::store::{linked, links_below, links_distinct, Link};
use crate::tables::{kept_places, lemma_filter_links, lemma_kept_places, retain_links};

verus! {

/// The identifiers stand in strictly growing order.
pub open spec fn strictly_growing(ids: Seq<i64>) -> bool {
    forall|i: int, j: int| 0 <= i < j < ids.len() ==> #[trigger] ids[i] < #[trigger] ids[j]
}

/// Puts the identifier into the sorted list, unless the list holds it.
pub fn insert_id(ids: &mut Vec<i64>, x: i64)
    requires
        strictly_growing(old(ids)@),
    ensures
        strictly_growing(final(ids)@),
        forall|y: i64| final(ids)@.contains(y) <==> (old(ids)@.contains(y) || y == x),
{
    let ghost before = ids@;
    let mut p: usize = 0;
    while p < ids.len() && ids[p] < x
        invariant
            p <= ids.len(),
            ids@ == before,
            strictly_growing(before),
            forall|j: int| 0 <= j < p ==> #[trigger] before[j] < x,
        decreases ids.len() - p,
    {
        p += 1;
    }
    if p < ids.len() && ids[p] == x {
        assert(before.contains(x));
        return ;
    }
    ids.insert(p, x);
    proof {
        let after = ids@;
        assert forall|i: int, j: int| 0 <= i < j < after.len() implies #[trigger] after[i]
            < #[trigger] after[j] by {
            let bi = if i < p {
                i
            } else {
                i - 1
            };
            let bj = if j < p {
                j
            } else {
                j - 1
            };
            if i != p {
                assert(after[i] == before[bi]);
            }
            if j != p {
                assert(after[j] == before[bj]);
            }
            if i == p {
                assert(before[p as int] <= before[bj]) by {
                    if (p as int) < bj {
                        assert(before[p as int] < before[bj]);
                    }
                }
            }
        }
        assert forall|y: i64| after.contains(y) <==> (before.contains(y) || y == x) by {
            if after.contains(y) {
                let w = choose|w: int| 0 <= w < after.len() && after[w] == y;
                if w < p {
                    assert(before[w] == y);
                } else if w > p {
                    assert(before[w - 1] == y);
                }
            }
            if before.contains(y) {
                let w = choose|w: int| 0 <= w < before.len() && before[w] == y;
                if w < p {
                    assert(after[w] == y);
                } else {
                    assert(after[w + 1] == y);
                }
            }
            if y == x {
                assert(after[p as int] == x);
            }
        }
    }
}

/// The relation after the pair was attached: as before where it held the
/// pair, else with the pair at its end.
pub open spec fn with_link(links: Seq<Link>, owner: i64, item: i64) -> Seq<Link> {
    if linked(links, owner, item) {
        links
    } else {
        links.push(Link { owner, item })
    }
}

/// All pairs but the one named.
pub open spec fn other_link(owner: i64, item: i64) -> spec_fn(Link) -> bool {
    |l: Link| l != (Link { owner, item })
}

/// The relation after the pair was detached.
pub open spec fn without_link(links: Seq<Link>, owner: i64, item: i64) -> Seq<Link> {
    links.filter(other_link(owner, item))
}

/// Whether the relation holds the pair.
pub fn has_link(links: &Vec<Link>, owner: i64, item: i64) -> (r: bool)
    ensures
        r == linked(links@, owner, item),
{
    let mut i: usize = 0;
    while i < links.len()
        invariant
            i <= links.len(),
            forall|j: int| 0 <= j < i ==> links[j] != (Link { owner, item }),
        decreases links.len() - i,
    {
        if links[i].owner == owner && links[i].item == item {
            assert(links@[i as int] == (Link { owner, item }));
            return true;
        }
        i += 1;
    }
    false
}

/// Attaches the pair. Attaching a pair that the relation holds changes
/// nothing.
pub fn attach(links: &mut Vec<Link>, owner: i64, item: i64)
    requires
        links_distinct(old(links)@),
    ensures
        links_distinct(final(links)@),
        final(links)@ == with_link(old(links)@, owner, item),
        linked(final(links)@, owner, item),
        forall|next: i64|
            links_below(old(links)@, next) && owner < next && item < next
                ==> #[trigger] links_below(final(links)@, next),
{
    if !has_link(links, owner, item) {
        links.push(Link { owner, item });
        proof {
            let after = links@;
            assert(after[after.len() - 1] == (Link { owner, item }));
            assert forall|i: int, j: int| 0 <= i < j < after.len() implies #[trigger] after[i]
                != #[trigger] after[j] by {
                assert(after[i] == old(links)@[i]);
                if j < after.len() - 1 {
                    assert(after[j] == old(links)@[j]);
                } else {
                    assert(old(links)@.contains(old(links)@[i]));
                }
            }
            assert forall|next: i64|
                links_below(old(links)@, next) && owner < next && item
                    < next implies #[trigger] links_below(after, next) by {
                assert forall|i: int| 0 <= i < after.len() implies (#[trigger] after[i]).owner
                    < next && after[i].item < next by {
                    if i < after.len() - 1 {
                        assert(after[i] == old(links)@[i]);
                    }
                }
            }
        }
    }
}

/// Detaches the pair. Detaching a pair that the relation does not hold
/// changes nothing.
pub fn detach(links: &mut Vec<Link>, owner: i64, item: i64)
    requires
        links_distinct(old(links)@),
    ensures
        links_distinct(final(links)@),
        final(links)@ == without_link(old(links)@, owner, item),
        !linked(final(links)@, owner, item),
        !linked(old(links)@, owner, item) ==> final(links)@ == old(links)@,
        forall|next: i64| links_below(old(links)@, next) ==> #[trigger] links_below(final(links)@, next),
{
    let ghost before = links@;
    let ghost pred = other_link(owner, item);
    let mut keep: Vec<bool> = Vec::new();
    let mut i: usize = 0;
    while i < links.len()
        invariant
            i <= links.len(),
            links@ == before,
            pred == other_link(owner, item),
            keep.len() == i,
            forall|j: int| 0 <= j < i ==> #[trigger] keep[j] == pred(before[j]),
        decreases links.len() - i,
    {
        let stays = !(links[i].owner == owner && links[i].item == item);
        assert(stays == pred(before[i as int]));
        keep.push(stays);
        i += 1;
    }
    let kept = retain_links(links, &keep, Ghost(pred));
    *links = kept;
    proof {
        lemma_filter_links(before, pred);
        lemma_filter_keeps_all(before, pred);
        if !linked(before, owner, item) {
            assert forall|j: int| 0 <= j < before.len() implies pred(#[trigger] before[j]) by {
                assert(before.contains(before[j]));
            }
        }
    }
}

/// A filter that every row passes changes nothing; and whatever it
/// keeps passes it.
pub proof fn lemma_filter_keeps_all<A>(s: Seq<A>, pred: spec_fn(A) -> bool)
    ensures
        (forall|i: int| 0 <= i < s.len() ==> pred(#[trigger] s[i])) ==> s.filter(pred) == s,
        forall|x: A| s.filter(pred).contains(x) ==> pred(x) && s.contains(x),
    decreases s.len(),
{
    reveal(Seq::filter);
    lemma_kept_places(s, pred);
    let f = s.filter(pred);
    let kp = kept_places(s, pred);
    assert forall|x: A| f.contains(x) implies pred(x) && s.contains(x) by {
        let w = choose|w: int| 0 <= w < f.len() && f[w] == x;
        assert(f[w] == s[kp[w]]);
        assert(pred(s[kp[w]]));
    }
    if s.len() > 0 {
        let rest = s.drop_last();
        lemma_filter_keeps_all(rest, pred);
        if forall|i: int| 0 <= i < s.len() ==> pred(#[trigger] s[i]) {
            assert forall|i: int| 0 <= i < rest.len() implies pred(#[trigger] rest[i]) by {
                assert(rest[i] == s[i]);
            }
            assert(pred(s[s.len() - 1]));
            assert(s.filter(pred) =~= s);
        }
    }
}

/// The items attached to the owner, in growing order.
pub fn items_of(links: &Vec<Link>, owner: i64) -> (r: Vec<i64>)
    ensures
        strictly_growing(r@),
        forall|x: i64| r@.contains(x) <==> linked(links@, owner, x),
{
    let mut out: Vec<i64> = Vec::new();
    let mut i: usize = 0;
    while i < links.len()
        invariant
            i <= links.len(),
            strictly_growing(out@),
            forall|x: i64|
                out@.contains(x) <==> exists|j: int|
                    0 <= j < i && #[trigger] links[j] == (Link { owner, item: x }),
        decreases links.len() - i,
    {
        let ghost prev = out@;
        if links[i].owner == owner {
            insert_id(&mut out, links[i].item);
        }
        proof {
            assert forall|x: i64|
                out@.contains(x) <==> exists|j: int|
                    0 <= j < i + 1 && #[trigger] links[j] == (Link { owner, item: x }) by {
                if out@.contains(x) {
                    if prev.contains(x) {
                        let j = choose|j: int|
                            0 <= j < i && #[trigger] links[j] == (Link { owner, item: x });
                        assert(0 <= j < i + 1 && links[j] == (Link { owner, item: x }));
                    } else {
                        assert(links[i as int] == (Link { owner, item: x }));
                    }
                }
                if exists|j: int|
                    0 <= j < i + 1 && #[trigger] links[j] == (Link { owner, item: x }) {
                    let j = choose|j: int|
                        0 <= j < i + 1 && #[trigger] links[j] == (Link { owner, item: x });
                    if j < i {
                        assert(prev.contains(x));
                    }
                }
            }
        }
        i += 1;
    }
    proof {
        assert forall|x: i64| out@.contains(x) <==> linked(links@, owner, x) by {
            if out@.contains(x) {
                let j = choose|j: int|
                    0 <= j < links.len() && #[trigger] links[j] == (Link { owner, item: x });
                assert(links@.contains(Link { owner, item: x }));
            }
            if linked(links@, owner, x) {
                let j = choose|j: int|
                    0 <= j < links@.len() && links@[j] == (Link { owner, item: x });
                assert(links[j] == (Link { owner, item: x }));
            }
        }
    }
    out
}

/// The item is attached to some document that is filed in the folder.
pub open spec fn linked_in_group(
    links: Seq<Link>,
    docs: Seq<DocView>,
    doc_group_id: i64,
    item: i64,
) -> bool {
    exists|d: int|
        0 <= d < docs.len() && (#[trigger] docs[d]).doc_group_id == Some(doc_group_id) && linked(
            links,
            docs[d].id,
            item,
        )
}

/// The items attached to the documents that are filed in the folder,
/// each once, in growing order.
pub fn items_in_group(links: &Vec<Link>, docs: &Vec<Doc>, doc_group_id: i64) -> (r: Vec<i64>)
    ensures
        strictly_growing(r@),
        forall|x: i64|
            r@.contains(x) <==> linked_in_group(links@, docs.deep_view(), doc_group_id, x),
{
    let ghost view = docs.deep_view();
    let mut out: Vec<i64> = Vec::new();
    let mut d: usize = 0;
    while d < docs.len()
        invariant
            d <= docs.len(),
            view == docs.deep_view(),
            strictly_growing(out@),
            forall|x: i64|
                out@.contains(x) <==> exists|e: int|
                    0 <= e < d && (#[trigger] view[e]).doc_group_id == Some(doc_group_id)
                        && linked(links@, view[e].id, x),
        decreases docs.len() - d,
    {
        let ghost prev = out@;
        if docs[d].doc_group_id == Some(doc_group_id) {
            let owner = docs[d].id;
            let found = items_of(links, owner);
            let mut k: usize = 0;
            assert(found@.take(0) =~= Seq::<i64>::empty());
            while k < found.len()
                invariant
                    k <= found.len(),
                    strictly_growing(out@),
                    forall|x: i64|
                        out@.contains(x) <==> (prev.contains(x) || found@.take(k as int).contains(
                            x,
                        )),
                decreases found.len() - k,
            {
                let ghost mid = out@;
                insert_id(&mut out, found[k]);
                proof {
                    let a = found@.take(k as int);
                    let b = found@.take(k + 1);
                    assert(b =~= a.push(found[k as int]));
                    assert(b[k as int] == found[k as int]);
                    assert(b.contains(found[k as int]));
                    assert forall|x: i64|
                        out@.contains(x) <==> (prev.contains(x) || b.contains(x)) by {
                        assert(mid.contains(x) <==> (prev.contains(x) || a.contains(x)));
                        assert(out@.contains(x) <==> (mid.contains(x) || x == found[k as int]));
                        if a.contains(x) {
                            let w = choose|w: int| 0 <= w < a.len() && a[w] == x;
                            assert(b[w] == x);
                        }
                        if b.contains(x) {
                            let w = choose|w: int| 0 <= w < b.len() && b[w] == x;
                            if w < k {
                                assert(a[w] == x);
                                assert(a.contains(x));
                            }
                        }
                        assert(b[k as int] == found[k as int]);
                    }
                }
                k += 1;
            }
            assert(found@.take(found.len() as int) =~= found@);
            proof {
                assert forall|x: i64|
                    out@.contains(x) <==> exists|e: int|
                        0 <= e < d + 1 && (#[trigger] view[e]).doc_group_id == Some(
                            doc_group_id,
                        ) && linked(links@, view[e].id, x) by {
                    if out@.contains(x) {
                        if prev.contains(x) {
                            let e = choose|e: int|
                                0 <= e < d && (#[trigger] view[e]).doc_group_id == Some(
                                    doc_group_id,
                                ) && linked(links@, view[e].id, x);
                            assert(0 <= e < d + 1 && view[e].doc_group_id == Some(doc_group_id)
                                && linked(links@, view[e].id, x));
                        } else {
                            assert(found@.contains(x));
                            assert(view[d as int].doc_group_id == Some(doc_group_id) && linked(
                                links@,
                                view[d as int].id,
                                x,
                            ));
                        }
                    }
                    if exists|e: int|
                        0 <= e < d + 1 && (#[trigger] view[e]).doc_group_id == Some(
                            doc_group_id,
                        ) && linked(links@, view[e].id, x) {
                        let e = choose|e: int|
                            0 <= e < d + 1 && (#[trigger] view[e]).doc_group_id == Some(
                                doc_group_id,
                            ) && linked(links@, view[e].id, x);
                        if e < d {
                            assert(prev.contains(x));
                        } else {
                            assert(found@.contains(x));
                        }
                    }
                }
            }
        } else {
            proof {
                assert forall|x: i64|
                    out@.contains(x) <==> exists|e: int|
                        0 <= e < d + 1 && (#[trigger] view[e]).doc_group_id == Some(
                            doc_group_id,
                        ) && linked(links@, view[e].id, x) by {
                    if out@.contains(x) {
                        let e = choose|e: int|
                            0 <= e < d && (#[trigger] view[e]).doc_group_id == Some(doc_group_id)
                                && linked(links@, view[e].id, x);
                        assert(0 <= e < d + 1 && view[e].doc_group_id == Some(doc_group_id)
                            && linked(links@, view[e].id, x));
                    }
                }
            }
        }
        d += 1;
    }
    out
}

/// The pairs of other items than `item`.
pub open spec fn item_other_than(item: i64) -> spec_fn(Link) -> bool {
    |l: Link| l.item != item
}

/// Detaches the item from every owner.
pub fn drop_item(links: &mut Vec<Link>, item: i64)
    requires
        links_distinct(old(links)@),
    ensures
        links_distinct(final(links)@),
        final(links)@ == old(links)@.filter(item_other_than(item)),
        forall|next: i64| links_below(old(links)@, next) ==> #[trigger] links_below(final(links)@, next),
{
    let ghost before = links@;
    let ghost pred = item_other_than(item);
    let mut keep: Vec<bool> = Vec::new();
    let mut i: usize = 0;
    while i < links.len()
        invariant
            i <= links.len(),
            links@ == before,
            pred == item_other_than(item),
            keep.len() == i,
            forall|j: int| 0 <= j < i ==> #[trigger] keep[j] == pred(before[j]),
        decreases links.len() - i,
    {
        keep.push(links[i].item != item);
        i += 1;
    }
    let kept = retain_links(links, &keep, Ghost(pred));
    *links = kept;
    proof {
        lemma_filter_links(before, pred);
    }
}

} // verus!
