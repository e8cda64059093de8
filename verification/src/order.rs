//! Sibling order, as mathematics.
//!
//! A row that takes part in ordering is reduced to a [`Slot`]: the project
//! it belongs to, the scope it sits in (the parent of a folder, the folder
//! of a document; `None` for the top level) and its sort order. The rows
//! of one project and one scope that have a sort order form a sibling set.
//! A sibling set of `n` rows is dense when its sort orders are pairwise
//! different and all lie in `0..n`; they are then exactly `0, 1, .., n-1`.

use vstd::prelude::*;

verus! {

/// What the ordering reads of a row: its project, its sibling scope (the
/// parent of a folder, the folder of a document) and its sort order.
pub struct Slot {
    pub project: i64,
    pub scope: Option<i64>,
    pub order: Option<i64>,
}

/// The slot is a member of the sibling set `(project, scope)`.
pub open spec fn ranked(s: Slot, project: i64, scope: Option<i64>) -> bool {
    s.project == project && s.scope == scope && s.order is Some
}

/// The number of members of the sibling set.
pub open spec fn set_len(slots: Seq<Slot>, project: i64, scope: Option<i64>) -> nat
    decreases slots.len(),
{
    if slots.len() == 0 {
        0
    } else {
        set_len(slots.drop_last(), project, scope) + if ranked(slots.last(), project, scope) {
            1nat
        } else {
            0nat
        }
    }
}

/// The sibling set `(project, scope)` is dense.
pub open spec fn dense_in(slots: Seq<Slot>, project: i64, scope: Option<i64>) -> bool {
    &&& forall|i: int|
        0 <= i < slots.len() && ranked(#[trigger] slots[i], project, scope) ==> 0
            <= slots[i].order->0 < set_len(slots, project, scope)
    &&& forall|i: int, j: int|
        0 <= i < j < slots.len() && ranked(#[trigger] slots[i], project, scope) && ranked(
            #[trigger] slots[j],
            project,
            scope,
        ) ==> slots[i].order != slots[j].order
}

/// Every sibling set is dense.
pub open spec fn dense(slots: Seq<Slot>) -> bool {
    forall|project: i64, scope: Option<i64>| #[trigger] dense_in(slots, project, scope)
}

/// Some member of the sibling set sits at `order`.
pub open spec fn occupied(slots: Seq<Slot>, project: i64, scope: Option<i64>, order: i64) -> bool {
    exists|i: int|
        0 <= i < slots.len() && ranked(#[trigger] slots[i], project, scope) && slots[i].order
            == Some(order)
}

/// The greatest sort order of the sibling set, if it has a member.
pub open spec fn top_order(slots: Seq<Slot>, project: i64, scope: Option<i64>) -> Option<i64>
    decreases slots.len(),
{
    if slots.len() == 0 {
        None
    } else {
        let rest = top_order(slots.drop_last(), project, scope);
        let last = slots.last();
        if ranked(last, project, scope) {
            match rest {
                Some(m) => if m >= last.order->0 {
                    rest
                } else {
                    last.order
                },
                None => last.order,
            }
        } else {
            rest
        }
    }
}

/// The sort order that an appended row receives: one more than the
/// greatest, or 0 in an empty sibling set.
pub open spec fn next_order(slots: Seq<Slot>, project: i64, scope: Option<i64>) -> int {
    match top_order(slots, project, scope) {
        Some(m) => m + 1,
        None => 0,
    }
}

/// A sort order after room was made behind `after`: orders above `after`
/// move up by one.
pub open spec fn bumped(order: Option<i64>, after: i64) -> Option<i64> {
    match order {
        Some(o) => if o > after {
            Some((o + 1) as i64)
        } else {
            order
        },
        None => None,
    }
}

/// A sort order after the row at `gone` left: orders above `gone` move
/// down by one.
pub open spec fn lowered(order: Option<i64>, gone: i64) -> Option<i64> {
    match order {
        Some(o) => if o > gone {
            Some((o - 1) as i64)
        } else {
            order
        },
        None => None,
    }
}

/// A sort order after the rows at `a` and `b` changed places.
pub open spec fn swapped(order: Option<i64>, a: i64, b: i64) -> Option<i64> {
    if order == Some(a) {
        Some(b)
    } else if order == Some(b) {
        Some(a)
    } else {
        order
    }
}

/// Room can be made behind `after`: neither the new place nor a moved
/// order leaves the range of `i64`.
pub open spec fn has_room(slots: Seq<Slot>, project: i64, scope: Option<i64>, after: i64) -> bool {
    &&& after < i64::MAX
    &&& !occupied(slots, project, scope, i64::MAX)
}

/// The slot with room made behind `after` in the sibling set.
pub open spec fn bump_slot(s: Slot, project: i64, scope: Option<i64>, after: i64) -> Slot {
    if s.project == project && s.scope == scope {
        Slot { order: bumped(s.order, after), ..s }
    } else {
        s
    }
}

/// The slot with the gap at `gone` closed in the sibling set.
pub open spec fn lower_slot(s: Slot, project: i64, scope: Option<i64>, gone: i64) -> Slot {
    if s.project == project && s.scope == scope {
        Slot { order: lowered(s.order, gone), ..s }
    } else {
        s
    }
}

/// The slot with the places `a` and `b` exchanged in the sibling set.
pub open spec fn swap_slot(s: Slot, project: i64, scope: Option<i64>, a: i64, b: i64) -> Slot {
    if s.project == project && s.scope == scope {
        Slot { order: swapped(s.order, a, b), ..s }
    } else {
        s
    }
}

/// Two tables agree, place by place, on which rows are members of the
/// sibling set.
pub open spec fn same_members(a: Seq<Slot>, b: Seq<Slot>, project: i64, scope: Option<i64>) -> bool {
    &&& a.len() == b.len()
    &&& forall|i: int|
        0 <= i < a.len() ==> ranked(#[trigger] a[i], project, scope) == ranked(
            #[trigger] b[i],
            project,
            scope,
        )
}

/// Two tables with the same members, place by place, have sibling sets of
/// the same size.
pub proof fn lemma_set_len_same_members(
    a: Seq<Slot>,
    b: Seq<Slot>,
    project: i64,
    scope: Option<i64>,
)
    requires
        same_members(a, b, project, scope),
    ensures
        set_len(a, project, scope) == set_len(b, project, scope),
    decreases a.len(),
{
    if a.len() > 0 {
        assert(ranked(a[a.len() - 1], project, scope) == ranked(b[a.len() - 1], project, scope));
        assert forall|i: int| 0 <= i < a.drop_last().len() implies ranked(
            #[trigger] a.drop_last()[i],
            project,
            scope,
        ) == ranked(#[trigger] b.drop_last()[i], project, scope) by {
            assert(a.drop_last()[i] == a[i]);
            assert(b.drop_last()[i] == b[i]);
        }
        lemma_set_len_same_members(a.drop_last(), b.drop_last(), project, scope);
    }
}

/// The size of a sibling set after one more row.
pub proof fn lemma_set_len_push(slots: Seq<Slot>, s: Slot, project: i64, scope: Option<i64>)
    ensures
        set_len(slots.push(s), project, scope) == set_len(slots, project, scope) + if ranked(
            s,
            project,
            scope,
        ) {
            1nat
        } else {
            0nat
        },
{
    assert(slots.push(s).drop_last() =~= slots);
}

/// A sibling set has no more members than the table has rows.
pub proof fn lemma_set_len_bound(slots: Seq<Slot>, project: i64, scope: Option<i64>)
    ensures
        set_len(slots, project, scope) <= slots.len(),
    decreases slots.len(),
{
    if slots.len() > 0 {
        lemma_set_len_bound(slots.drop_last(), project, scope);
    }
}

/// The size of a sibling set after one row is taken out.
pub proof fn lemma_set_len_remove(slots: Seq<Slot>, k: int, project: i64, scope: Option<i64>)
    requires
        0 <= k < slots.len(),
    ensures
        set_len(slots.remove(k), project, scope) + (if ranked(slots[k], project, scope) {
            1nat
        } else {
            0nat
        }) == set_len(slots, project, scope),
    decreases slots.len(),
{
    if k == slots.len() - 1 {
        assert(slots.remove(k) =~= slots.drop_last());
    } else {
        assert(slots.remove(k).drop_last() =~= slots.drop_last().remove(k));
        assert(slots.remove(k).last() == slots.last());
        lemma_set_len_remove(slots.drop_last(), k, project, scope);
    }
}

/// A sibling set without members has no greatest order; otherwise the
/// greatest order is that of a member, and no member lies above it.
pub proof fn lemma_top_order(slots: Seq<Slot>, project: i64, scope: Option<i64>)
    ensures
        match top_order(slots, project, scope) {
            Some(m) => occupied(slots, project, scope, m) && forall|i: int|
                0 <= i < slots.len() && ranked(#[trigger] slots[i], project, scope)
                    ==> slots[i].order->0 <= m,
            None => forall|i: int|
                0 <= i < slots.len() ==> !ranked(#[trigger] slots[i], project, scope),
        },
    decreases slots.len(),
{
    if slots.len() > 0 {
        let rest = slots.drop_last();
        let n = slots.len() - 1;
        lemma_top_order(rest, project, scope);
        assert forall|i: int| 0 <= i < rest.len() implies #[trigger] rest[i] == slots[i] by {}
        match top_order(slots, project, scope) {
            Some(m) => {
                if ranked(slots[n], project, scope) && slots[n].order == Some(m) {
                    assert(occupied(slots, project, scope, m));
                } else {
                    assert(top_order(rest, project, scope) == Some(m));
                    let w = choose|i: int|
                        0 <= i < rest.len() && ranked(#[trigger] rest[i], project, scope)
                            && rest[i].order == Some(m);
                    assert(slots[w] == rest[w]);
                    assert(occupied(slots, project, scope, m));
                }
                assert forall|i: int|
                    0 <= i < slots.len() && ranked(
                        #[trigger] slots[i],
                        project,
                        scope,
                    ) implies slots[i].order->0 <= m by {
                    if i < n {
                        assert(rest[i] == slots[i]);
                    }
                }
            },
            None => {
                assert forall|i: int| 0 <= i < slots.len() implies !ranked(
                    #[trigger] slots[i],
                    project,
                    scope,
                ) by {
                    if i < n {
                        assert(rest[i] == slots[i]);
                    }
                }
            },
        }
    }
}

/// In a dense sibling set the next order is the number of members at
/// most, so appending cannot open a gap.
pub proof fn lemma_next_order_bound(slots: Seq<Slot>, project: i64, scope: Option<i64>)
    requires
        dense_in(slots, project, scope),
    ensures
        0 <= next_order(slots, project, scope) <= set_len(slots, project, scope),
{
    lemma_top_order(slots, project, scope);
    match top_order(slots, project, scope) {
        Some(m) => {
            let w = choose|i: int|
                0 <= i < slots.len() && ranked(#[trigger] slots[i], project, scope)
                    && slots[i].order == Some(m);
            assert(0 <= slots[w].order->0 < set_len(slots, project, scope));
        },
        None => {},
    }
}

/// Appending a row at the next order keeps its sibling set dense.
pub proof fn lemma_append_dense(slots: Seq<Slot>, project: i64, scope: Option<i64>, order: i64)
    requires
        dense_in(slots, project, scope),
        order == next_order(slots, project, scope),
    ensures
        dense_in(slots.push(Slot { project, scope, order: Some(order) }), project, scope),
{
    let s = Slot { project, scope, order: Some(order) };
    let after = slots.push(s);
    lemma_top_order(slots, project, scope);
    lemma_next_order_bound(slots, project, scope);
    lemma_set_len_push(slots, s, project, scope);
    assert forall|i: int|
        0 <= i < after.len() && ranked(#[trigger] after[i], project, scope) implies 0
        <= after[i].order->0 < set_len(after, project, scope) by {
        if i < slots.len() {
            assert(after[i] == slots[i]);
        }
    }
    assert forall|i: int, j: int|
        0 <= i < j < after.len() && ranked(#[trigger] after[i], project, scope) && ranked(
            #[trigger] after[j],
            project,
            scope,
        ) implies after[i].order != after[j].order by {
        assert(after[i] == slots[i]);
        if j < slots.len() {
            assert(after[j] == slots[j]);
        }
    }
}

/// A table changed only outside a sibling set leaves that set as dense
/// as it was.
pub proof fn lemma_dense_untouched(
    a: Seq<Slot>,
    b: Seq<Slot>,
    project: i64,
    scope: Option<i64>,
)
    requires
        dense_in(a, project, scope),
        same_members(a, b, project, scope),
        forall|i: int|
            0 <= i < a.len() && ranked(#[trigger] a[i], project, scope) ==> a[i].order
                == b[i].order,
    ensures
        dense_in(b, project, scope),
{
    lemma_set_len_same_members(a, b, project, scope);
    assert forall|i: int|
        0 <= i < b.len() && ranked(#[trigger] b[i], project, scope) implies 0
        <= b[i].order->0 < set_len(b, project, scope) by {
        assert(ranked(a[i], project, scope));
    }
    assert forall|i: int, j: int|
        0 <= i < j < b.len() && ranked(#[trigger] b[i], project, scope) && ranked(
            #[trigger] b[j],
            project,
            scope,
        ) implies b[i].order != b[j].order by {
        assert(ranked(a[i], project, scope));
        assert(ranked(a[j], project, scope));
    }
}

/// Appending a row that is no member of a sibling set leaves that set as
/// dense as it was.
pub proof fn lemma_push_outside(slots: Seq<Slot>, s: Slot, project: i64, scope: Option<i64>)
    requires
        dense_in(slots, project, scope),
        !ranked(s, project, scope),
    ensures
        dense_in(slots.push(s), project, scope),
{
    let after = slots.push(s);
    lemma_set_len_push(slots, s, project, scope);
    assert forall|i: int|
        0 <= i < after.len() && ranked(#[trigger] after[i], project, scope) implies 0
        <= after[i].order->0 < set_len(after, project, scope) by {
        assert(after[i] == slots[i]);
    }
    assert forall|i: int, j: int|
        0 <= i < j < after.len() && ranked(#[trigger] after[i], project, scope) && ranked(
            #[trigger] after[j],
            project,
            scope,
        ) implies after[i].order != after[j].order by {
        assert(after[i] == slots[i]);
        assert(after[j] == slots[j]);
    }
}

/// Making room behind `after` and putting a new row into it keeps the
/// sibling set dense, as long as `after` is a place of the set or -1.
pub proof fn lemma_insert_dense(
    slots: Seq<Slot>,
    made: Seq<Slot>,
    project: i64,
    scope: Option<i64>,
    after: i64,
)
    requires
        dense_in(slots, project, scope),
        -1 <= after < set_len(slots, project, scope),
        has_room(slots, project, scope, after),
        made.len() == slots.len(),
        forall|i: int|
            0 <= i < slots.len() ==> #[trigger] made[i] == bump_slot(
                slots[i],
                project,
                scope,
                after,
            ),
    ensures
        dense_in(
            made.push(Slot { project, scope, order: Some((after + 1) as i64) }),
            project,
            scope,
        ),
{
    let s = Slot { project, scope, order: Some((after + 1) as i64) };
    let done = made.push(s);
    lemma_set_len_bound(slots, project, scope);
    assert forall|i: int| 0 <= i < slots.len() implies ranked(
        #[trigger] slots[i],
        project,
        scope,
    ) == ranked(#[trigger] made[i], project, scope) by {}
    lemma_set_len_same_members(slots, made, project, scope);
    lemma_set_len_push(made, s, project, scope);
    assert forall|i: int|
        0 <= i < done.len() && ranked(#[trigger] done[i], project, scope) implies 0
        <= done[i].order->0 < set_len(done, project, scope) by {
        if i < slots.len() {
            assert(done[i] == made[i]);
            assert(ranked(slots[i], project, scope));
            assert(slots[i].order->0 != i64::MAX);
        }
    }
    assert forall|i: int, j: int|
        0 <= i < j < done.len() && ranked(#[trigger] done[i], project, scope) && ranked(
            #[trigger] done[j],
            project,
            scope,
        ) implies done[i].order != done[j].order by {
        assert(done[i] == made[i]);
        assert(ranked(slots[i], project, scope));
        assert(slots[i].order->0 != i64::MAX);
        if j < slots.len() {
            assert(done[j] == made[j]);
            assert(ranked(slots[j], project, scope));
            assert(slots[j].order->0 != i64::MAX);
        }
    }
}

/// Taking the row at place `k` out and closing the gap that it leaves
/// keeps its sibling set dense.
pub proof fn lemma_remove_dense(
    slots: Seq<Slot>,
    closed: Seq<Slot>,
    k: int,
    project: i64,
    scope: Option<i64>,
)
    requires
        dense_in(slots, project, scope),
        0 <= k < slots.len(),
        ranked(slots[k], project, scope),
        closed.len() == slots.len() - 1,
        forall|i: int|
            0 <= i < closed.len() ==> #[trigger] closed[i] == lower_slot(
                slots.remove(k)[i],
                project,
                scope,
                slots[k].order->0,
            ),
    ensures
        dense_in(closed, project, scope),
{
    let gone = slots[k].order->0;
    let rest = slots.remove(k);
    lemma_set_len_remove(slots, k, project, scope);
    assert forall|i: int| 0 <= i < rest.len() implies ranked(
        #[trigger] rest[i],
        project,
        scope,
    ) == ranked(#[trigger] closed[i], project, scope) by {}
    lemma_set_len_same_members(rest, closed, project, scope);
    assert forall|i: int|
        0 <= i < closed.len() && ranked(#[trigger] closed[i], project, scope) implies 0
        <= closed[i].order->0 < set_len(closed, project, scope) by {
        let src = if i < k {
            i
        } else {
            i + 1
        };
        assert(rest[i] == slots[src]);
        assert(ranked(slots[src], project, scope));
        if src < k {
            assert(slots[src].order != slots[k].order);
        } else {
            assert(slots[k].order != slots[src].order);
        }
    }
    assert forall|i: int, j: int|
        0 <= i < j < closed.len() && ranked(#[trigger] closed[i], project, scope) && ranked(
            #[trigger] closed[j],
            project,
            scope,
        ) implies closed[i].order != closed[j].order by {
        let si = if i < k {
            i
        } else {
            i + 1
        };
        let sj = if j < k {
            j
        } else {
            j + 1
        };
        assert(rest[i] == slots[si]);
        assert(rest[j] == slots[sj]);
        assert(ranked(slots[si], project, scope));
        assert(ranked(slots[sj], project, scope));
        assert(slots[si].order != slots[sj].order);
        if si < k {
            assert(slots[si].order != slots[k].order);
        } else {
            assert(slots[k].order != slots[si].order);
        }
        if sj < k {
            assert(slots[sj].order != slots[k].order);
        } else {
            assert(slots[k].order != slots[sj].order);
        }
    }
}

/// Taking out a row that is no member of a sibling set, and closing a gap
/// in another set, leaves the first set as dense as it was.
pub proof fn lemma_remove_outside(
    slots: Seq<Slot>,
    closed: Seq<Slot>,
    k: int,
    project: i64,
    scope: Option<i64>,
)
    requires
        dense_in(slots, project, scope),
        0 <= k < slots.len(),
        !ranked(slots[k], project, scope),
        closed.len() == slots.len() - 1,
        forall|i: int|
            0 <= i < closed.len() ==> ranked(slots.remove(k)[i], project, scope) == ranked(
                #[trigger] closed[i],
                project,
                scope,
            ),
        forall|i: int|
            0 <= i < closed.len() && ranked(slots.remove(k)[i], project, scope) ==> (
            #[trigger] closed[i]).order == slots.remove(k)[i].order,
    ensures
        dense_in(closed, project, scope),
{
    let rest = slots.remove(k);
    lemma_set_len_remove(slots, k, project, scope);
    assert forall|i: int| 0 <= i < rest.len() implies ranked(
        #[trigger] rest[i],
        project,
        scope,
    ) == ranked(#[trigger] closed[i], project, scope) by {}
    lemma_set_len_same_members(rest, closed, project, scope);
    assert forall|i: int|
        0 <= i < closed.len() && ranked(#[trigger] closed[i], project, scope) implies 0
        <= closed[i].order->0 < set_len(closed, project, scope) by {
        let src = if i < k {
            i
        } else {
            i + 1
        };
        assert(rest[i] == slots[src]);
        assert(ranked(rest[i], project, scope));
        assert(ranked(slots[src], project, scope));
    }
    assert forall|i: int, j: int|
        0 <= i < j < closed.len() && ranked(#[trigger] closed[i], project, scope) && ranked(
            #[trigger] closed[j],
            project,
            scope,
        ) implies closed[i].order != closed[j].order by {
        let si = if i < k {
            i
        } else {
            i + 1
        };
        let sj = if j < k {
            j
        } else {
            j + 1
        };
        assert(rest[i] == slots[si]);
        assert(rest[j] == slots[sj]);
        assert(ranked(rest[i], project, scope));
        assert(ranked(rest[j], project, scope));
        assert(ranked(slots[si], project, scope));
        assert(ranked(slots[sj], project, scope));
        assert(slots[si].order != slots[sj].order);
    }
}

/// Exchanging two places of a sibling set keeps it dense.
pub proof fn lemma_swap_dense(
    slots: Seq<Slot>,
    turned: Seq<Slot>,
    project: i64,
    scope: Option<i64>,
    a: i64,
    b: i64,
)
    requires
        dense_in(slots, project, scope),
        turned.len() == slots.len(),
        occupied(slots, project, scope, a),
        occupied(slots, project, scope, b),
        forall|i: int|
            0 <= i < slots.len() ==> #[trigger] turned[i] == swap_slot(
                slots[i],
                project,
                scope,
                a,
                b,
            ),
    ensures
        dense_in(turned, project, scope),
{
    assert forall|i: int| 0 <= i < slots.len() implies ranked(
        #[trigger] slots[i],
        project,
        scope,
    ) == ranked(#[trigger] turned[i], project, scope) by {}
    lemma_set_len_same_members(slots, turned, project, scope);
    let wa = choose|i: int|
        0 <= i < slots.len() && ranked(#[trigger] slots[i], project, scope) && slots[i].order
            == Some(a);
    let wb = choose|i: int|
        0 <= i < slots.len() && ranked(#[trigger] slots[i], project, scope) && slots[i].order
            == Some(b);
    assert(0 <= slots[wa].order->0 < set_len(slots, project, scope));
    assert(0 <= slots[wb].order->0 < set_len(slots, project, scope));
    assert forall|i: int|
        0 <= i < turned.len() && ranked(#[trigger] turned[i], project, scope) implies 0
        <= turned[i].order->0 < set_len(turned, project, scope) by {
        assert(ranked(slots[i], project, scope));
    }
    assert forall|i: int, j: int|
        0 <= i < j < turned.len() && ranked(#[trigger] turned[i], project, scope) && ranked(
            #[trigger] turned[j],
            project,
            scope,
        ) implies turned[i].order != turned[j].order by {
        assert(ranked(slots[i], project, scope));
        assert(ranked(slots[j], project, scope));
        assert(slots[i].order != slots[j].order);
    }
}

/// `src` names, in growing order, places of a table of `len` rows.
pub open spec fn picks(len: nat, src: Seq<int>) -> bool {
    &&& forall|i: int| 0 <= i < src.len() ==> 0 <= #[trigger] src[i] < len
    &&& forall|i: int, j: int| 0 <= i < j < src.len() ==> #[trigger] src[i] < #[trigger] src[j]
}

/// A table `b` that holds the rows of `a` at the places `src`, and with
/// them every member of the sibling set but the one at place `k` (none
/// is missing where `k` is no place of `a`), has that many members.
pub proof fn lemma_set_len_pruned(
    a: Seq<Slot>,
    b: Seq<Slot>,
    src: Seq<int>,
    k: int,
    project: i64,
    scope: Option<i64>,
)
    requires
        picks(a.len(), src),
        src.len() == b.len(),
        forall|i: int|
            0 <= i < b.len() ==> ranked(#[trigger] b[i], project, scope) == ranked(
                a[src[i]],
                project,
                scope,
            ),
        0 <= k < a.len() ==> ranked(a[k], project, scope),
        forall|i: int| 0 <= i < src.len() ==> #[trigger] src[i] != k,
        forall|j: int|
            0 <= j < a.len() && ranked(#[trigger] a[j], project, scope) && j != k
                ==> src.contains(j),
    ensures
        set_len(b, project, scope) + (if 0 <= k < a.len() {
            1nat
        } else {
            0nat
        }) == set_len(a, project, scope),
    decreases a.len(),
{
    if a.len() == 0 {
        if b.len() > 0 {
            assert(0 <= src[0] < a.len());
        }
    } else {
        let n = a.len() - 1;
        let ra = a.drop_last();
        if b.len() > 0 && src.last() == n {
            let rb = b.drop_last();
            let rs = src.drop_last();
            assert(src[src.len() - 1] != k);
            assert forall|i: int| 0 <= i < rs.len() implies 0 <= #[trigger] rs[i] < ra.len() by {
                assert(rs[i] == src[i]);
                assert(src[i] < src[src.len() - 1]);
            }
            assert forall|i: int, j: int| 0 <= i < j < rs.len() implies #[trigger] rs[i]
                < #[trigger] rs[j] by {
                assert(rs[i] == src[i] && rs[j] == src[j]);
            }
            assert forall|i: int| 0 <= i < rb.len() implies ranked(
                #[trigger] rb[i],
                project,
                scope,
            ) == ranked(ra[rs[i]], project, scope) by {
                assert(rb[i] == b[i]);
                assert(rs[i] == src[i]);
                assert(src[i] < src[src.len() - 1]);
            }
            assert forall|i: int| 0 <= i < rs.len() implies #[trigger] rs[i] != k by {
                assert(rs[i] == src[i]);
            }
            assert forall|j: int|
                0 <= j < ra.len() && ranked(#[trigger] ra[j], project, scope) && j
                    != k implies rs.contains(j) by {
                assert(ra[j] == a[j]);
                assert(src.contains(j));
                let w = choose|w: int| 0 <= w < src.len() && src[w] == j;
                assert(rs[w] == j);
            }
            lemma_set_len_pruned(ra, rb, rs, k, project, scope);
            assert(ranked(b[b.len() - 1], project, scope) == ranked(
                a[src[b.len() - 1]],
                project,
                scope,
            ));
        } else {
            assert forall|i: int| 0 <= i < src.len() implies #[trigger] src[i] < n by {
                if i < src.len() - 1 {
                    assert(src[i] < src[src.len() - 1]);
                }
            }
            if ranked(a[n], project, scope) && n != k {
                assert(src.contains(n));
                let w = choose|w: int| 0 <= w < src.len() && src[w] == n;
                assert(src[w] < n);
            }
            let rk = if k == n {
                -1
            } else {
                k
            };
            assert forall|i: int| 0 <= i < b.len() implies ranked(
                #[trigger] b[i],
                project,
                scope,
            ) == ranked(ra[src[i]], project, scope) by {
                assert(src[i] < n);
            }
            assert forall|j: int|
                0 <= j < ra.len() && ranked(#[trigger] ra[j], project, scope) && j
                    != rk implies src.contains(j) by {
                assert(ra[j] == a[j]);
            }
            lemma_set_len_pruned(ra, b, src, rk, project, scope);
        }
    }
}

/// Taking rows out of a table, among them exactly one member of a dense
/// sibling set, and closing the gap that the member leaves, keeps the set
/// dense.
pub proof fn lemma_prune_dense(
    slots: Seq<Slot>,
    kept: Seq<Slot>,
    src: Seq<int>,
    k: int,
    project: i64,
    scope: Option<i64>,
)
    requires
        dense_in(slots, project, scope),
        picks(slots.len(), src),
        src.len() == kept.len(),
        0 <= k < slots.len(),
        ranked(slots[k], project, scope),
        forall|i: int| 0 <= i < src.len() ==> #[trigger] src[i] != k,
        forall|j: int|
            0 <= j < slots.len() && ranked(#[trigger] slots[j], project, scope) && j != k
                ==> src.contains(j),
        forall|i: int|
            0 <= i < kept.len() ==> #[trigger] kept[i] == lower_slot(
                slots[src[i]],
                project,
                scope,
                slots[k].order->0,
            ),
    ensures
        dense_in(kept, project, scope),
{
    lemma_set_len_pruned(slots, kept, src, k, project, scope);
    assert forall|i: int|
        0 <= i < kept.len() && ranked(#[trigger] kept[i], project, scope) implies 0
        <= kept[i].order->0 < set_len(kept, project, scope) by {
        let si = src[i];
        assert(ranked(slots[si], project, scope));
        if si < k {
            assert(slots[si].order != slots[k].order);
        } else {
            assert(slots[k].order != slots[si].order);
        }
    }
    assert forall|i: int, j: int|
        0 <= i < j < kept.len() && ranked(#[trigger] kept[i], project, scope) && ranked(
            #[trigger] kept[j],
            project,
            scope,
        ) implies kept[i].order != kept[j].order by {
        let si = src[i];
        let sj = src[j];
        assert(si < sj);
        assert(ranked(slots[si], project, scope));
        assert(ranked(slots[sj], project, scope));
        assert(slots[si].order != slots[sj].order);
        if si < k {
            assert(slots[si].order != slots[k].order);
        } else {
            assert(slots[k].order != slots[si].order);
        }
        if sj < k {
            assert(slots[sj].order != slots[k].order);
        } else {
            assert(slots[k].order != slots[sj].order);
        }
    }
}

/// Taking rows out of a table, none of them a member of a dense sibling
/// set, leaves the set dense.
pub proof fn lemma_subtable_dense(
    slots: Seq<Slot>,
    kept: Seq<Slot>,
    src: Seq<int>,
    project: i64,
    scope: Option<i64>,
)
    requires
        dense_in(slots, project, scope),
        picks(slots.len(), src),
        src.len() == kept.len(),
        forall|j: int|
            0 <= j < slots.len() && ranked(#[trigger] slots[j], project, scope)
                ==> src.contains(j),
        forall|i: int|
            0 <= i < kept.len() ==> ranked(#[trigger] kept[i], project, scope) == ranked(
                slots[src[i]],
                project,
                scope,
            ),
        forall|i: int|
            0 <= i < kept.len() && ranked(#[trigger] kept[i], project, scope) ==> kept[i].order
                == slots[src[i]].order,
    ensures
        dense_in(kept, project, scope),
{
    lemma_set_len_pruned(slots, kept, src, -1, project, scope);
    assert forall|i: int|
        0 <= i < kept.len() && ranked(#[trigger] kept[i], project, scope) implies 0
        <= kept[i].order->0 < set_len(kept, project, scope) by {
        assert(ranked(slots[src[i]], project, scope));
    }
    assert forall|i: int, j: int|
        0 <= i < j < kept.len() && ranked(#[trigger] kept[i], project, scope) && ranked(
            #[trigger] kept[j],
            project,
            scope,
        ) implies kept[i].order != kept[j].order by {
        assert(src[i] < src[j]);
        assert(ranked(slots[src[i]], project, scope));
        assert(ranked(slots[src[j]], project, scope));
    }
}

/// A sibling set without members is dense.
pub proof fn lemma_empty_dense(slots: Seq<Slot>, project: i64, scope: Option<i64>)
    requires
        forall|i: int| 0 <= i < slots.len() ==> !ranked(#[trigger] slots[i], project, scope),
    ensures
        dense_in(slots, project, scope),
{
}

/// Putting a row that is no member of a sibling set into a table leaves
/// the set as dense as it was.
pub proof fn lemma_insert_outside(t: Seq<Slot>, k: int, project: i64, scope: Option<i64>)
    requires
        0 <= k < t.len(),
        !ranked(t[k], project, scope),
        dense_in(t.remove(k), project, scope),
    ensures
        dense_in(t, project, scope),
{
    let rest = t.remove(k);
    lemma_set_len_remove(t, k, project, scope);
    assert forall|i: int| 0 <= i < t.len() && ranked(#[trigger] t[i], project, scope) implies 0
        <= t[i].order->0 < set_len(t, project, scope) by {
        let r = if i < k {
            i
        } else {
            i - 1
        };
        assert(rest[r] == t[i]);
    }
    assert forall|i: int, j: int|
        0 <= i < j < t.len() && ranked(#[trigger] t[i], project, scope) && ranked(
            #[trigger] t[j],
            project,
            scope,
        ) implies t[i].order != t[j].order by {
        let ri = if i < k {
            i
        } else {
            i - 1
        };
        let rj = if j < k {
            j
        } else {
            j - 1
        };
        assert(rest[ri] == t[i]);
        assert(rest[rj] == t[j]);
    }
}

/// When a member leaves a dense sibling set for another set, and the gap
/// that it leaves is closed, the set stays dense.
pub proof fn lemma_leave_dense(
    slots: Seq<Slot>,
    ns: Seq<Slot>,
    at: int,
    project: i64,
    scope: Option<i64>,
)
    requires
        dense_in(slots, project, scope),
        0 <= at < slots.len(),
        ranked(slots[at], project, scope),
        ns.len() == slots.len(),
        !ranked(ns[at], project, scope),
        forall|i: int|
            0 <= i < slots.len() && i != at ==> #[trigger] ns[i] == lower_slot(
                slots[i],
                project,
                scope,
                slots[at].order->0,
            ),
    ensures
        dense_in(ns, project, scope),
{
    let closed = ns.remove(at);
    assert forall|i: int| 0 <= i < closed.len() implies #[trigger] closed[i] == lower_slot(
        slots.remove(at)[i],
        project,
        scope,
        slots[at].order->0,
    ) by {
        let src = if i < at {
            i
        } else {
            i + 1
        };
        assert(closed[i] == ns[src]);
        assert(slots.remove(at)[i] == slots[src]);
    }
    lemma_remove_dense(slots, closed, at, project, scope);
    lemma_insert_outside(ns, at, project, scope);
}

/// When a row that is no member of a dense sibling set joins it at the
/// next order, the set stays dense.
pub proof fn lemma_join_dense(
    slots: Seq<Slot>,
    ns: Seq<Slot>,
    at: int,
    project: i64,
    scope: Option<i64>,
)
    requires
        dense_in(slots, project, scope),
        0 <= at < slots.len(),
        !ranked(slots[at], project, scope),
        ns.len() == slots.len(),
        next_order(slots, project, scope) <= i64::MAX,
        ns[at] == (Slot {
            project,
            scope,
            order: Some(next_order(slots, project, scope) as i64),
        }),
        forall|i: int|
            0 <= i < slots.len() && i != at ==> ranked(#[trigger] ns[i], project, scope)
                == ranked(slots[i], project, scope),
        forall|i: int|
            0 <= i < slots.len() && i != at && ranked(#[trigger] ns[i], project, scope)
                ==> ns[i].order == slots[i].order,
    ensures
        dense_in(ns, project, scope),
{
    let a = slots.remove(at);
    let b = ns.remove(at);
    lemma_set_len_remove(slots, at, project, scope);
    lemma_set_len_remove(ns, at, project, scope);
    assert forall|i: int| 0 <= i < a.len() implies ranked(#[trigger] a[i], project, scope)
        == ranked(#[trigger] b[i], project, scope) by {
        let src = if i < at {
            i
        } else {
            i + 1
        };
        assert(a[i] == slots[src]);
        assert(b[i] == ns[src]);
    }
    lemma_set_len_same_members(a, b, project, scope);
    lemma_top_order(slots, project, scope);
    lemma_next_order_bound(slots, project, scope);
    assert forall|i: int|
        0 <= i < ns.len() && ranked(#[trigger] ns[i], project, scope) implies 0
        <= ns[i].order->0 < set_len(ns, project, scope) by {
        if i != at {
            assert(ranked(slots[i], project, scope));
        }
    }
    assert forall|i: int, j: int|
        0 <= i < j < ns.len() && ranked(#[trigger] ns[i], project, scope) && ranked(
            #[trigger] ns[j],
            project,
            scope,
        ) implies ns[i].order != ns[j].order by {
        if i != at {
            assert(ranked(slots[i], project, scope));
        }
        if j != at {
            assert(ranked(slots[j], project, scope));
        }
    }
}

/// When a member of a dense sibling set is put behind its last member,
/// and the gap that it leaves is closed, the set stays dense.
pub proof fn lemma_to_end_dense(
    slots: Seq<Slot>,
    ns: Seq<Slot>,
    at: int,
    project: i64,
    scope: Option<i64>,
)
    requires
        dense_in(slots, project, scope),
        0 <= at < slots.len(),
        ranked(slots[at], project, scope),
        ns.len() == slots.len(),
        next_order(slots, project, scope) <= i64::MAX,
        ns[at] == lower_slot(
            Slot { order: Some(next_order(slots, project, scope) as i64), ..slots[at] },
            project,
            scope,
            slots[at].order->0,
        ),
        forall|i: int|
            0 <= i < slots.len() && i != at ==> #[trigger] ns[i] == lower_slot(
                slots[i],
                project,
                scope,
                slots[at].order->0,
            ),
    ensures
        dense_in(ns, project, scope),
{
    assert forall|i: int| 0 <= i < slots.len() implies ranked(
        #[trigger] slots[i],
        project,
        scope,
    ) == ranked(#[trigger] ns[i], project, scope) by {}
    lemma_set_len_same_members(slots, ns, project, scope);
    lemma_top_order(slots, project, scope);
    lemma_next_order_bound(slots, project, scope);
    let m = top_order(slots, project, scope)->0;
    assert(slots[at].order->0 <= m);
    let w = choose|i: int|
        0 <= i < slots.len() && ranked(#[trigger] slots[i], project, scope) && slots[i].order
            == Some(m);
    assert(0 <= slots[w].order->0 < set_len(slots, project, scope));
    assert forall|i: int|
        0 <= i < ns.len() && ranked(#[trigger] ns[i], project, scope) implies 0
        <= ns[i].order->0 < set_len(ns, project, scope) by {
        assert(ranked(slots[i], project, scope));
        assert(0 <= slots[at].order->0);
    }
    assert forall|i: int, j: int|
        0 <= i < j < ns.len() && ranked(#[trigger] ns[i], project, scope) && ranked(
            #[trigger] ns[j],
            project,
            scope,
        ) implies ns[i].order != ns[j].order by {
        assert(ranked(slots[i], project, scope));
        assert(ranked(slots[j], project, scope));
        assert(slots[i].order != slots[j].order);
        assert(slots[i].order->0 <= m);
        assert(slots[j].order->0 <= m);
        if i != at {
            if i < at {
                assert(slots[i].order != slots[at].order);
            } else {
                assert(slots[at].order != slots[i].order);
            }
        }
        if j != at {
            if j < at {
                assert(slots[j].order != slots[at].order);
            } else {
                assert(slots[at].order != slots[j].order);
            }
        }
    }
}

} // verus!
