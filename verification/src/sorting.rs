//! Stable sorting by keys.
//!
//! A key is a sequence of integers, and keys compare as words do in a
//! dictionary. Sorting does not move the rows: it returns the order in
//! which to read them, a list of places. Rows with equal keys are read in
//! the order in which they stand.

use vstd::prelude::*;
use vstd::set_lib::{lemma_int_range, lemma_len_subset, lemma_subset_equality, set_int_range};
use crate::store::{growing, Keyed, Record};

verus! {

/// Dictionary order on keys: `a` comes no later than `b`.
pub open spec fn key_le(a: Seq<i64>, b: Seq<i64>) -> bool
    decreases a.len(),
{
    if a.len() == 0 {
        true
    } else if b.len() == 0 {
        false
    } else if a[0] != b[0] {
        a[0] < b[0]
    } else {
        key_le(a.drop_first(), b.drop_first())
    }
}

/// Of two keys, one comes no later than the other.
pub proof fn lemma_key_le_total(a: Seq<i64>, b: Seq<i64>)
    ensures
        key_le(a, b) || key_le(b, a),
    decreases a.len(),
{
    if a.len() > 0 && b.len() > 0 && a[0] == b[0] {
        lemma_key_le_total(a.drop_first(), b.drop_first());
    }
}

/// Dictionary order passes along a chain.
pub proof fn lemma_key_le_trans(a: Seq<i64>, b: Seq<i64>, c: Seq<i64>)
    requires
        key_le(a, b),
        key_le(b, c),
    ensures
        key_le(a, c),
    decreases a.len(),
{
    if a.len() > 0 && b.len() > 0 && c.len() > 0 && a[0] == b[0] && b[0] == c[0] {
        lemma_key_le_trans(a.drop_first(), b.drop_first(), c.drop_first());
    }
}

/// A key comes no later than itself.
pub proof fn lemma_key_le_refl(a: Seq<i64>)
    ensures
        key_le(a, a),
    decreases a.len(),
{
    if a.len() > 0 {
        lemma_key_le_refl(a.drop_first());
    }
}

/// Keys that come no later than each other are the same key.
pub proof fn lemma_key_le_antisym(a: Seq<i64>, b: Seq<i64>)
    requires
        key_le(a, b),
        key_le(b, a),
    ensures
        a == b,
    decreases a.len(),
{
    if a.len() > 0 && b.len() > 0 {
        lemma_key_le_antisym(a.drop_first(), b.drop_first());
        assert(a =~= seq![a[0]] + a.drop_first());
        assert(b =~= seq![b[0]] + b.drop_first());
    } else {
        assert(a =~= b);
    }
}

/// Whether `a` comes no later than `b` in dictionary order.
pub fn key_le_exec(a: &Vec<i64>, b: &Vec<i64>) -> (r: bool)
    ensures
        r == key_le(a@, b@),
{
    let mut i: usize = 0;
    proof {
        assert(a@.skip(0) =~= a@);
        assert(b@.skip(0) =~= b@);
    }
    while i < a.len() && i < b.len()
        invariant
            i <= a.len(),
            i <= b.len(),
            key_le(a@, b@) == key_le(a@.skip(i as int), b@.skip(i as int)),
        decreases a.len() - i,
    {
        proof {
            assert(a@.skip(i as int)[0] == a[i as int]);
            assert(b@.skip(i as int)[0] == b[i as int]);
            assert(a@.skip(i as int).drop_first() =~= a@.skip(i + 1));
            assert(b@.skip(i as int).drop_first() =~= b@.skip(i + 1));
        }
        if a[i] != b[i] {
            return a[i] < b[i];
        }
        i += 1;
    }
    proof {
        if i == a.len() {
            assert(a@.skip(i as int).len() == 0);
        } else {
            assert(b@.skip(i as int).len() == 0);
        }
    }
    i == a.len()
}

/// The keys of a table, as mathematics.
pub open spec fn keys_view(keys: Seq<Vec<i64>>) -> Seq<Seq<i64>> {
    Seq::new(keys.len(), |i: int| keys[i]@)
}

/// `ord` reads every place of the table once.
pub open spec fn is_reading(len: nat, ord: Seq<int>) -> bool {
    &&& ord.len() == len
    &&& forall|i: int| 0 <= i < ord.len() ==> 0 <= #[trigger] ord[i] < len
    &&& forall|i: int, j: int| 0 <= i < j < ord.len() ==> #[trigger] ord[i] != #[trigger] ord[j]
}

/// Read in the order `ord`, the keys never fall, and rows with equal keys
/// keep the order in which they stand.
pub open spec fn is_sorted_reading(keys: Seq<Seq<i64>>, ord: Seq<int>) -> bool {
    forall|i: int, j: int|
        0 <= i < j < ord.len() ==> key_le(keys[#[trigger] ord[i]], keys[#[trigger] ord[j]]) && (
        keys[ord[i]] == keys[ord[j]] ==> ord[i] < ord[j])
}

/// `ord` is the stable sorting of the table by its keys.
pub open spec fn is_stable_order(keys: Seq<Seq<i64>>, ord: Seq<int>) -> bool {
    is_reading(keys.len(), ord) && is_sorted_reading(keys, ord)
}

/// The places of a list, as mathematics.
pub open spec fn places_view(ord: Seq<usize>) -> Seq<int> {
    Seq::new(ord.len(), |i: int| ord[i] as int)
}

/// The order in which to read the table so that its keys never fall;
/// rows with equal keys keep the order in which they stand.
pub fn stable_order(keys: &Vec<Vec<i64>>) -> (r: Vec<usize>)
    ensures
        is_stable_order(keys_view(keys@), places_view(r@)),
{
    let ghost kv = keys_view(keys@);
    let mut ord: Vec<usize> = Vec::new();
    let mut n: usize = 0;
    while n < keys.len()
        invariant
            n <= keys.len(),
            kv == keys_view(keys@),
            ord.len() == n,
            forall|i: int| 0 <= i < n ==> 0 <= #[trigger] ord[i] < n,
            forall|i: int, j: int| 0 <= i < j < n ==> #[trigger] ord[i] != #[trigger] ord[j],
            forall|i: int, j: int|
                0 <= i < j < n ==> key_le(kv[#[trigger] ord[i] as int], kv[#[trigger] ord[j] as int])
                    && (kv[ord[i] as int] == kv[ord[j] as int] ==> ord[i] < ord[j]),
        decreases keys.len() - n,
    {
        let mut p: usize = n;
        while p > 0 && !key_le_exec(&keys[ord[p - 1]], &keys[n])
            invariant
                p <= n,
                n < keys.len(),
                ord.len() == n,
                kv == keys_view(keys@),
                forall|i: int| 0 <= i < n ==> 0 <= #[trigger] ord[i] < n,
                forall|j: int| p <= j < n ==> !key_le(kv[#[trigger] ord[j] as int], kv[n as int]),
            decreases p,
        {
            p -= 1;
        }
        let ghost before = ord@;
        ord.insert(p, n);
        proof {
            let after = ord@;
            assert forall|i: int| 0 <= i < n + 1 implies 0 <= #[trigger] after[i] < n + 1 by {
                if i < p {
                    assert(after[i] == before[i]);
                } else if i > p {
                    assert(after[i] == before[i - 1]);
                }
            }
            assert forall|i: int, j: int| 0 <= i < j < n + 1 implies #[trigger] after[i]
                != #[trigger] after[j] by {
                let bi = if i < p {
                    i
                } else {
                    i - 1
                };
                let bj = if j < p {
                    j
                } else {
                    j - 1
                };
                if i != p {
                    assert(after[i] == before[bi]);
                }
                if j != p {
                    assert(after[j] == before[bj]);
                }
            }
            assert forall|i: int, j: int| 0 <= i < j < n + 1 implies key_le(
                kv[#[trigger] after[i] as int],
                kv[#[trigger] after[j] as int],
            ) && (kv[after[i] as int] == kv[after[j] as int] ==> after[i] < after[j]) by {
                let bi = if i < p {
                    i
                } else {
                    i - 1
                };
                let bj = if j < p {
                    j
                } else {
                    j - 1
                };
                if i != p {
                    assert(after[i] == before[bi]);
                }
                if j != p {
                    assert(after[j] == before[bj]);
                }
                if j == p {
                    // the rows before the new one come no later than it
                    if bi < p - 1 {
                        assert(key_le(kv[before[bi] as int], kv[before[p - 1] as int]));
                        lemma_key_le_trans(
                            kv[before[bi] as int],
                            kv[before[p - 1] as int],
                            kv[n as int],
                        );
                    }
                } else if i == p {
                    // the rows behind the new one come strictly later
                    lemma_key_le_total(kv[before[bj] as int], kv[n as int]);
                    if kv[n as int] == kv[before[bj] as int] {
                        lemma_key_le_refl(kv[n as int]);
                    }
                } else {
                    assert(bi < bj);
                }
            }
        }
        n += 1;
    }
    proof {
        let ord_view = places_view(ord@);
        assert forall|i: int, j: int| 0 <= i < j < ord_view.len() implies key_le(
            kv[#[trigger] ord_view[i]],
            kv[#[trigger] ord_view[j]],
        ) && (kv[ord_view[i]] == kv[ord_view[j]] ==> ord_view[i] < ord_view[j]) by {
            assert(ord_view[i] == ord[i] as int);
            assert(ord_view[j] == ord[j] as int);
        }
        assert forall|i: int, j: int| 0 <= i < j < ord_view.len() implies #[trigger] ord_view[i]
            != #[trigger] ord_view[j] by {
            assert(ord_view[i] == ord[i] as int);
            assert(ord_view[j] == ord[j] as int);
        }
    }
    ord
}

/// A reading of a table leaves no place out.
pub proof fn lemma_reading_onto(len: nat, ord: Seq<int>, m: int)
    requires
        is_reading(len, ord),
        0 <= m < len,
    ensures
        ord.contains(m),
{
    assert(ord.no_duplicates()) by {
        assert forall|i: int, j: int|
            0 <= i < ord.len() && 0 <= j < ord.len() && i != j implies ord[i] != ord[j] by {
            if i < j {
                assert(ord[i] != ord[j]);
            } else {
                assert(ord[j] != ord[i]);
            }
        }
    }
    ord.unique_seq_to_set();
    lemma_int_range(0, len as int);
    let all = set_int_range(0, len as int);
    assert(ord.to_set().subset_of(all)) by {
        assert forall|a: int| ord.to_set().contains(a) implies all.contains(a) by {
            let i = choose|i: int| 0 <= i < ord.len() && ord[i] == a;
            assert(0 <= ord[i] < len);
        }
    }
    lemma_len_subset(ord.to_set(), all);
    lemma_subset_equality(ord.to_set(), all);
    assert(all.contains(m));
}

/// `rows` lists the rows of `table` that are `wanted`, each once, sorted
/// by `sort_key`; rows with equal keys stand in the order of their
/// identifiers.
pub open spec fn is_listing<R: Keyed>(
    rows: Seq<R>,
    table: Seq<R>,
    wanted: spec_fn(R) -> bool,
    sort_key: spec_fn(R) -> Seq<i64>,
) -> bool {
    &&& forall|k: int|
        0 <= k < rows.len() ==> table.contains(#[trigger] rows[k]) && wanted(rows[k])
    &&& forall|i: int|
        0 <= i < table.len() && wanted(#[trigger] table[i]) ==> rows.contains(table[i])
    &&& forall|k: int, l: int|
        0 <= k < l < rows.len() ==> key_le(sort_key(#[trigger] rows[k]), sort_key(#[trigger] rows[l]))
            && (sort_key(rows[k]) == sort_key(rows[l]) ==> rows[k].key() < rows[l].key())
}

/// `picked` names, in growing order, exactly the places of the rows of
/// `table` that are `wanted`.
pub open spec fn picks_wanted<R>(table: Seq<R>, picked: Seq<usize>, wanted: spec_fn(R) -> bool) -> bool {
    &&& forall|m: int|
        0 <= m < picked.len() ==> #[trigger] picked[m] < table.len() && wanted(
            table[picked[m] as int],
        )
    &&& forall|m: int, n: int| 0 <= m < n < picked.len() ==> #[trigger] picked[m] < #[trigger] picked[n]
    &&& forall|i: int|
        0 <= i < table.len() && wanted(#[trigger] table[i]) ==> picked.contains(i as usize)
}

/// Copies of the picked rows of the table, sorted by their keys.
pub(crate) fn list_sorted<T: Record>(
    table: &Vec<T>,
    picked: &Vec<usize>,
    keys: &Vec<Vec<i64>>,
    Ghost(wanted): Ghost<spec_fn(T::V) -> bool>,
    Ghost(sort_key): Ghost<spec_fn(T::V) -> Seq<i64>>,
) -> (r: Vec<T>) where <T as DeepView>::V: Keyed
    requires
        growing(table.deep_view()),
        picks_wanted(table.deep_view(), picked@, wanted),
        keys.len() == picked.len(),
        forall|m: int|
            0 <= m < picked.len() ==> (#[trigger] keys[m])@ == sort_key(
                table.deep_view()[picked[m] as int],
            ),
    ensures
        is_listing(r.deep_view(), table.deep_view(), wanted, sort_key),
        r.len() == picked.len(),
{
    let ghost view = table.deep_view();
    let ghost kv = keys_view(keys@);
    let ord = stable_order(keys);
    let ghost ov = places_view(ord@);
    let mut out: Vec<T> = Vec::new();
    let mut k: usize = 0;
    while k < ord.len()
        invariant
            k <= ord.len(),
            ord.len() == picked.len(),
            keys.len() == picked.len(),
            view == table.deep_view(),
            ov == places_view(ord@),
            is_stable_order(keys_view(keys@), ov),
            forall|m: int| 0 <= m < picked.len() ==> #[trigger] picked[m] < table.len(),
            out.len() == k,
            forall|j: int|
                0 <= j < k ==> #[trigger] out.deep_view()[j] == view[picked[ord[j] as int] as int],
        decreases ord.len() - k,
    {
        let ghost prev = out.deep_view();
        assert(ov[k as int] == ord[k as int]);
        let at = picked[ord[k]];
        out.push(table[at].copy());
        proof {
            let now = out.deep_view();
            assert forall|j: int| 0 <= j < k + 1 implies #[trigger] now[j]
                == view[picked[ord[j] as int] as int] by {
                if j < k {
                    assert(now[j] == prev[j]);
                }
            }
        }
        k += 1;
    }
    proof {
        let rows = out.deep_view();
        assert forall|j: int| 0 <= j < rows.len() implies table.deep_view().contains(
            #[trigger] rows[j],
        ) && wanted(rows[j]) by {
            assert(ov[j] == ord[j]);
            let m = ord[j] as int;
            assert(view[picked[m] as int] == rows[j]);
        }
        assert forall|i: int| 0 <= i < view.len() && wanted(#[trigger] view[i]) implies rows.contains(
            view[i],
        ) by {
            assert(picked@.contains(i as usize));
            let m = choose|m: int| 0 <= m < picked.len() && picked[m] == i as usize;
            lemma_reading_onto(keys.len() as nat, ov, m);
            let j = choose|j: int| 0 <= j < ov.len() && ov[j] == m;
            assert(ov[j] == ord[j]);
            assert(rows[j] == view[i]);
        }
        assert forall|a: int, b: int| 0 <= a < b < rows.len() implies key_le(
            sort_key(#[trigger] rows[a]),
            sort_key(#[trigger] rows[b]),
        ) && (sort_key(rows[a]) == sort_key(rows[b]) ==> rows[a].key() < rows[b].key()) by {
            assert(ov[a] == ord[a]);
            assert(ov[b] == ord[b]);
            let ma = ov[a];
            let mb = ov[b];
            assert(kv[ma] == keys[ma]@);
            assert(kv[mb] == keys[mb]@);
            assert(key_le(kv[ma], kv[mb]));
            if sort_key(rows[a]) == sort_key(rows[b]) {
                assert(ma < mb);
                assert(picked[ma] < picked[mb]);
                assert(view[picked[ma] as int].key() < view[picked[mb] as int].key());
            }
        }
    }
    out
}

/// A list that names places of a table, each at most once, is no longer
/// than the table.
pub proof fn lemma_selection_fits(len: nat, ord: Seq<int>)
    requires
        forall|i: int| 0 <= i < ord.len() ==> 0 <= #[trigger] ord[i] < len,
        forall|i: int, j: int| 0 <= i < j < ord.len() ==> #[trigger] ord[i] != #[trigger] ord[j],
    ensures
        ord.len() <= len,
{
    assert(ord.no_duplicates()) by {
        assert forall|i: int, j: int|
            0 <= i < ord.len() && 0 <= j < ord.len() && i != j implies ord[i] != ord[j] by {
            if i < j {
                assert(ord[i] != ord[j]);
            } else {
                assert(ord[j] != ord[i]);
            }
        }
    }
    ord.unique_seq_to_set();
    lemma_int_range(0, len as int);
    let all = set_int_range(0, len as int);
    assert(ord.to_set().subset_of(all)) by {
        assert forall|a: int| ord.to_set().contains(a) implies all.contains(a) by {
            let i = choose|i: int| 0 <= i < ord.len() && ord[i] == a;
            assert(0 <= ord[i] < len);
        }
    }
    lemma_len_subset(ord.to_set(), all);
}

/// One row stands before another in a listing: its key comes first, or
/// the keys are the same and its identifier is the lower one.
pub open spec fn stands_before<R: Keyed>(x: R, y: R, sort_key: spec_fn(R) -> Seq<i64>) -> bool {
    key_le(sort_key(x), sort_key(y)) && (sort_key(x) == sort_key(y) ==> x.key() < y.key())
}

/// Two listings of one table agree up to the place `i`.
pub proof fn lemma_listings_agree<R: Keyed>(
    a: Seq<R>,
    b: Seq<R>,
    table: Seq<R>,
    wanted: spec_fn(R) -> bool,
    sort_key: spec_fn(R) -> Seq<i64>,
    i: int,
)
    requires
        is_listing(a, table, wanted, sort_key),
        is_listing(b, table, wanted, sort_key),
        0 <= i < a.len(),
    ensures
        i < b.len(),
        a[i] == b[i],
    decreases i,
{
    assert(table.contains(a[i]));
    let t = choose|t: int| 0 <= t < table.len() && table[t] == a[i];
    assert(b.contains(table[t]));
    let j = choose|j: int| 0 <= j < b.len() && b[j] == a[i];
    if j < i {
        lemma_listings_agree(a, b, table, wanted, sort_key, j);
        assert(stands_before(a[j], a[i], sort_key));
    } else if j > i {
        assert(table.contains(b[i]));
        let u = choose|u: int| 0 <= u < table.len() && table[u] == b[i];
        assert(a.contains(table[u]));
        let k = choose|k: int| 0 <= k < a.len() && a[k] == b[i];
        assert(stands_before(b[i], b[j], sort_key));
        if k < i {
            lemma_listings_agree(a, b, table, wanted, sort_key, k);
            assert(stands_before(b[k], b[i], sort_key));
        } else if k > i {
            assert(stands_before(a[i], a[k], sort_key));
            lemma_key_le_antisym(sort_key(a[i]), sort_key(b[i]));
        }
    }
}

/// A table has one listing only: what lists the wanted rows of a table,
/// each once and sorted, is determined by the table.
pub proof fn lemma_listing_unique<R: Keyed>(
    a: Seq<R>,
    b: Seq<R>,
    table: Seq<R>,
    wanted: spec_fn(R) -> bool,
    sort_key: spec_fn(R) -> Seq<i64>,
)
    requires
        is_listing(a, table, wanted, sort_key),
        is_listing(b, table, wanted, sort_key),
    ensures
        a == b,
{
    assert forall|i: int| 0 <= i < a.len() implies i < b.len() && a[i] == b[i] by {
        lemma_listings_agree(a, b, table, wanted, sort_key, i);
    }
    assert forall|i: int| 0 <= i < b.len() implies i < a.len() && b[i] == a[i] by {
        lemma_listings_agree(b, a, table, wanted, sort_key, i);
    }
    if a.len() > 0 {
        lemma_listings_agree(a, b, table, wanted, sort_key, a.len() - 1);
    }
    if b.len() > 0 {
        lemma_listings_agree(b, a, table, wanted, sort_key, b.len() - 1);
    }
    assert(a =~= b);
}

} // verus!
