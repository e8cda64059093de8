//! What falls with a folder: the folders below it, the documents filed in
//! any of them, and whatever hangs on those documents and folders.

use vstd::prelude::*;
use crate::models::{Doc, DocGroup, DocGroupView, DocView, Draft, DraftView, FolderDraft,
    FolderDraftView};
use crate::store::{growing, has_key, lemma_place_of, place_of, row_of, Keyed, Link, StoreView};
use crate::tables::holds;

verus! {

/// The parent of the folder `id`, where the folder exists and has one.
pub open spec fn parent_in(groups: Seq<DocGroupView>, id: i64) -> Option<i64> {
    match row_of(groups, id) {
        Some(g) => g.parent_id,
        None => None,
    }
}

/// The folder `id` is `root` or lies below it.
pub open spec fn under(groups: Seq<DocGroupView>, id: i64, root: i64) -> bool
    decreases id,
{
    id == root || match parent_in(groups, id) {
        Some(p) => 0 <= p < id && under(groups, p, root),
        None => false,
    }
}

/// The document is filed in `root` or below it.
pub open spec fn doc_falls(groups: Seq<DocGroupView>, d: DocView, root: i64) -> bool {
    d.doc_group_id matches Some(g) && under(groups, g, root)
}

/// The document `doc_id` exists and is filed in `root` or below it.
pub open spec fn doc_id_falls(v: StoreView, doc_id: i64, root: i64) -> bool {
    match row_of(v.docs, doc_id) {
        Some(d) => doc_falls(v.groups, d, root),
        None => false,
    }
}

/// A folder below `root` was created after it.
pub proof fn lemma_under_above(groups: Seq<DocGroupView>, id: i64, root: i64)
    requires
        under(groups, id, root),
    ensures
        id >= root,
    decreases id,
{
    if id != root {
        lemma_under_above(groups, parent_in(groups, id)->0, root);
    }
}

/// Whatever lies below an existing folder exists.
pub proof fn lemma_under_exists(groups: Seq<DocGroupView>, id: i64, root: i64)
    requires
        under(groups, id, root),
        has_key(groups, root),
    ensures
        has_key(groups, id),
{
}

/// The identifiers of the folders that fall with `root`, and for each
/// folder of the table whether it stays.
pub fn fallen_groups(groups: &Vec<DocGroup>, root: i64) -> (r: (Vec<i64>, Vec<bool>))
    requires
        growing(groups.deep_view()),
        has_key(groups.deep_view(), root),
    ensures
        forall|x: i64| r.0@.contains(x) == under(groups.deep_view(), x, root),
        r.1.len() == groups.len(),
        forall|i: int|
            0 <= i < groups.len() ==> #[trigger] r.1[i] == !under(
                groups.deep_view(),
                groups.deep_view()[i].id,
                root,
            ),
{
    let ghost view = groups.deep_view();
    let mut ids: Vec<i64> = Vec::new();
    let mut keep: Vec<bool> = Vec::new();
    let mut i: usize = 0;
    while i < groups.len()
        invariant
            i <= groups.len(),
            view == groups.deep_view(),
            growing(view),
            has_key(view, root),
            keep.len() == i,
            forall|x: i64| ids@.contains(x) ==> under(view, x, root),
            forall|j: int|
                0 <= j < i && under(view, (#[trigger] view[j]).id, root) ==> ids@.contains(
                    view[j].id,
                ),
            forall|j: int| 0 <= j < i ==> #[trigger] keep[j] == !under(view, view[j].id, root),
        decreases groups.len() - i,
    {
        let g = &groups[i];
        let ghost prev = ids@;
        proof {
            lemma_place_of(view, i as int);
            assert(parent_in(view, g.id) == g.parent_id);
        }
        let falls = g.id == root || match g.parent_id {
            Some(p) => {
                proof {
                    if 0 <= p < g.id && under(view, p, root) {
                        lemma_under_exists(view, p, root);
                        let jp = place_of(view, p);
                        assert(view[jp].key() == p);
                        if jp >= i {
                            if jp > i {
                                assert(view[i as int].key() < view[jp].key());
                            }
                        }
                    }
                }
                0 <= p && p < g.id && holds(&ids, p)
            },
            None => false,
        };
        assert(falls == under(view, g.id, root));
        if falls {
            ids.push(g.id);
            assert forall|x: i64| ids@.contains(x) implies under(view, x, root) by {
                let w = choose|w: int| 0 <= w < ids@.len() && ids@[w] == x;
                if w < prev.len() {
                    assert(prev[w] == x);
                    assert(prev.contains(x));
                }
            }
            assert forall|j: int|
                0 <= j < i + 1 && under(view, (#[trigger] view[j]).id, root) implies ids@.contains(
                view[j].id,
            ) by {
                if j < i {
                    assert(prev.contains(view[j].id));
                    let w = choose|w: int| 0 <= w < prev.len() && prev[w] == view[j].id;
                    assert(ids@[w] == view[j].id);
                } else {
                    assert(ids@[ids@.len() - 1] == view[j].id);
                }
            }
        }
        keep.push(!falls);
        i += 1;
    }
    proof {
        assert forall|x: i64| under(view, x, root) implies ids@.contains(x) by {
            lemma_under_exists(view, x, root);
            let j = place_of(view, x);
            assert(view[j].key() == x);
        }
    }
    (ids, keep)
}

/// The identifiers of the documents that fall with the folders named,
/// and for each document of the table whether it stays.
pub(crate) fn fallen_docs(
    docs: &Vec<Doc>,
    gone_groups: &Vec<i64>,
    Ghost(v): Ghost<StoreView>,
    Ghost(root): Ghost<i64>,
) -> (r: (Vec<i64>, Vec<bool>))
    requires
        v.docs == docs.deep_view(),
        growing(v.docs),
        forall|x: i64| gone_groups@.contains(x) == under(v.groups, x, root),
    ensures
        forall|x: i64| r.0@.contains(x) == doc_id_falls(v, x, root),
        r.1.len() == docs.len(),
        forall|i: int|
            0 <= i < docs.len() ==> #[trigger] r.1[i] == !doc_falls(v.groups, v.docs[i], root),
{
    let ghost view = docs.deep_view();
    let mut ids: Vec<i64> = Vec::new();
    let mut keep: Vec<bool> = Vec::new();
    let mut i: usize = 0;
    while i < docs.len()
        invariant
            i <= docs.len(),
            view == docs.deep_view(),
            view == v.docs,
            growing(view),
            keep.len() == i,
            forall|x: i64| gone_groups@.contains(x) == under(v.groups, x, root),
            forall|x: i64| ids@.contains(x) ==> doc_id_falls(v, x, root),
            forall|j: int|
                0 <= j < i && doc_falls(v.groups, #[trigger] view[j], root) ==> ids@.contains(
                    view[j].id,
                ),
            forall|j: int|
                0 <= j < i ==> #[trigger] keep[j] == !doc_falls(v.groups, view[j], root),
        decreases docs.len() - i,
    {
        let d = &docs[i];
        let ghost prev = ids@;
        proof {
            lemma_place_of(view, i as int);
        }
        let falls = match d.doc_group_id {
            Some(g) => holds(gone_groups, g),
            None => false,
        };
        assert(falls == doc_falls(v.groups, view[i as int], root));
        if falls {
            ids.push(d.id);
            assert forall|x: i64| ids@.contains(x) implies doc_id_falls(v, x, root) by {
                let w = choose|w: int| 0 <= w < ids@.len() && ids@[w] == x;
                if w < prev.len() {
                    assert(prev[w] == x);
                    assert(prev.contains(x));
                }
            }
            assert forall|j: int|
                0 <= j < i + 1 && doc_falls(
                    v.groups,
                    #[trigger] view[j],
                    root,
                ) implies ids@.contains(view[j].id) by {
                if j < i {
                    assert(prev.contains(view[j].id));
                    let w = choose|w: int| 0 <= w < prev.len() && prev[w] == view[j].id;
                    assert(ids@[w] == view[j].id);
                } else {
                    assert(ids@[ids@.len() - 1] == view[j].id);
                }
            }
        }
        keep.push(!falls);
        i += 1;
    }
    proof {
        assert forall|x: i64| doc_id_falls(v, x, root) implies ids@.contains(x) by {
            let j = place_of(view, x);
            assert(view[j].key() == x);
            lemma_place_of(view, j);
        }
    }
    (ids, keep)
}

/// For each pair of the relation, whether its owner is absent from the
/// list.
pub fn links_clear_of(links: &Vec<Link>, gone: &Vec<i64>) -> (r: Vec<bool>)
    ensures
        r.len() == links.len(),
        forall|i: int| 0 <= i < links.len() ==> #[trigger] r[i] == !gone@.contains(links[i].owner),
{
    let mut keep: Vec<bool> = Vec::new();
    let mut i: usize = 0;
    while i < links.len()
        invariant
            i <= links.len(),
            keep.len() == i,
            forall|j: int| 0 <= j < i ==> #[trigger] keep[j] == !gone@.contains(links[j].owner),
        decreases links.len() - i,
    {
        let stays = !holds(gone, links[i].owner);
        keep.push(stays);
        i += 1;
    }
    keep
}

/// For each draft, whether its document is absent from the list.
pub fn drafts_clear_of(drafts: &Vec<Draft>, gone: &Vec<i64>) -> (r: Vec<bool>)
    ensures
        r.len() == drafts.len(),
        forall|i: int|
            0 <= i < drafts.len() ==> #[trigger] r[i] == !gone@.contains(
                drafts.deep_view()[i].doc_id,
            ),
{
    let mut keep: Vec<bool> = Vec::new();
    let mut i: usize = 0;
    while i < drafts.len()
        invariant
            i <= drafts.len(),
            keep.len() == i,
            forall|j: int|
                0 <= j < i ==> #[trigger] keep[j] == !gone@.contains(
                    drafts.deep_view()[j].doc_id,
                ),
        decreases drafts.len() - i,
    {
        let stays = !holds(gone, drafts[i].doc_id);
        keep.push(stays);
        i += 1;
    }
    keep
}

/// For each folder draft, whether its folder is absent from the list.
pub fn folder_drafts_clear_of(drafts: &Vec<FolderDraft>, gone: &Vec<i64>) -> (r: Vec<bool>)
    ensures
        r.len() == drafts.len(),
        forall|i: int|
            0 <= i < drafts.len() ==> #[trigger] r[i] == !gone@.contains(
                drafts.deep_view()[i].doc_group_id,
            ),
{
    let mut keep: Vec<bool> = Vec::new();
    let mut i: usize = 0;
    while i < drafts.len()
        invariant
            i <= drafts.len(),
            keep.len() == i,
            forall|j: int|
                0 <= j < i ==> #[trigger] keep[j] == !gone@.contains(
                    drafts.deep_view()[j].doc_group_id,
                ),
        decreases drafts.len() - i,
    {
        let stays = !holds(gone, drafts[i].doc_group_id);
        keep.push(stays);
        i += 1;
    }
    keep
}

/// The folders that stay when `root` falls.
pub open spec fn group_stays(groups: Seq<DocGroupView>, root: i64) -> spec_fn(DocGroupView) -> bool {
    |g: DocGroupView| !under(groups, g.id, root)
}

/// The documents that stay when `root` falls.
pub open spec fn doc_stays(groups: Seq<DocGroupView>, root: i64) -> spec_fn(DocView) -> bool {
    |d: DocView| !doc_falls(groups, d, root)
}

/// The drafts that stay when `root` falls.
pub open spec fn draft_stays(v: StoreView, root: i64) -> spec_fn(DraftView) -> bool {
    |r: DraftView| !doc_id_falls(v, r.doc_id, root)
}

/// The folder drafts that stay when `root` falls.
pub open spec fn folder_draft_stays(groups: Seq<DocGroupView>, root: i64) -> spec_fn(
    FolderDraftView,
) -> bool {
    |r: FolderDraftView| !under(groups, r.doc_group_id, root)
}

/// The pairs owned by a document that stay when `root` falls.
pub open spec fn doc_link_stays(v: StoreView, root: i64) -> spec_fn(Link) -> bool {
    |l: Link| !doc_id_falls(v, l.owner, root)
}

/// The pairs owned by a folder that stay when `root` falls.
pub open spec fn group_link_stays(groups: Seq<DocGroupView>, root: i64) -> spec_fn(Link) -> bool {
    |l: Link| !under(groups, l.owner, root)
}

} // verus!
