//! Export: the folders and documents of a project laid out as a tree of
//! directories and text files, with names that number the siblings in
//! their order.
//!
//! The library plans the export; writing the plan to disk is the
//! caller's part. A folder that is the `i`-th among its siblings becomes
//! the directory `"i name"`. The `j`-th document of that folder becomes
//! the file `"i.j name.txt"` in it, and the `k`-th of its drafts, the
//! latest first, the file `"i.j name draft-k.txt"` beside it.

use vstd::prelude::*;
use crate::models::{Doc, DocGroup, DocGroupView, DocView, Draft, DraftView};
use crate::sorting::{key_le, key_le_exec, lemma_key_le_antisym, lemma_key_le_refl};
use crate::store::{
    growing, has_key, lemma_place_of, place_of, position, row_of, Keyed, Store, StoreError,
    StoreView,
};
use crate::tables::lemma_filter_push;
use crate::text::{
    decimal, latest_first_key, latest_first_key_of, push_chars, push_decimal, push_text,
    sanitize_chars, sanitized, text_of,
};

verus! {

/// One key comes strictly before another.
pub open spec fn key_lt(a: Seq<i64>, b: Seq<i64>) -> bool {
    key_le(a, b) && a != b
}

/// The key by which siblings are numbered: the sort order, a missing one
/// counting as 0 and standing before a 0 that is there, then the
/// identifier.
pub open spec fn walk_key(order: Option<i64>, id: i64) -> Seq<i64> {
    seq![
        match order {
            Some(o) => o,
            None => 0i64,
        },
        if order is Some {
            1i64
        } else {
            0i64
        },
        id,
    ]
}

/// Whether the first row is numbered before the second.
pub fn walks_before(a_order: Option<i64>, a_id: i64, b_order: Option<i64>, b_id: i64) -> (r: bool)
    ensures
        r == key_lt(walk_key(a_order, a_id), walk_key(b_order, b_id)),
{
    let a0 = match a_order {
        Some(o) => o,
        None => 0,
    };
    let b0 = match b_order {
        Some(o) => o,
        None => 0,
    };
    let a1: i64 = if a_order.is_some() {
        1
    } else {
        0
    };
    let b1: i64 = if b_order.is_some() {
        1
    } else {
        0
    };
    proof {
        let ka = walk_key(a_order, a_id);
        let kb = walk_key(b_order, b_id);
        reveal_with_fuel(key_le, 5);
        assert(ka.drop_first() =~= seq![a1, a_id]);
        assert(kb.drop_first() =~= seq![b1, b_id]);
        assert(ka.drop_first().drop_first() =~= seq![a_id]);
        assert(kb.drop_first().drop_first() =~= seq![b_id]);
        assert(ka.drop_first().drop_first().drop_first() =~= Seq::<i64>::empty());
        assert(ka[0] == a0 && kb[0] == b0);
        assert(ka == kb ==> a0 == b0 && a1 == b1 && a_id == b_id) by {
            if ka == kb {
                assert(ka[1] == kb[1]);
                assert(ka[2] == kb[2]);
            }
        }
        if a0 == b0 && a1 == b1 && a_id == b_id {
            assert(ka =~= kb);
        }
    }
    if a0 != b0 {
        a0 < b0
    } else if a1 != b1 {
        a1 < b1
    } else {
        a_id < b_id
    }
}

/// The siblings of the folder that are numbered before it.
pub open spec fn group_before(g: DocGroupView) -> spec_fn(DocGroupView) -> bool {
    |s: DocGroupView|
        s.project_id == g.project_id && s.parent_id == g.parent_id && key_lt(
            walk_key(s.sort_order, s.id),
            walk_key(g.sort_order, g.id),
        )
}

/// The number of the folder among its siblings, from 1.
pub open spec fn group_rank(groups: Seq<DocGroupView>, g: DocGroupView) -> nat {
    groups.filter(group_before(g)).len() + 1
}

/// The name of the directory of the folder.
pub open spec fn dir_name(groups: Seq<DocGroupView>, g: DocGroupView) -> Seq<char> {
    decimal(group_rank(groups, g)) + " "@ + sanitized(g.name)
}

/// The directories that lead from the root of the export to the folder
/// `id`, the folder's own last. There is none where the folder, or one
/// above it, is missing or belongs to another project.
pub open spec fn group_path(groups: Seq<DocGroupView>, project_id: i64, id: i64) -> Option<
    Seq<Seq<char>>,
>
    decreases id,
{
    match row_of(groups, id) {
        Some(g) => if g.project_id != project_id {
            None
        } else {
            match g.parent_id {
                None => Some(seq![dir_name(groups, g)]),
                Some(p) => if 0 <= p < id {
                    match group_path(groups, project_id, p) {
                        Some(above) => Some(above.push(dir_name(groups, g))),
                        None => None,
                    }
                } else {
                    None
                },
            }
        },
        None => None,
    }
}

/// The documents of the same project and folder that are numbered
/// before the document.
pub open spec fn doc_before(d: DocView) -> spec_fn(DocView) -> bool {
    |s: DocView|
        s.project_id == d.project_id && s.doc_group_id == d.doc_group_id && key_lt(
            walk_key(s.sort_order, s.id),
            walk_key(d.sort_order, d.id),
        )
}

/// The number of the document among the documents of its folder, from 1.
pub open spec fn doc_rank(docs: Seq<DocView>, d: DocView) -> nat {
    docs.filter(doc_before(d)).len() + 1
}

/// The drafts of the same document that are listed before the draft:
/// the later ones.
pub open spec fn draft_before(r: DraftView) -> spec_fn(DraftView) -> bool {
    |s: DraftView|
        s.doc_id == r.doc_id && key_lt(
            latest_first_key(s.created_at, s.id),
            latest_first_key(r.created_at, r.id),
        )
}

/// The number of the draft among the drafts of its document, the latest
/// first, from 1.
pub open spec fn draft_rank(drafts: Seq<DraftView>, r: DraftView) -> nat {
    drafts.filter(draft_before(r)).len() + 1
}

/// The name that a document carries in file names: its own, or
/// "Untitled" where it has none.
pub open spec fn doc_title(d: DocView) -> Seq<char> {
    sanitized(
        match d.name {
            Some(n) => n,
            None => "Untitled"@,
        },
    )
}

/// The numbers that open the file names of a document: that of its
/// folder, a dot, and its own.
pub open spec fn doc_number(v: StoreView, d: DocView) -> Seq<char> {
    decimal(group_rank(v.groups, v.groups[place_of(v.groups, d.doc_group_id->0)])) + "."@
        + decimal(doc_rank(v.docs, d))
}

/// The name of the file of the document.
pub open spec fn doc_file_name(v: StoreView, d: DocView) -> Seq<char> {
    doc_number(v, d) + " "@ + doc_title(d) + ".txt"@
}

/// The name of the file of the draft of the document.
pub open spec fn draft_file_name(v: StoreView, d: DocView, r: DraftView) -> Seq<char> {
    doc_number(v, d) + " "@ + doc_title(d) + " draft-"@ + decimal(draft_rank(v.drafts, r))
        + ".txt"@
}

/// One step of an export: a directory to make, or a file to write.
#[derive(Debug, PartialEq, Eq)]
pub struct ExportEntry {
    /// The names that lead from the root of the export to the entry.
    pub path: Vec<String>,
    /// The text of a file; `None` for a directory.
    pub content: Option<String>,
}

/// The mathematical value of an [`ExportEntry`].
pub struct ExportEntryView {
    pub path: Seq<Seq<char>>,
    pub content: Option<Seq<char>>,
}

impl View for ExportEntry {
    type V = ExportEntryView;

    open spec fn view(&self) -> ExportEntryView {
        ExportEntryView {
            path: self.path.deep_view(),
            content: crate::models::opt_text(self.content),
        }
    }
}

impl DeepView for ExportEntry {
    type V = ExportEntryView;

    open spec fn deep_view(&self) -> ExportEntryView {
        self@
    }
}

/// The directory of the folder, where the folder is exported.
pub open spec fn dir_entry(v: StoreView, project_id: i64, g: DocGroupView) -> Seq<ExportEntryView> {
    match group_path(v.groups, project_id, g.id) {
        Some(path) => seq![ExportEntryView { path, content: None }],
        None => Seq::empty(),
    }
}

/// The directories of the first `n` folders of the table.
pub open spec fn dir_entries(v: StoreView, project_id: i64, n: nat) -> Seq<ExportEntryView>
    decreases n,
{
    if n == 0 || n > v.groups.len() {
        Seq::empty()
    } else {
        dir_entries(v, project_id, (n - 1) as nat) + dir_entry(v, project_id, v.groups[n - 1])
    }
}

/// The directory in which the files of the document stand, where the
/// document is exported: it belongs to the project and is filed in a
/// folder that is exported.
pub open spec fn doc_home(v: StoreView, project_id: i64, d: DocView) -> Option<Seq<Seq<char>>> {
    if d.project_id == project_id && d.doc_group_id is Some {
        group_path(v.groups, project_id, d.doc_group_id->0)
    } else {
        None
    }
}

/// The file of the draft, where it is a draft of the document.
pub open spec fn draft_entry(v: StoreView, home: Seq<Seq<char>>, d: DocView, r: DraftView) -> Seq<
    ExportEntryView,
> {
    if r.doc_id == d.id {
        seq![
            ExportEntryView {
                path: home.push(draft_file_name(v, d, r)),
                content: Some(r.content),
            },
        ]
    } else {
        Seq::empty()
    }
}

/// The files of those of the first `n` drafts of the table that are
/// drafts of the document.
pub open spec fn draft_entries(
    v: StoreView,
    home: Seq<Seq<char>>,
    d: DocView,
    n: nat,
) -> Seq<ExportEntryView>
    decreases n,
{
    if n == 0 || n > v.drafts.len() {
        Seq::empty()
    } else {
        draft_entries(v, home, d, (n - 1) as nat) + draft_entry(v, home, d, v.drafts[n - 1])
    }
}

/// The files of the document, its own first and then those of its
/// drafts, where the document is exported.
pub open spec fn doc_entries(v: StoreView, project_id: i64, d: DocView) -> Seq<ExportEntryView> {
    match doc_home(v, project_id, d) {
        Some(home) => seq![
            ExportEntryView {
                path: home.push(doc_file_name(v, d)),
                content: Some(
                    match d.text {
                        Some(t) => t,
                        None => Seq::empty(),
                    },
                ),
            },
        ] + draft_entries(v, home, d, v.drafts.len()),
        None => Seq::empty(),
    }
}

/// The files of the first `n` documents of the table.
pub open spec fn file_entries(v: StoreView, project_id: i64, n: nat) -> Seq<ExportEntryView>
    decreases n,
{
    if n == 0 || n > v.docs.len() {
        Seq::empty()
    } else {
        file_entries(v, project_id, (n - 1) as nat) + doc_entries(v, project_id, v.docs[n - 1])
    }
}

/// The export of the project: the directories of its folders, a parent
/// before its children, then the files of its documents and drafts.
pub open spec fn export_plan(v: StoreView, project_id: i64) -> Seq<ExportEntryView> {
    dir_entries(v, project_id, v.groups.len()) + file_entries(v, project_id, v.docs.len())
}

/// The number of the folder at place `at` among its siblings, from 1.
pub fn group_rank_of(groups: &Vec<DocGroup>, at: usize) -> (r: usize)
    requires
        at < groups.len(),
    ensures
        r == group_rank(groups.deep_view(), groups.deep_view()[at as int]),
{
    let ghost view = groups.deep_view();
    let ghost pred = group_before(view[at as int]);
    let g = &groups[at];
    let mut count: usize = 0;
    let mut i: usize = 0;
    proof {
        reveal(Seq::filter);
        assert(view.take(0).filter(pred).len() == 0);
    }
    while i < groups.len()
        invariant
            i <= groups.len(),
            at < groups.len(),
            view == groups.deep_view(),
            pred == group_before(view[at as int]),
            *g == groups[at as int],
            count == view.take(i as int).filter(pred).len(),
            count + (if at < i {
                1int
            } else {
                0int
            }) <= i,
        decreases groups.len() - i,
    {
        let s = &groups[i];
        proof {
            lemma_filter_push(view.take(i as int), view[i as int], pred);
            assert(view.take(i as int).push(view[i as int]) =~= view.take(i + 1));
        }
        let before = s.project_id == g.project_id && s.parent_id == g.parent_id && walks_before(
            s.sort_order,
            s.id,
            g.sort_order,
            g.id,
        );
        assert(before == pred(view[i as int]));
        if before {
            count += 1;
        }
        i += 1;
    }
    proof {
        assert(view.take(groups.len() as int) =~= view);
    }
    count + 1
}

/// The number of the document at place `at` among the documents of its
/// folder, from 1.
pub fn doc_rank_of(docs: &Vec<Doc>, at: usize) -> (r: usize)
    requires
        at < docs.len(),
    ensures
        r == doc_rank(docs.deep_view(), docs.deep_view()[at as int]),
{
    let ghost view = docs.deep_view();
    let ghost pred = doc_before(view[at as int]);
    let d = &docs[at];
    let mut count: usize = 0;
    let mut i: usize = 0;
    proof {
        reveal(Seq::filter);
        assert(view.take(0).filter(pred).len() == 0);
    }
    while i < docs.len()
        invariant
            i <= docs.len(),
            at < docs.len(),
            view == docs.deep_view(),
            pred == doc_before(view[at as int]),
            *d == docs[at as int],
            count == view.take(i as int).filter(pred).len(),
            count + (if at < i {
                1int
            } else {
                0int
            }) <= i,
        decreases docs.len() - i,
    {
        let s = &docs[i];
        proof {
            lemma_filter_push(view.take(i as int), view[i as int], pred);
            assert(view.take(i as int).push(view[i as int]) =~= view.take(i + 1));
        }
        let before = s.project_id == d.project_id && s.doc_group_id == d.doc_group_id
            && walks_before(s.sort_order, s.id, d.sort_order, d.id);
        assert(before == pred(view[i as int]));
        if before {
            count += 1;
        }
        i += 1;
    }
    proof {
        assert(view.take(docs.len() as int) =~= view);
    }
    count + 1
}

/// The number of the draft at place `at` among the drafts of its
/// document, the latest first, from 1.
pub fn draft_rank_of(drafts: &Vec<Draft>, at: usize) -> (r: usize)
    requires
        at < drafts.len(),
        forall|i: int| 0 <= i < drafts.len() ==> 0 < (#[trigger] drafts.deep_view()[i]).id,
    ensures
        r == draft_rank(drafts.deep_view(), drafts.deep_view()[at as int]),
{
    let ghost view = drafts.deep_view();
    let ghost pred = draft_before(view[at as int]);
    let r = &drafts[at];
    assert(0 < view[at as int].id);
    let own = latest_first_key_of(r.created_at.as_str(), r.id);
    let mut count: usize = 0;
    let mut i: usize = 0;
    proof {
        reveal(Seq::filter);
        assert(view.take(0).filter(pred).len() == 0);
    }
    while i < drafts.len()
        invariant
            i <= drafts.len(),
            at < drafts.len(),
            view == drafts.deep_view(),
            forall|j: int| 0 <= j < drafts.len() ==> 0 < (#[trigger] view[j]).id,
            pred == draft_before(view[at as int]),
            *r == drafts[at as int],
            own@ == latest_first_key(view[at as int].created_at, view[at as int].id),
            count == view.take(i as int).filter(pred).len(),
            count + (if at < i {
                1int
            } else {
                0int
            }) <= i,
        decreases drafts.len() - i,
    {
        let s = &drafts[i];
        proof {
            lemma_filter_push(view.take(i as int), view[i as int], pred);
            assert(view.take(i as int).push(view[i as int]) =~= view.take(i + 1));
        }
        let mut before = false;
        if s.doc_id == r.doc_id {
            assert(0 < view[i as int].id);
            let key = latest_first_key_of(s.created_at.as_str(), s.id);
            before = key_le_exec(&key, &own) && !key_le_exec(&own, &key);
            proof {
                if key@ == own@ {
                    lemma_key_le_refl(own@);
                }
                if key_le(key@, own@) && key_le(own@, key@) {
                    lemma_key_le_antisym(key@, own@);
                }
            }
        }
        assert(before == pred(view[i as int]));
        if before {
            count += 1;
        }
        i += 1;
    }
    proof {
        assert(view.take(drafts.len() as int) =~= view);
    }
    count + 1
}

/// The names of a path, where there is one.
pub open spec fn path_view(o: Option<Vec<String>>) -> Option<Seq<Seq<char>>> {
    match o {
        Some(p) => Some(p.deep_view()),
        None => None,
    }
}

/// A copy of the path with one more name at its end.
pub fn extend_path(path: &Vec<String>, name: String) -> (r: Vec<String>)
    ensures
        r.deep_view() == path.deep_view().push(name@),
{
    let mut out: Vec<String> = Vec::new();
    let mut i: usize = 0;
    while i < path.len()
        invariant
            i <= path.len(),
            out.deep_view() == path.deep_view().take(i as int),
        decreases path.len() - i,
    {
        let ghost prev = out.deep_view();
        out.push(path[i].clone());
        assert(out.deep_view() =~= prev.push(path.deep_view()[i as int]));
        assert(path.deep_view().take(i as int).push(path.deep_view()[i as int])
            =~= path.deep_view().take(i + 1));
        i += 1;
    }
    assert(path.deep_view().take(path.len() as int) =~= path.deep_view());
    let ghost prev = out.deep_view();
    out.push(name);
    assert(out.deep_view() =~= prev.push(name@));
    out
}

/// The directories of the folders of the project, and for each folder
/// of the table the path of its directory, where it has one.
pub fn plan_dirs(store: &Store, project_id: i64) -> (r: (Vec<ExportEntry>, Vec<Option<Vec<String>>>))
    requires
        store.wf(),
    ensures
        r.0.deep_view() == dir_entries(store@, project_id, store@.groups.len()),
        r.1.len() == store.groups.len(),
        forall|i: int|
            0 <= i < store.groups.len() ==> path_view(#[trigger] r.1[i]) == group_path(
                store@.groups,
                project_id,
                store@.groups[i].id,
            ),
{
    let ghost v = store@;
    let ghost view = store.groups.deep_view();
    let mut entries: Vec<ExportEntry> = Vec::new();
    let mut paths: Vec<Option<Vec<String>>> = Vec::new();
    let mut i: usize = 0;
    while i < store.groups.len()
        invariant
            i <= store.groups.len(),
            v == store@,
            view == store.groups.deep_view(),
            growing(view),
            paths.len() == i,
            forall|j: int|
                0 <= j < i ==> path_view(#[trigger] paths[j]) == group_path(
                    view,
                    project_id,
                    view[j].id,
                ),
            entries.deep_view() == dir_entries(v, project_id, i as nat),
        decreases store.groups.len() - i,
    {
        let g = &store.groups[i];
        let ghost prev = entries.deep_view();
        proof {
            lemma_place_of(view, i as int);
        }
        let mut path: Option<Vec<String>> = None;
        if g.project_id == project_id {
            let rank = group_rank_of(&store.groups, i);
            let mut buf: Vec<char> = Vec::new();
            push_decimal(&mut buf, rank);
            push_text(&mut buf, " ");
            let clean = sanitize_chars(g.name.as_str());
            push_chars(&mut buf, &clean);
            let name = text_of(&buf);
            assert(name@ =~= dir_name(view, view[i as int]));
            match g.parent_id {
                None => {
                    let mut p: Vec<String> = Vec::new();
                    p.push(name);
                    assert(p.deep_view() =~= seq![dir_name(view, view[i as int])]);
                    path = Some(p);
                },
                Some(parent) => {
                    if 0 <= parent && parent < g.id {
                        match position(&store.groups, parent) {
                            Some(j) => {
                                proof {
                                    lemma_place_of(view, j as int);
                                    if j >= i {
                                        if j > i {
                                            assert(view[i as int].key() < view[j as int].key());
                                        }
                                    }
                                }
                                match &paths[j] {
                                    Some(above) => {
                                        path = Some(extend_path(above, name));
                                    },
                                    None => {},
                                }
                            },
                            None => {},
                        }
                    }
                },
            }
        }
        assert(path_view(path) == group_path(view, project_id, view[i as int].id));
        match &path {
            Some(p) => {
                let entry = ExportEntry { path: copy_path(p), content: None };
                entries.push(entry);
                assert(entries.deep_view() =~= prev + dir_entry(v, project_id, view[i as int]));
            },
            None => {
                assert(entries.deep_view() =~= prev + dir_entry(v, project_id, view[i as int]));
            },
        }
        paths.push(path);
        i += 1;
    }
    (entries, paths)
}

/// A copy of the path.
pub fn copy_path(path: &Vec<String>) -> (r: Vec<String>)
    ensures
        r.deep_view() == path.deep_view(),
{
    let mut out: Vec<String> = Vec::new();
    let mut i: usize = 0;
    while i < path.len()
        invariant
            i <= path.len(),
            out.deep_view() == path.deep_view().take(i as int),
        decreases path.len() - i,
    {
        let ghost prev = out.deep_view();
        out.push(path[i].clone());
        assert(out.deep_view() =~= prev.push(path.deep_view()[i as int]));
        assert(path.deep_view().take(i as int).push(path.deep_view()[i as int])
            =~= path.deep_view().take(i + 1));
        i += 1;
    }
    assert(path.deep_view().take(path.len() as int) =~= path.deep_view());
    out
}

/// The files of the drafts of the document at place `at`, which stand
/// in the directory `home` and open with the number `number` and the
/// title `title`.
pub fn plan_drafts(
    store: &Store,
    at: usize,
    home: &Vec<String>,
    number: &Vec<char>,
    title: &Vec<char>,
    entries: &mut Vec<ExportEntry>,
)
    requires
        store.wf(),
        at < store.docs.len(),
        number@ == doc_number(store@, store@.docs[at as int]),
        title@ == doc_title(store@.docs[at as int]),
    ensures
        final(entries).deep_view() == old(entries).deep_view() + draft_entries(
            store@,
            home.deep_view(),
            store@.docs[at as int],
            store@.drafts.len(),
        ),
{
    let ghost v = store@;
    let ghost d = v.docs[at as int];
    let ghost start = entries.deep_view();
    let doc_id = store.docs[at].id;
    let mut n: usize = 0;
    assert(entries.deep_view() =~= start + draft_entries(v, home.deep_view(), d, 0));
    while n < store.drafts.len()
        invariant
            n <= store.drafts.len(),
            v == store@,
            store.wf(),
            at < store.docs.len(),
            d == v.docs[at as int],
            doc_id == d.id,
            number@ == doc_number(v, d),
            title@ == doc_title(d),
            entries.deep_view() == start + draft_entries(v, home.deep_view(), d, n as nat),
        decreases store.drafts.len() - n,
    {
        let r = &store.drafts[n];
        let ghost prev = entries.deep_view();
        if r.doc_id == doc_id {
            assert forall|i: int| 0 <= i < store.drafts.len() implies 0 < (
            #[trigger] store.drafts.deep_view()[i]).id by {
                assert(0 < v.drafts[i].key());
            }
            let rank = draft_rank_of(&store.drafts, n);
            let mut buf: Vec<char> = Vec::new();
            push_chars(&mut buf, number);
            push_text(&mut buf, " ");
            push_chars(&mut buf, title);
            push_text(&mut buf, " draft-");
            push_decimal(&mut buf, rank);
            push_text(&mut buf, ".txt");
            let name = text_of(&buf);
            assert(name@ =~= draft_file_name(v, d, v.drafts[n as int]));
            let entry = ExportEntry {
                path: extend_path(home, name),
                content: Some(r.content.clone()),
            };
            entries.push(entry);
            assert(entries.deep_view() =~= prev + draft_entry(
                v,
                home.deep_view(),
                d,
                v.drafts[n as int],
            ));
        } else {
            assert(entries.deep_view() =~= prev + draft_entry(
                v,
                home.deep_view(),
                d,
                v.drafts[n as int],
            ));
        }
        assert(entries.deep_view() =~= start + draft_entries(
            v,
            home.deep_view(),
            d,
            (n + 1) as nat,
        ));
        n += 1;
    }
}

/// The files of the documents of the project and of their drafts.
pub fn plan_files(store: &Store, project_id: i64, paths: &Vec<Option<Vec<String>>>) -> (r: Vec<
    ExportEntry,
>)
    requires
        store.wf(),
        paths.len() == store.groups.len(),
        forall|i: int|
            0 <= i < store.groups.len() ==> path_view(#[trigger] paths[i]) == group_path(
                store@.groups,
                project_id,
                store@.groups[i].id,
            ),
    ensures
        r.deep_view() == file_entries(store@, project_id, store@.docs.len()),
{
    let ghost v = store@;
    let mut entries: Vec<ExportEntry> = Vec::new();
    let mut i: usize = 0;
    while i < store.docs.len()
        invariant
            i <= store.docs.len(),
            v == store@,
            store.wf(),
            paths.len() == store.groups.len(),
            forall|j: int|
                0 <= j < store.groups.len() ==> path_view(#[trigger] paths[j]) == group_path(
                    v.groups,
                    project_id,
                    v.groups[j].id,
                ),
            entries.deep_view() == file_entries(v, project_id, i as nat),
        decreases store.docs.len() - i,
    {
        let d = &store.docs[i];
        let ghost dv = v.docs[i as int];
        let ghost prev = entries.deep_view();
        let mut home: Option<&Vec<String>> = None;
        let mut group_at: usize = 0;
        if d.project_id == project_id {
            if let Some(gid) = d.doc_group_id {
                match position(&store.groups, gid) {
                    Some(j) => {
                        proof {
                            lemma_place_of(v.groups, j as int);
                        }
                        group_at = j;
                        match &paths[j] {
                            Some(p) => {
                                home = Some(p);
                            },
                            None => {},
                        }
                    },
                    None => {
                        assert(row_of(v.groups, gid) is None);
                    },
                }
            }
        }
        assert(match home {
            Some(p) => Some(p.deep_view()),
            None => None,
        } == doc_home(v, project_id, dv));
        match home {
            Some(p) => {
                let group_rank = group_rank_of(&store.groups, group_at);
                let rank = doc_rank_of(&store.docs, i);
                let mut number: Vec<char> = Vec::new();
                push_decimal(&mut number, group_rank);
                push_text(&mut number, ".");
                push_decimal(&mut number, rank);
                assert(number@ =~= doc_number(v, dv));
                let title = match &d.name {
                    Some(n) => sanitize_chars(n.as_str()),
                    None => sanitize_chars("Untitled"),
                };
                assert(title@ == doc_title(dv));
                let mut buf: Vec<char> = Vec::new();
                push_chars(&mut buf, &number);
                push_text(&mut buf, " ");
                push_chars(&mut buf, &title);
                push_text(&mut buf, ".txt");
                let name = text_of(&buf);
                assert(name@ =~= doc_file_name(v, dv));
                let content = match &d.text {
                    Some(t) => t.clone(),
                    None => String::new(),
                };
                let entry = ExportEntry { path: extend_path(p, name), content: Some(content) };
                entries.push(entry);
                let ghost with_doc = entries.deep_view();
                assert(with_doc =~= prev + seq![
                    ExportEntryView {
                        path: p.deep_view().push(doc_file_name(v, dv)),
                        content: Some(
                            match dv.text {
                                Some(t) => t,
                                None => Seq::empty(),
                            },
                        ),
                    },
                ]);
                plan_drafts(store, i, p, &number, &title, &mut entries);
                assert(entries.deep_view() =~= prev + doc_entries(v, project_id, dv));
            },
            None => {
                assert(entries.deep_view() =~= prev + doc_entries(v, project_id, dv));
            },
        }
        i += 1;
    }
    entries
}

/// Plans the export of the project: the directories to make and the
/// files to write, with their paths below the root of the export.
///
/// Fails where the project does not exist. Documents that are filed in
/// no folder are not exported as files.
pub fn plan_export(store: &Store, project_id: i64) -> (r: Result<Vec<ExportEntry>, StoreError>)
    requires
        store.wf(),
    ensures
        match r {
            Ok(entries) => has_key(store@.projects, project_id) && entries.deep_view()
                == export_plan(store@, project_id),
            Err(e) => !has_key(store@.projects, project_id) && e == StoreError::NotFound,
        },
{
    if position(&store.projects, project_id).is_none() {
        return Err(StoreError::NotFound);
    }
    let (mut entries, paths) = plan_dirs(store, project_id);
    let mut files = plan_files(store, project_id, &paths);
    let ghost dirs = entries.deep_view();
    let ghost fv = files.deep_view();
    entries.append(&mut files);
    assert(entries.deep_view() =~= dirs + fv);
    Ok(entries)
}

/// The number of names that are tried for the root of an export.
pub const ROOT_ATTEMPTS: usize = 9998;

/// The `k`-th name tried for the root of an export: the base itself,
/// then the base with " export 2", " export 3" and so on behind it.
pub open spec fn root_candidate(base: Seq<char>, k: nat) -> Seq<char> {
    if k <= 1 {
        base
    } else {
        base + " export "@ + decimal(k)
    }
}

/// The first of the names tried from the `k`-th on that is not taken,
/// if there is one among those that are tried at all.
pub open spec fn first_free(base: Seq<char>, taken: Seq<Seq<char>>, k: nat) -> Option<nat>
    decreases ROOT_ATTEMPTS + 1 - k,
{
    if k > ROOT_ATTEMPTS {
        None
    } else if !taken.contains(root_candidate(base, k)) {
        Some(k)
    } else {
        first_free(base, taken, k + 1)
    }
}

/// Whether one of the names is the text.
pub fn names_hold(names: &Vec<String>, text: &String) -> (r: bool)
    ensures
        r == names.deep_view().contains(text@),
{
    let mut i: usize = 0;
    while i < names.len()
        invariant
            i <= names.len(),
            forall|j: int| 0 <= j < i ==> names.deep_view()[j] != text@,
        decreases names.len() - i,
    {
        if names[i] == *text {
            assert(names.deep_view()[i as int] == text@);
            return true;
        }
        i += 1;
    }
    false
}

/// Picks the name of the root directory of an export: the sanitized
/// name of the project, or, where that is taken, the first of
/// "name export 2", "name export 3", .. that is free. `taken` holds the
/// names that exist at the destination.
///
/// Fails where all names that are tried are taken.
pub fn choose_export_root(project_name: &str, taken: &Vec<String>) -> (r: Result<String, StoreError>)
    ensures
        match r {
            Ok(name) => first_free(sanitized(project_name@), taken.deep_view(), 1) matches Some(k)
                && name@ == root_candidate(sanitized(project_name@), k),
            Err(e) => first_free(sanitized(project_name@), taken.deep_view(), 1) is None && e
                == StoreError::NoFreeName,
        },
{
    let base = sanitize_chars(project_name);
    let ghost names = taken.deep_view();
    let mut k: usize = 1;
    while k <= ROOT_ATTEMPTS
        invariant
            1 <= k <= ROOT_ATTEMPTS + 1,
            base@ == sanitized(project_name@),
            names == taken.deep_view(),
            first_free(base@, names, 1) == first_free(base@, names, k as nat),
        decreases ROOT_ATTEMPTS + 1 - k,
    {
        let mut buf: Vec<char> = Vec::new();
        push_chars(&mut buf, &base);
        if k > 1 {
            push_text(&mut buf, " export ");
            push_decimal(&mut buf, k);
        }
        let name = text_of(&buf);
        assert(name@ =~= root_candidate(base@, k as nat));
        if !names_hold(taken, &name) {
            return Ok(name);
        }
        k += 1;
    }
    Err(StoreError::NoFreeName)
}

} // verus!
