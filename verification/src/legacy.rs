//! Import from bare directories and text files.
//!
//! Where a folder has no manifest that can be trusted, its directories
//! become top-level folders of a new project and the text files in them
//! become documents. The library plans such an import from the names
//! that the caller found on disk; reading the files and creating the
//! rows, step by step, is the caller's part.

use vstd::prelude::*;
use crate::sorting::{is_stable_order, keys_view, places_view, stable_order};
use crate::text::{chars_of, plain_key, plain_key_of, text_of};

verus! {

/// A text with its capital letters turned into small ones, as Unicode
/// has it: what `str::to_lowercase` returns.
pub uninterp spec fn lowercased(s: Seq<char>) -> Seq<char>;

/// The text in small letters. `str::to_lowercase` maps each character
/// to its lowercase form by the rules of Unicode, which do not depend on
/// the machine or its settings; the result is named, not spelled out.
#[verifier::external_body]
fn to_lower(s: &str) -> (r: String)
    ensures
        r@ == lowercased(s@),
{
    s.to_lowercase()
}

/// The place of the last dot of the name, or -1 where it has none.
pub open spec fn last_dot(name: Seq<char>) -> int
    decreases name.len(),
{
    if name.len() == 0 {
        -1
    } else if name.last() == '.' {
        name.len() - 1
    } else {
        last_dot(name.drop_last())
    }
}

/// The name of the file without its extension: what stands before the
/// last dot, or the whole name where it has no dot or only one at its
/// beginning.
pub open spec fn stem(name: Seq<char>) -> Seq<char> {
    let d = last_dot(name);
    if d <= 0 {
        name
    } else {
        name.take(d)
    }
}

/// The extension of the file: what stands behind the last dot. A name
/// without a dot, or with its only dot at the beginning, has none.
pub open spec fn extension(name: Seq<char>) -> Option<Seq<char>> {
    let d = last_dot(name);
    if d <= 0 {
        None
    } else {
        Some(name.skip(d + 1))
    }
}

/// The text is "txt", in capital or small letters.
pub open spec fn is_txt_word(e: Seq<char>) -> bool {
    e.len() == 3 && (e[0] == 't' || e[0] == 'T') && (e[1] == 'x' || e[1] == 'X') && (e[2] == 't'
        || e[2] == 'T')
}

/// The file is a text file: its extension is "txt", in capital or small
/// letters.
pub open spec fn is_text_file(name: Seq<char>) -> bool {
    extension(name) matches Some(e) && is_txt_word(e)
}

/// The place of the last dot of the name, or the length of the name
/// where it has none.
fn find_last_dot(chars: &Vec<char>) -> (r: Option<usize>)
    ensures
        match r {
            Some(d) => d < chars.len() && last_dot(chars@) == d,
            None => last_dot(chars@) == -1,
        },
{
    let mut i: usize = chars.len();
    proof {
        assert(chars@.take(i as int) =~= chars@);
    }
    while i > 0
        invariant
            i <= chars.len(),
            last_dot(chars@) == last_dot(chars@.take(i as int)),
        decreases i,
    {
        proof {
            assert(chars@.take(i as int).drop_last() =~= chars@.take(i - 1));
            assert(chars@.take(i as int).last() == chars[i - 1]);
        }
        if chars[i - 1] == '.' {
            return Some(i - 1);
        }
        i -= 1;
    }
    proof {
        assert(chars@.take(0).len() == 0);
    }
    None
}

/// The name of the document that a text file becomes: the name of the
/// file without its extension. `None` where the file is no text file.
pub fn doc_name_of(file_name: &str) -> (r: Option<String>)
    ensures
        match r {
            Some(n) => is_text_file(file_name@) && n@ == stem(file_name@),
            None => !is_text_file(file_name@),
        },
{
    let chars = chars_of(file_name);
    match find_last_dot(&chars) {
        Some(d) => {
            if d == 0 {
                return None;
            }
            let ghost e = chars@.skip(d + 1);
            if chars.len() - d != 4 {
                return None;
            }
            let a = chars[d + 1];
            let b = chars[d + 2];
            let c = chars[d + 3];
            proof {
                assert(e.len() == 3);
                assert(e[0] == a && e[1] == b && e[2] == c);
            }
            if (a == 't' || a == 'T') && (b == 'x' || b == 'X') && (c == 't' || c == 'T') {
                let mut out: Vec<char> = Vec::new();
                let mut i: usize = 0;
                while i < d
                    invariant
                        i <= d,
                        d < chars.len(),
                        out@ == chars@.take(i as int),
                    decreases d - i,
                {
                    out.push(chars[i]);
                    assert(chars@.take(i as int).push(chars[i as int]) =~= chars@.take(i + 1));
                    i += 1;
                }
                Some(text_of(&out))
            } else {
                None
            }
        },
        None => None,
    }
}

/// A text file to read, and the name of the document that it becomes.
#[derive(Debug, PartialEq, Eq)]
pub struct ImportFile {
    pub file_name: String,
    pub doc_name: String,
}

/// The mathematical value of an [`ImportFile`].
pub struct ImportFileView {
    pub file_name: Seq<char>,
    pub doc_name: Seq<char>,
}

impl View for ImportFile {
    type V = ImportFileView;

    open spec fn view(&self) -> ImportFileView {
        ImportFileView { file_name: self.file_name@, doc_name: self.doc_name@ }
    }
}

impl DeepView for ImportFile {
    type V = ImportFileView;

    open spec fn deep_view(&self) -> ImportFileView {
        self@
    }
}

/// The file as a document to import, where it is a text file.
pub open spec fn as_import(name: Seq<char>) -> Seq<ImportFileView> {
    if is_text_file(name) {
        seq![ImportFileView { file_name: name, doc_name: stem(name) }]
    } else {
        Seq::empty()
    }
}

/// The text files among the first `k` names, in the order of the names,
/// each with the name of the document that it becomes.
pub open spec fn text_files(names: Seq<Seq<char>>, k: nat) -> Seq<ImportFileView>
    decreases k,
{
    if k == 0 || k > names.len() {
        Seq::empty()
    } else {
        text_files(names, (k - 1) as nat) + as_import(names[k - 1])
    }
}

/// The text files among the names, in the order of the names.
pub fn pick_text_files(names: &Vec<String>) -> (r: Vec<ImportFile>)
    ensures
        r.deep_view() == text_files(names.deep_view(), names.len() as nat),
{
    let ghost nv = names.deep_view();
    let mut out: Vec<ImportFile> = Vec::new();
    let mut k: usize = 0;
    while k < names.len()
        invariant
            k <= names.len(),
            nv == names.deep_view(),
            out.deep_view() == text_files(nv, k as nat),
        decreases names.len() - k,
    {
        let ghost prev = out.deep_view();
        match doc_name_of(names[k].as_str()) {
            Some(doc_name) => {
                out.push(ImportFile { file_name: names[k].clone(), doc_name });
                assert(out.deep_view() =~= prev + as_import(nv[k as int]));
            },
            None => {
                assert(out.deep_view() =~= prev + as_import(nv[k as int]));
            },
        }
        k += 1;
    }
    out
}

/// A directory found on disk: its name, where it has one that is text,
/// and the names of the files that stand directly in it, in the order in
/// which they were found.
#[derive(Debug, PartialEq, Eq)]
pub struct FoundDir {
    pub name: Option<String>,
    pub files: Vec<String>,
}

/// The mathematical value of a [`FoundDir`].
pub struct FoundDirView {
    pub name: Option<Seq<char>>,
    pub files: Seq<Seq<char>>,
}

impl View for FoundDir {
    type V = FoundDirView;

    open spec fn view(&self) -> FoundDirView {
        FoundDirView { name: crate::models::opt_text(self.name), files: self.files.deep_view() }
    }
}

/// The name, or the fallback where there is none.
pub open spec fn name_or(name: Option<Seq<char>>, fallback: Seq<char>) -> Seq<char> {
    match name {
        Some(n) => n,
        None => fallback,
    }
}

/// The name, or the fallback where there is none.
pub fn name_or_else(name: &Option<String>, fallback: &str) -> (r: String)
    ensures
        r@ == name_or(crate::models::opt_text(*name), fallback@),
{
    match name {
        Some(n) => n.clone(),
        None => String::from_str(fallback),
    }
}

impl DeepView for FoundDir {
    type V = FoundDirView;

    open spec fn deep_view(&self) -> FoundDirView {
        self@
    }
}

/// A folder to create at the top level of the project, and the text
/// files to import into it.
#[derive(Debug, PartialEq, Eq)]
pub struct ImportGroup {
    pub name: String,
    /// The place of the directory among those found; `None` for the
    /// folder that takes the loose files.
    pub source: Option<usize>,
    pub files: Vec<ImportFile>,
}

/// The mathematical value of an [`ImportGroup`].
pub struct ImportGroupView {
    pub name: Seq<char>,
    pub source: Option<usize>,
    pub files: Seq<ImportFileView>,
}

impl View for ImportGroup {
    type V = ImportGroupView;

    open spec fn view(&self) -> ImportGroupView {
        ImportGroupView { name: self.name@, source: self.source, files: self.files.deep_view() }
    }
}

impl DeepView for ImportGroup {
    type V = ImportGroupView;

    open spec fn deep_view(&self) -> ImportGroupView {
        self@
    }
}

/// The plan of an import from directories and files.
#[derive(Debug, PartialEq, Eq)]
pub struct LegacyPlan {
    pub project_name: String,
    pub groups: Vec<ImportGroup>,
}

/// The keys by which directories are sorted: their names in small
/// letters.
pub open spec fn dir_keys(dirs: Seq<FoundDirView>) -> Seq<Seq<i64>> {
    Seq::new(dirs.len(), |i: int| plain_key(lowercased(name_or(dirs[i].name, "Folder"@))))
}

/// The keys by which loose text files are sorted: their names.
pub open spec fn file_keys(files: Seq<ImportFileView>) -> Seq<Seq<i64>> {
    Seq::new(files.len(), |i: int| plain_key(files[i].file_name))
}

/// The folder that a directory becomes: it takes the name of the
/// directory, or the fallback where the directory has none.
pub open spec fn group_of_dir(dirs: Seq<FoundDirView>, at: int, fallback: Seq<char>) -> ImportGroupView {
    ImportGroupView {
        name: name_or(dirs[at].name, fallback),
        source: Some(at as usize),
        files: text_files(dirs[at].files, dirs[at].files.len()),
    }
}

/// `groups` is the plan for the directories and loose files found: one
/// folder for each directory, sorted by name without regard to case,
/// with the text files of the directory in the order in which they were
/// found; and, where there are loose text files, a last folder
/// "UNSORTED" with those, sorted by name.
pub open spec fn is_legacy_plan(
    groups: Seq<ImportGroupView>,
    dirs: Seq<FoundDirView>,
    files: Seq<Seq<char>>,
) -> bool {
    let loose = text_files(files, files.len());
    &&& groups.len() == dirs.len() + if loose.len() > 0 {
        1int
    } else {
        0int
    }
    &&& exists|ord: Seq<int>|
        {
            &&& #[trigger] is_stable_order(dir_keys(dirs), ord)
            &&& forall|k: int|
                0 <= k < dirs.len() ==> #[trigger] groups[k] == group_of_dir(dirs, ord[k], "Folder"@)
        }
    &&& loose.len() > 0 ==> {
        let last = groups[dirs.len() as int];
        &&& last.name == "UNSORTED"@
        &&& last.source is None
        &&& last.files.len() == loose.len()
        &&& exists|ord: Seq<int>|
            {
                &&& #[trigger] is_stable_order(file_keys(loose), ord)
                &&& forall|k: int|
                    0 <= k < loose.len() ==> #[trigger] last.files[k] == loose[ord[k]]
            }
    }
}

/// Plans the import of a folder without a manifest.
///
/// The project takes the name of the folder, or "Imported Project"
/// where the folder has none; a directory without a name becomes the
/// folder "Folder". Directories inside the directories found play no
/// part: every folder of the plan stands at the top level.
pub fn plan_legacy(base_name: Option<&str>, dirs: &Vec<FoundDir>, files: &Vec<String>) -> (r:
    LegacyPlan)
    ensures
        r.project_name@ == (match base_name {
            Some(n) => n@,
            None => "Imported Project"@,
        }),
        is_legacy_plan(r.groups.deep_view(), dirs.deep_view(), files.deep_view()),
{
    let ghost dv = dirs.deep_view();
    let project_name = match base_name {
        Some(n) => String::from_str(n),
        None => String::from_str("Imported Project"),
    };
    let mut keys: Vec<Vec<i64>> = Vec::new();
    let mut i: usize = 0;
    while i < dirs.len()
        invariant
            i <= dirs.len(),
            dv == dirs.deep_view(),
            keys.len() == i,
            forall|j: int|
                0 <= j < i ==> (#[trigger] keys[j])@ == plain_key(
                    lowercased(name_or(dv[j].name, "Folder"@)),
                ),
        decreases dirs.len() - i,
    {
        let name = name_or_else(&dirs[i].name, "Folder");
        let low = to_lower(name.as_str());
        keys.push(plain_key_of(low.as_str()));
        i += 1;
    }
    assert(keys_view(keys@) =~= dir_keys(dv));
    let ord = stable_order(&keys);
    let ghost ov = places_view(ord@);
    let mut groups: Vec<ImportGroup> = Vec::new();
    let mut k: usize = 0;
    while k < ord.len()
        invariant
            k <= ord.len(),
            ord.len() == dirs.len(),
            dv == dirs.deep_view(),
            ov == places_view(ord@),
            is_stable_order(dir_keys(dv), ov),
            groups.len() == k,
            forall|j: int|
                0 <= j < k ==> #[trigger] groups.deep_view()[j] == group_of_dir(
                    dv,
                    ov[j],
                    "Folder"@,
                ),
        decreases ord.len() - k,
    {
        let ghost prev = groups.deep_view();
        assert(ov[k as int] == ord[k as int]);
        let at = ord[k];
        let d = &dirs[at];
        let picked = pick_text_files(&d.files);
        groups.push(
            ImportGroup { name: name_or_else(&d.name, "Folder"), source: Some(at), files: picked },
        );
        proof {
            let now = groups.deep_view();
            assert forall|j: int| 0 <= j < k + 1 implies #[trigger] now[j] == group_of_dir(
                dv,
                ov[j],
                "Folder"@,
            ) by {
                if j < k {
                    assert(now[j] == prev[j]);
                }
            }
        }
        k += 1;
    }
    let loose = pick_text_files(files);
    let ghost lv = loose.deep_view();
    if loose.len() > 0 {
        let mut file_sort: Vec<Vec<i64>> = Vec::new();
        let mut f: usize = 0;
        while f < loose.len()
            invariant
                f <= loose.len(),
                lv == loose.deep_view(),
                file_sort.len() == f,
                forall|j: int|
                    0 <= j < f ==> (#[trigger] file_sort[j])@ == plain_key(lv[j].file_name),
            decreases loose.len() - f,
        {
            file_sort.push(plain_key_of(loose[f].file_name.as_str()));
            f += 1;
        }
        assert(keys_view(file_sort@) =~= file_keys(lv));
        let ford = stable_order(&file_sort);
        let ghost fov = places_view(ford@);
        let mut sorted: Vec<ImportFile> = Vec::new();
        let mut s: usize = 0;
        while s < ford.len()
            invariant
                s <= ford.len(),
                ford.len() == loose.len(),
                lv == loose.deep_view(),
                fov == places_view(ford@),
                is_stable_order(file_keys(lv), fov),
                sorted.len() == s,
                forall|j: int| 0 <= j < s ==> #[trigger] sorted.deep_view()[j] == lv[fov[j]],
            decreases ford.len() - s,
        {
            let ghost prev = sorted.deep_view();
            assert(fov[s as int] == ford[s as int]);
            let src = &loose[ford[s]];
            sorted.push(
                ImportFile { file_name: src.file_name.clone(), doc_name: src.doc_name.clone() },
            );
            proof {
                let now = sorted.deep_view();
                assert forall|j: int| 0 <= j < s + 1 implies #[trigger] now[j] == lv[fov[j]] by {
                    if j < s {
                        assert(now[j] == prev[j]);
                    }
                }
            }
            s += 1;
        }
        let ghost before = groups.deep_view();
        groups.push(
            ImportGroup { name: String::from_str("UNSORTED"), source: None, files: sorted },
        );
        proof {
            let now = groups.deep_view();
            assert forall|j: int| 0 <= j < dirs.len() implies #[trigger] now[j] == group_of_dir(
                dv,
                ov[j],
                "Folder"@,
            ) by {
                assert(now[j] == before[j]);
            }
            let last = now[dirs.len() as int];
            assert(is_stable_order(file_keys(lv), fov));
            assert(forall|j: int| 0 <= j < lv.len() ==> #[trigger] last.files[j] == lv[fov[j]]);
        }
    }
    proof {
        assert(is_stable_order(dir_keys(dv), ov));
    }
    LegacyPlan { project_name, groups }
}

/// What was dropped on a project: a file, by its name, or a directory.
#[derive(Debug, PartialEq, Eq)]
pub enum Dropped {
    File(String),
    Dir(FoundDir),
}

/// One step of the import of what was dropped: a text file to import
/// into the folder that the drop aimed at, with its place among the
/// items dropped, or a new top-level folder with the text files to
/// import into it.
#[derive(Debug, PartialEq, Eq)]
pub enum DropStep {
    IntoTarget(usize, ImportFile),
    NewGroup(ImportGroup),
}

/// The mathematical value of a [`Dropped`] item.
pub enum DroppedView {
    File(Seq<char>),
    Dir(FoundDirView),
}

/// The mathematical value of a [`DropStep`].
pub enum DropStepView {
    IntoTarget(usize, ImportFileView),
    NewGroup(ImportGroupView),
}

impl View for Dropped {
    type V = DroppedView;

    open spec fn view(&self) -> DroppedView {
        match *self {
            Dropped::File(n) => DroppedView::File(n@),
            Dropped::Dir(d) => DroppedView::Dir(d@),
        }
    }
}

impl DeepView for Dropped {
    type V = DroppedView;

    open spec fn deep_view(&self) -> DroppedView {
        self@
    }
}

impl View for DropStep {
    type V = DropStepView;

    open spec fn view(&self) -> DropStepView {
        match *self {
            DropStep::IntoTarget(at, f) => DropStepView::IntoTarget(at, f@),
            DropStep::NewGroup(g) => DropStepView::NewGroup(g@),
        }
    }
}

impl DeepView for DropStep {
    type V = DropStepView;

    open spec fn deep_view(&self) -> DropStepView {
        self@
    }
}

/// The steps for the item at place `at`: a text file goes into the
/// folder aimed at, another file nowhere; a directory becomes a new
/// top-level folder, whatever the drop aimed at, with the text files
/// that stand directly in it.
pub open spec fn steps_of(items: Seq<DroppedView>, at: int) -> Seq<DropStepView> {
    match items[at] {
        DroppedView::File(name) => if is_text_file(name) {
            seq![
                DropStepView::IntoTarget(
                    at as usize,
                    ImportFileView { file_name: name, doc_name: stem(name) },
                ),
            ]
        } else {
            Seq::empty()
        },
        DroppedView::Dir(d) => seq![
            DropStepView::NewGroup(
                ImportGroupView {
                    name: name_or(d.name, "Imported Folder"@),
                    source: Some(at as usize),
                    files: text_files(d.files, d.files.len()),
                },
            ),
        ],
    }
}

/// The steps for the first `k` items.
pub open spec fn drop_steps(items: Seq<DroppedView>, k: nat) -> Seq<DropStepView>
    decreases k,
{
    if k == 0 || k > items.len() {
        Seq::empty()
    } else {
        drop_steps(items, (k - 1) as nat) + steps_of(items, k - 1)
    }
}

/// Plans the import of files and directories dropped on a project, in
/// the order in which they were dropped.
pub fn plan_dropped(items: &Vec<Dropped>) -> (r: Vec<DropStep>)
    ensures
        r.deep_view() == drop_steps(items.deep_view(), items.len() as nat),
{
    let ghost iv = items.deep_view();
    let mut out: Vec<DropStep> = Vec::new();
    let mut k: usize = 0;
    while k < items.len()
        invariant
            k <= items.len(),
            iv == items.deep_view(),
            out.deep_view() == drop_steps(iv, k as nat),
        decreases items.len() - k,
    {
        let ghost prev = out.deep_view();
        match &items[k] {
            Dropped::File(name) => {
                match doc_name_of(name.as_str()) {
                    Some(doc_name) => {
                        out.push(
                            DropStep::IntoTarget(
                                k,
                                ImportFile { file_name: name.clone(), doc_name },
                            ),
                        );
                        assert(out.deep_view() =~= prev + steps_of(iv, k as int));
                    },
                    None => {
                        assert(out.deep_view() =~= prev + steps_of(iv, k as int));
                    },
                }
            },
            Dropped::Dir(d) => {
                let files = pick_text_files(&d.files);
                out.push(
                    DropStep::NewGroup(
                        ImportGroup {
                            name: name_or_else(&d.name, "Imported Folder"),
                            source: Some(k),
                            files,
                        },
                    ),
                );
                assert(out.deep_view() =~= prev + steps_of(iv, k as int));
            },
        }
        k += 1;
    }
    out
}

} // verus!
