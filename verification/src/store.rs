//! The store: every table of every project, held in memory.
//!
//! Rows are kept in the order in which they were created, and identifiers
//! are handed out in increasing order from one counter, so a row's place
//! in its table follows its identifier.

use vstd::prelude::*;
use crate::models::{
    Character, CharacterView, Doc, DocGroup, DocGroupView, DocView, Draft, DraftView, Event,
    EventView, FolderDraft, FolderDraftView, Place, PlaceView, Project, ProjectDraft,
    ProjectDraftView, ProjectView, Timeline, TimelineView,
};

verus! {

/// Why an operation on the store was refused.
#[derive(Clone, Copy, Debug, PartialEq, Eq, Structural)]
pub enum StoreError {
    /// A required name was empty or blank.
    EmptyName,
    /// No row carries the identifier that the operation names.
    NotFound,
    /// A direction other than "up" and "down" was given.
    InvalidDirection,
    /// The row has no sort order and so takes no part in ordering.
    Unordered,
    /// An identifier or a sort order would leave the range of `i64`.
    Exhausted,
    /// Every name that an export may take is taken.
    NoFreeName,
}

impl StoreError {
    /// The message shown to the caller.
    pub fn message(&self) -> (r: String)
        ensures
            r@ == (match *self {
                StoreError::EmptyName => "name cannot be empty"@,
                StoreError::NotFound => "not found"@,
                StoreError::InvalidDirection => "Invalid direction"@,
                StoreError::Unordered => "row has no sort order"@,
                StoreError::Exhausted => "store is full"@,
                StoreError::NoFreeName => "Failed to pick unique export folder name"@,
            }),
    {
        match self {
            StoreError::EmptyName => String::from_str("name cannot be empty"),
            StoreError::NotFound => String::from_str("not found"),
            StoreError::InvalidDirection => String::from_str("Invalid direction"),
            StoreError::Unordered => String::from_str("row has no sort order"),
            StoreError::Exhausted => String::from_str("store is full"),
            StoreError::NoFreeName => String::from_str("Failed to pick unique export folder name"),
        }
    }
}

/// One row of a relation between an owner (a document or a folder) and
/// an item attached to it (a character, an event or a place).
#[derive(Clone, Copy, Debug, PartialEq, Eq, Structural)]
pub struct Link {
    pub owner: i64,
    pub item: i64,
}

/// A row view that carries an identifier.
pub trait Keyed {
    spec fn key(&self) -> i64;
}

impl Keyed for ProjectView {
    open spec fn key(&self) -> i64 {
        self.id
    }
}

impl Keyed for DocGroupView {
    open spec fn key(&self) -> i64 {
        self.id
    }
}

impl Keyed for DocView {
    open spec fn key(&self) -> i64 {
        self.id
    }
}

impl Keyed for DraftView {
    open spec fn key(&self) -> i64 {
        self.id
    }
}

impl Keyed for CharacterView {
    open spec fn key(&self) -> i64 {
        self.id
    }
}

impl Keyed for EventView {
    open spec fn key(&self) -> i64 {
        self.id
    }
}

impl Keyed for PlaceView {
    open spec fn key(&self) -> i64 {
        self.id
    }
}

impl Keyed for TimelineView {
    open spec fn key(&self) -> i64 {
        self.id
    }
}

impl Keyed for ProjectDraftView {
    open spec fn key(&self) -> i64 {
        self.id
    }
}

impl Keyed for FolderDraftView {
    open spec fn key(&self) -> i64 {
        self.id
    }
}

/// The identifiers of a table grow with the position of the row.
pub open spec fn growing<R: Keyed>(rows: Seq<R>) -> bool {
    forall|i: int, j: int|
        0 <= i < j < rows.len() ==> (#[trigger] rows[i]).key() < (#[trigger] rows[j]).key()
}

/// The identifiers of a table are positive, below the counter, and grow
/// with the position of the row.
pub open spec fn ascending<R: Keyed>(rows: Seq<R>, next: i64) -> bool {
    &&& forall|i: int| 0 <= i < rows.len() ==> 0 < (#[trigger] rows[i]).key() < next
    &&& growing(rows)
}

/// Some row of the table carries the identifier.
pub open spec fn has_key<R: Keyed>(rows: Seq<R>, id: i64) -> bool {
    exists|i: int| 0 <= i < rows.len() && (#[trigger] rows[i]).key() == id
}

/// The place of the row that carries the identifier.
pub open spec fn place_of<R: Keyed>(rows: Seq<R>, id: i64) -> int {
    choose|i: int| 0 <= i < rows.len() && (#[trigger] rows[i]).key() == id
}

/// The row that carries the identifier, if there is one.
pub open spec fn row_of<R: Keyed>(rows: Seq<R>, id: i64) -> Option<R> {
    if has_key(rows, id) {
        Some(rows[place_of(rows, id)])
    } else {
        None
    }
}

/// In a table with growing identifiers, a row is found at its own place.
pub proof fn lemma_place_of<R: Keyed>(rows: Seq<R>, i: int)
    requires
        growing(rows),
        0 <= i < rows.len(),
    ensures
        has_key(rows, rows[i].key()),
        place_of(rows, rows[i].key()) == i,
        row_of(rows, rows[i].key()) == Some(rows[i]),
{
    let p = place_of(rows, rows[i].key());
    assert(0 <= p < rows.len() && rows[p].key() == rows[i].key());
    if p < i {
        assert(rows[p].key() < rows[i].key());
    } else if i < p {
        assert(rows[i].key() < rows[p].key());
    }
}

/// A row whose identifier can be read.
pub trait Record: DeepView + Sized where <Self as DeepView>::V: Keyed {
    fn id(&self) -> (r: i64)
        ensures
            r == self.deep_view().key(),
    ;

    fn copy(&self) -> (r: Self)
        ensures
            r.deep_view() == self.deep_view(),
    ;
}

impl Record for Project {
    fn id(&self) -> (r: i64) {
        self.id
    }

    fn copy(&self) -> (r: Self) {
        self.clone()
    }
}

impl Record for DocGroup {
    fn id(&self) -> (r: i64) {
        self.id
    }

    fn copy(&self) -> (r: Self) {
        self.clone()
    }
}

impl Record for Doc {
    fn id(&self) -> (r: i64) {
        self.id
    }

    fn copy(&self) -> (r: Self) {
        self.clone()
    }
}

impl Record for Draft {
    fn id(&self) -> (r: i64) {
        self.id
    }

    fn copy(&self) -> (r: Self) {
        self.clone()
    }
}

impl Record for Character {
    fn id(&self) -> (r: i64) {
        self.id
    }

    fn copy(&self) -> (r: Self) {
        self.clone()
    }
}

impl Record for Event {
    fn id(&self) -> (r: i64) {
        self.id
    }

    fn copy(&self) -> (r: Self) {
        self.clone()
    }
}

impl Record for Place {
    fn id(&self) -> (r: i64) {
        self.id
    }

    fn copy(&self) -> (r: Self) {
        self.clone()
    }
}

impl Record for Timeline {
    fn id(&self) -> (r: i64) {
        self.id
    }

    fn copy(&self) -> (r: Self) {
        self.clone()
    }
}

impl Record for ProjectDraft {
    fn id(&self) -> (r: i64) {
        self.id
    }

    fn copy(&self) -> (r: Self) {
        self.clone()
    }
}

impl Record for FolderDraft {
    fn id(&self) -> (r: i64) {
        self.id
    }

    fn copy(&self) -> (r: Self) {
        self.clone()
    }
}

/// A row whose owner can be read.
pub trait OwnedRecord: Record where <Self as DeepView>::V: Keyed + Owned {
    fn owner_id(&self) -> (r: i64)
        ensures
            r == self.deep_view().owner(),
    ;
}

impl OwnedRecord for DocGroup {
    fn owner_id(&self) -> (r: i64) {
        self.project_id
    }
}

impl OwnedRecord for Doc {
    fn owner_id(&self) -> (r: i64) {
        self.project_id
    }
}

impl OwnedRecord for Draft {
    fn owner_id(&self) -> (r: i64) {
        self.doc_id
    }
}

impl OwnedRecord for Character {
    fn owner_id(&self) -> (r: i64) {
        self.project_id
    }
}

impl OwnedRecord for Event {
    fn owner_id(&self) -> (r: i64) {
        self.project_id
    }
}

impl OwnedRecord for Place {
    fn owner_id(&self) -> (r: i64) {
        self.project_id
    }
}

impl OwnedRecord for ProjectDraft {
    fn owner_id(&self) -> (r: i64) {
        self.project_id
    }
}

impl OwnedRecord for FolderDraft {
    fn owner_id(&self) -> (r: i64) {
        self.doc_group_id
    }
}

/// The place of the row that carries the identifier, found by halving
/// the table: identifiers grow with the place.
pub fn position<T: Record>(rows: &Vec<T>, id: i64) -> (r: Option<usize>) where
    <T as DeepView>::V: Keyed,

    requires
        growing(rows.deep_view()),
    ensures
        match r {
            Some(i) => i < rows.len() && rows.deep_view()[i as int].key() == id && place_of(
                rows.deep_view(),
                id,
            ) == i && has_key(rows.deep_view(), id),
            None => !has_key(rows.deep_view(), id),
        },
{
    let ghost view = rows.deep_view();
    let mut lo: usize = 0;
    let mut hi: usize = rows.len();
    while lo < hi
        invariant
            view == rows.deep_view(),
            growing(view),
            lo <= hi <= rows.len(),
            forall|i: int| 0 <= i < lo ==> (#[trigger] view[i]).key() < id,
            forall|i: int| hi <= i < view.len() ==> (#[trigger] view[i]).key() > id,
        decreases hi - lo,
    {
        let mid = lo + (hi - lo) / 2;
        let k = rows[mid].id();
        assert(k == view[mid as int].key());
        if k == id {
            proof {
                lemma_place_of(view, mid as int);
            }
            return Some(mid);
        } else if k < id {
            assert forall|i: int| 0 <= i < mid + 1 implies (#[trigger] view[i]).key() < id by {
                if i < mid {
                    assert(view[i].key() < view[mid as int].key());
                }
            }
            lo = mid + 1;
        } else {
            assert forall|i: int| mid <= i < view.len() implies (#[trigger] view[i]).key()
                > id by {
                if mid < i {
                    assert(view[mid as int].key() < view[i].key());
                }
            }
            hi = mid;
        }
    }
    None
}

/// A row view that belongs to another row: a folder to its project, a
/// draft to its document.
pub trait Owned {
    spec fn owner(&self) -> i64;
}

impl Owned for DocGroupView {
    open spec fn owner(&self) -> i64 {
        self.project_id
    }
}

impl Owned for DocView {
    open spec fn owner(&self) -> i64 {
        self.project_id
    }
}

impl Owned for DraftView {
    open spec fn owner(&self) -> i64 {
        self.doc_id
    }
}

impl Owned for CharacterView {
    open spec fn owner(&self) -> i64 {
        self.project_id
    }
}

impl Owned for EventView {
    open spec fn owner(&self) -> i64 {
        self.project_id
    }
}

impl Owned for PlaceView {
    open spec fn owner(&self) -> i64 {
        self.project_id
    }
}

impl Owned for ProjectDraftView {
    open spec fn owner(&self) -> i64 {
        self.project_id
    }
}

impl Owned for FolderDraftView {
    open spec fn owner(&self) -> i64 {
        self.doc_group_id
    }
}

/// Every row belongs to a row that was created before the counter
/// reached `next`.
pub open spec fn owners_below<R: Owned>(rows: Seq<R>, next: i64) -> bool {
    forall|i: int| 0 <= i < rows.len() ==> (#[trigger] rows[i]).owner() < next
}

/// Every document that is filed is filed in a folder that was created
/// before the counter reached `next`.
pub open spec fn filed_below(docs: Seq<DocView>, next: i64) -> bool {
    forall|i: int|
        0 <= i < docs.len() ==> ((#[trigger] docs[i]).doc_group_id matches Some(g) ==> g < next)
}

/// Both sides of every pair were created before the counter reached
/// `next`.
pub open spec fn links_below(links: Seq<Link>, next: i64) -> bool {
    forall|i: int| 0 <= i < links.len() ==> (#[trigger] links[i]).owner < next && links[i].item < next
}

/// No pair occurs twice in a relation.
pub open spec fn links_distinct(links: Seq<Link>) -> bool {
    forall|i: int, j: int| 0 <= i < j < links.len() ==> #[trigger] links[i] != #[trigger] links[j]
}

/// The relation holds the pair.
pub open spec fn linked(links: Seq<Link>, owner: i64, item: i64) -> bool {
    links.contains(Link { owner, item })
}

/// No entity has two timelines.
pub open spec fn timelines_distinct(rows: Seq<TimelineView>) -> bool {
    forall|i: int, j: int|
        0 <= i < j < rows.len() ==> !((#[trigger] rows[i]).entity_type == (
        #[trigger] rows[j]).entity_type && rows[i].entity_id == rows[j].entity_id)
}

/// Every folder was created after its parent.
pub open spec fn parents_first(groups: Seq<DocGroupView>) -> bool {
    forall|i: int|
        0 <= i < groups.len() ==> ((#[trigger] groups[i]).parent_id matches Some(p) ==> p
            < groups[i].id)
}

/// The store: one table for each kind of record and of relation, and the
/// counter that gives the next identifier.
pub struct Store {
    pub projects: Vec<Project>,
    pub groups: Vec<DocGroup>,
    pub docs: Vec<Doc>,
    pub drafts: Vec<Draft>,
    pub characters: Vec<Character>,
    pub events: Vec<Event>,
    pub places: Vec<Place>,
    pub timelines: Vec<Timeline>,
    pub project_drafts: Vec<ProjectDraft>,
    pub folder_drafts: Vec<FolderDraft>,
    pub doc_characters: Vec<Link>,
    pub doc_events: Vec<Link>,
    pub doc_places: Vec<Link>,
    pub group_characters: Vec<Link>,
    pub group_events: Vec<Link>,
    pub group_places: Vec<Link>,
    /// The identifier that the next row receives.
    pub next_id: i64,
}

/// The store as mathematics: each table a sequence of row views.
pub struct StoreView {
    pub projects: Seq<ProjectView>,
    pub groups: Seq<DocGroupView>,
    pub docs: Seq<DocView>,
    pub drafts: Seq<DraftView>,
    pub characters: Seq<CharacterView>,
    pub events: Seq<EventView>,
    pub places: Seq<PlaceView>,
    pub timelines: Seq<TimelineView>,
    pub project_drafts: Seq<ProjectDraftView>,
    pub folder_drafts: Seq<FolderDraftView>,
    pub doc_characters: Seq<Link>,
    pub doc_events: Seq<Link>,
    pub doc_places: Seq<Link>,
    pub group_characters: Seq<Link>,
    pub group_events: Seq<Link>,
    pub group_places: Seq<Link>,
    pub next_id: i64,
}

impl StoreView {
    /// No row refers to a row that is yet to be created.
    pub open spec fn refs_below(self) -> bool {
        &&& owners_below(self.groups, self.next_id)
        &&& owners_below(self.docs, self.next_id)
        &&& filed_below(self.docs, self.next_id)
        &&& owners_below(self.drafts, self.next_id)
        &&& owners_below(self.characters, self.next_id)
        &&& owners_below(self.events, self.next_id)
        &&& owners_below(self.places, self.next_id)
        &&& owners_below(self.project_drafts, self.next_id)
        &&& owners_below(self.folder_drafts, self.next_id)
        &&& links_below(self.doc_characters, self.next_id)
        &&& links_below(self.doc_events, self.next_id)
        &&& links_below(self.doc_places, self.next_id)
        &&& links_below(self.group_characters, self.next_id)
        &&& links_below(self.group_events, self.next_id)
        &&& links_below(self.group_places, self.next_id)
    }

    /// The validity of a store: identifiers are fresh and growing, folders
    /// follow their parents, no relation or timeline is doubled, and no
    /// row refers to a row that is yet to be created.
    pub open spec fn wf(self) -> bool {
        &&& 0 < self.next_id
        &&& self.refs_below()
        &&& ascending(self.projects, self.next_id)
        &&& ascending(self.groups, self.next_id)
        &&& ascending(self.docs, self.next_id)
        &&& ascending(self.drafts, self.next_id)
        &&& ascending(self.characters, self.next_id)
        &&& ascending(self.events, self.next_id)
        &&& ascending(self.places, self.next_id)
        &&& ascending(self.timelines, self.next_id)
        &&& ascending(self.project_drafts, self.next_id)
        &&& ascending(self.folder_drafts, self.next_id)
        &&& parents_first(self.groups)
        &&& timelines_distinct(self.timelines)
        &&& links_distinct(self.doc_characters)
        &&& links_distinct(self.doc_events)
        &&& links_distinct(self.doc_places)
        &&& links_distinct(self.group_characters)
        &&& links_distinct(self.group_events)
        &&& links_distinct(self.group_places)
    }
}

impl View for Store {
    type V = StoreView;

    open spec fn view(&self) -> StoreView {
        StoreView {
            projects: self.projects.deep_view(),
            groups: self.groups.deep_view(),
            docs: self.docs.deep_view(),
            drafts: self.drafts.deep_view(),
            characters: self.characters.deep_view(),
            events: self.events.deep_view(),
            places: self.places.deep_view(),
            timelines: self.timelines.deep_view(),
            project_drafts: self.project_drafts.deep_view(),
            folder_drafts: self.folder_drafts.deep_view(),
            doc_characters: self.doc_characters@,
            doc_events: self.doc_events@,
            doc_places: self.doc_places@,
            group_characters: self.group_characters@,
            group_events: self.group_events@,
            group_places: self.group_places@,
            next_id: self.next_id,
        }
    }
}

impl Store {
    /// The validity of the store; see [`StoreView::wf`].
    pub open spec fn wf(&self) -> bool {
        self@.wf()
    }

    /// An empty store, whose first row will carry the identifier 1.
    pub fn new() -> (s: Store)
        ensures
            s.wf(),
            s@.next_id == 1,
            s@.projects.len() == 0,
            s@.groups.len() == 0,
            s@.docs.len() == 0,
            s@.drafts.len() == 0,
            s@.characters.len() == 0,
            s@.events.len() == 0,
            s@.places.len() == 0,
            s@.timelines.len() == 0,
            s@.project_drafts.len() == 0,
            s@.folder_drafts.len() == 0,
            s@.doc_characters.len() == 0,
            s@.doc_events.len() == 0,
            s@.doc_places.len() == 0,
            s@.group_characters.len() == 0,
            s@.group_events.len() == 0,
            s@.group_places.len() == 0,
    {
        Store {
            projects: Vec::new(),
            groups: Vec::new(),
            docs: Vec::new(),
            drafts: Vec::new(),
            characters: Vec::new(),
            events: Vec::new(),
            places: Vec::new(),
            timelines: Vec::new(),
            project_drafts: Vec::new(),
            folder_drafts: Vec::new(),
            doc_characters: Vec::new(),
            doc_events: Vec::new(),
            doc_places: Vec::new(),
            group_characters: Vec::new(),
            group_events: Vec::new(),
            group_places: Vec::new(),
            next_id: 1,
        }
    }
}

/// Whether the identifiers of the table are positive, below `next`, and
/// growing.
pub fn check_ascending<T: Record>(rows: &Vec<T>, next: i64) -> (r: bool) where
    <T as DeepView>::V: Keyed,

    ensures
        r == ascending(rows.deep_view(), next),
{
    let ghost view = rows.deep_view();
    let mut i: usize = 0;
    while i < rows.len()
        invariant
            i <= rows.len(),
            view == rows.deep_view(),
            forall|j: int| 0 <= j < i ==> 0 < (#[trigger] view[j]).key() < next,
            forall|j: int| 0 < j < i ==> view[j - 1].key() < (#[trigger] view[j]).key(),
        decreases rows.len() - i,
    {
        let id = rows[i].id();
        if id <= 0 || id >= next {
            assert(view[i as int].key() == id);
            return false;
        }
        if i > 0 && rows[i - 1].id() >= id {
            assert(!(view[i - 1].key() < view[i as int].key()));
            return false;
        }
        i += 1;
    }
    proof {
        assert forall|a: int, b: int| 0 <= a < b < view.len() implies (#[trigger] view[a]).key() < (
        #[trigger] view[b]).key() by {
            lemma_neighbours_grow(view, a, b);
        }
    }
    true
}

/// A table in which every row carries a greater identifier than the
/// row before it has growing identifiers.
pub proof fn lemma_neighbours_grow<R: Keyed>(rows: Seq<R>, a: int, b: int)
    requires
        0 <= a < b < rows.len(),
        forall|j: int| 0 < j < rows.len() ==> rows[j - 1].key() < (#[trigger] rows[j]).key(),
    ensures
        rows[a].key() < rows[b].key(),
    decreases b - a,
{
    if a + 1 < b {
        lemma_neighbours_grow(rows, a, b - 1);
    }
    assert(rows[b - 1].key() < rows[b].key());
}

/// Whether every row belongs to a row with an identifier below `next`.
pub fn check_owners<T: OwnedRecord>(rows: &Vec<T>, next: i64) -> (r: bool) where
    <T as DeepView>::V: Keyed + Owned,

    ensures
        r == owners_below(rows.deep_view(), next),
{
    let mut i: usize = 0;
    while i < rows.len()
        invariant
            i <= rows.len(),
            forall|j: int| 0 <= j < i ==> (#[trigger] rows.deep_view()[j]).owner() < next,
        decreases rows.len() - i,
    {
        if rows[i].owner_id() >= next {
            assert(rows.deep_view()[i as int].owner() >= next);
            return false;
        }
        i += 1;
    }
    true
}

/// Whether no pair occurs twice and both sides of every pair are below
/// `next`.
pub fn check_links(links: &Vec<Link>, next: i64) -> (r: bool)
    ensures
        r == (links_distinct(links@) && links_below(links@, next)),
{
    let mut i: usize = 0;
    while i < links.len()
        invariant
            i <= links.len(),
            forall|j: int| 0 <= j < i ==> (#[trigger] links[j]).owner < next && links[j].item < next,
            forall|a: int, b: int| 0 <= a < b < i ==> #[trigger] links[a] != #[trigger] links[b],
        decreases links.len() - i,
    {
        if links[i].owner >= next || links[i].item >= next {
            return false;
        }
        let mut k: usize = 0;
        while k < i
            invariant
                k <= i,
                i < links.len(),
                forall|a: int| 0 <= a < k ==> #[trigger] links[a] != links[i as int],
            decreases i - k,
        {
            if links[k].owner == links[i].owner && links[k].item == links[i].item {
                assert(links[k as int] == links[i as int]);
                return false;
            }
            k += 1;
        }
        i += 1;
    }
    true
}

/// Whether no entity has two timelines.
pub fn check_timelines(rows: &Vec<Timeline>) -> (r: bool)
    ensures
        r == timelines_distinct(rows.deep_view()),
{
    let ghost view = rows.deep_view();
    let mut i: usize = 0;
    while i < rows.len()
        invariant
            i <= rows.len(),
            view == rows.deep_view(),
            forall|a: int, b: int|
                0 <= a < b < i ==> !((#[trigger] view[a]).entity_type == (
                #[trigger] view[b]).entity_type && view[a].entity_id == view[b].entity_id),
        decreases rows.len() - i,
    {
        let mut k: usize = 0;
        while k < i
            invariant
                k <= i,
                i < rows.len(),
                view == rows.deep_view(),
                forall|a: int|
                    0 <= a < k ==> !((#[trigger] view[a]).entity_type == view[i as int].entity_type
                        && view[a].entity_id == view[i as int].entity_id),
            decreases i - k,
        {
            if rows[k].entity_id == rows[i].entity_id && rows[k].entity_type == rows[i].entity_type {
                assert(view[k as int].entity_type == view[i as int].entity_type && view[k as int].entity_id
                    == view[i as int].entity_id);
                return false;
            }
            k += 1;
        }
        i += 1;
    }
    true
}

impl Store {
    /// Whether the store is valid. A store that was filled from outside
    /// the library is to be checked before it is used.
    pub fn is_well_formed(&self) -> (r: bool)
        ensures
            r == self.wf(),
    {
        let next = self.next_id;
        if next <= 0 {
            return false;
        }
        if !(check_ascending(&self.projects, next) && check_ascending(&self.groups, next)
            && check_ascending(&self.docs, next) && check_ascending(&self.drafts, next)
            && check_ascending(&self.characters, next) && check_ascending(&self.events, next)
            && check_ascending(&self.places, next) && check_ascending(&self.timelines, next)
            && check_ascending(&self.project_drafts, next) && check_ascending(
            &self.folder_drafts,
            next,
        )) {
            return false;
        }
        if !(check_owners(&self.groups, next) && check_owners(&self.docs, next) && check_owners(
            &self.drafts,
            next,
        ) && check_owners(&self.characters, next) && check_owners(&self.events, next)
            && check_owners(&self.places, next) && check_owners(&self.project_drafts, next)
            && check_owners(&self.folder_drafts, next)) {
            return false;
        }
        if !(check_links(&self.doc_characters, next) && check_links(&self.doc_events, next)
            && check_links(&self.doc_places, next) && check_links(&self.group_characters, next)
            && check_links(&self.group_events, next) && check_links(&self.group_places, next)) {
            return false;
        }
        if !check_timelines(&self.timelines) {
            return false;
        }
        let mut i: usize = 0;
        while i < self.groups.len()
            invariant
                i <= self.groups.len(),
                forall|j: int|
                    0 <= j < i ==> ((#[trigger] self@.groups[j]).parent_id matches Some(p) ==> p
                        < self@.groups[j].id),
            decreases self.groups.len() - i,
        {
            if let Some(p) = self.groups[i].parent_id {
                if p >= self.groups[i].id {
                    assert(self@.groups[i as int].parent_id == Some(p));
                    return false;
                }
            }
            i += 1;
        }
        let mut d: usize = 0;
        while d < self.docs.len()
            invariant
                d <= self.docs.len(),
                next == self.next_id,
                forall|j: int|
                    0 <= j < d ==> ((#[trigger] self@.docs[j]).doc_group_id matches Some(g) ==> g
                        < next),
            decreases self.docs.len() - d,
        {
            if let Some(g) = self.docs[d].doc_group_id {
                if g >= next {
                    assert(self@.docs[d as int].doc_group_id == Some(g));
                    return false;
                }
            }
            d += 1;
        }
        true
    }
}

} // verus!
