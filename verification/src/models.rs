//! The records of a project and their mathematical views.
//!
//! Every record that holds text has a view in which each `String` is
//! replaced by the sequence of its characters. Contracts throughout the
//! crate speak of those views.

use vstd::prelude::*;

verus! {

/// The characters of an optional text.
pub open spec fn opt_text(o: Option<String>) -> Option<Seq<char>> {
    match o {
        Some(s) => Some(s@),
        None => None,
    }
}

/// A copy of an optional text.
pub fn copy_opt_text(o: &Option<String>) -> (r: Option<String>)
    ensures
        opt_text(r) == opt_text(*o),
{
    match o {
        Some(s) => Some(s.clone()),
        None => None,
    }
}

/// The stored text, or the replacement when a new one is given.
pub fn replace_text(given: Option<String>, current: &String) -> (r: String)
    ensures
        r@ == (match given {
            Some(s) => s@,
            None => current@,
        }),
{
    match given {
        Some(s) => s,
        None => current.clone(),
    }
}

/// The replacement when one is given, else a copy of the stored optional
/// text.
pub fn replace_opt_text(given: Option<String>, current: &Option<String>) -> (r: Option<String>)
    ensures
        opt_text(r) == (match given {
            Some(s) => Some(s@),
            None => opt_text(*current),
        }),
{
    match given {
        Some(s) => Some(s),
        None => copy_opt_text(current),
    }
}

/// A writing project.
#[derive(Debug, PartialEq, Eq)]
pub struct Project {
    pub id: i64,
    pub name: String,
    pub desc: Option<String>,
    pub path: Option<String>,
    pub notes: Option<String>,
    pub timeline_start: Option<String>,
    pub timeline_end: Option<String>,
}

/// The mathematical value of a [`Project`].
pub struct ProjectView {
    pub id: i64,
    pub name: Seq<char>,
    pub desc: Option<Seq<char>>,
    pub path: Option<Seq<char>>,
    pub notes: Option<Seq<char>>,
    pub timeline_start: Option<Seq<char>>,
    pub timeline_end: Option<Seq<char>>,
}

impl View for Project {
    type V = ProjectView;

    open spec fn view(&self) -> ProjectView {
        ProjectView {
            id: self.id,
            name: self.name@,
            desc: opt_text(self.desc),
            path: opt_text(self.path),
            notes: opt_text(self.notes),
            timeline_start: opt_text(self.timeline_start),
            timeline_end: opt_text(self.timeline_end),
        }
    }
}

impl DeepView for Project {
    type V = ProjectView;

    open spec fn deep_view(&self) -> ProjectView {
        self@
    }
}

impl Clone for Project {
    fn clone(&self) -> (r: Self)
        ensures
            r@ == self@,
    {
        Project {
            id: self.id,
            name: self.name.clone(),
            desc: copy_opt_text(&self.desc),
            path: copy_opt_text(&self.path),
            notes: copy_opt_text(&self.notes),
            timeline_start: copy_opt_text(&self.timeline_start),
            timeline_end: copy_opt_text(&self.timeline_end),
        }
    }
}

/// What a new project is made from.
#[derive(Debug, PartialEq, Eq)]
pub struct ProjectCreate {
    pub name: String,
    pub desc: Option<String>,
    pub path: Option<String>,
    pub notes: Option<String>,
}

/// A folder of the document tree.
#[derive(Debug, PartialEq, Eq)]
pub struct DocGroup {
    pub id: i64,
    pub project_id: i64,
    pub name: String,
    pub parent_id: Option<i64>,
    pub sort_order: Option<i64>,
    pub notes: Option<String>,
}

/// The mathematical value of a [`DocGroup`].
pub struct DocGroupView {
    pub id: i64,
    pub project_id: i64,
    pub name: Seq<char>,
    pub parent_id: Option<i64>,
    pub sort_order: Option<i64>,
    pub notes: Option<Seq<char>>,
}

impl View for DocGroup {
    type V = DocGroupView;

    open spec fn view(&self) -> DocGroupView {
        DocGroupView {
            id: self.id,
            project_id: self.project_id,
            name: self.name@,
            parent_id: self.parent_id,
            sort_order: self.sort_order,
            notes: opt_text(self.notes),
        }
    }
}

impl DeepView for DocGroup {
    type V = DocGroupView;

    open spec fn deep_view(&self) -> DocGroupView {
        self@
    }
}

impl Clone for DocGroup {
    fn clone(&self) -> (r: Self)
        ensures
            r@ == self@,
    {
        DocGroup {
            id: self.id,
            project_id: self.project_id,
            name: self.name.clone(),
            parent_id: self.parent_id,
            sort_order: self.sort_order,
            notes: copy_opt_text(&self.notes),
        }
    }
}

/// A document, optionally filed in a folder.
#[derive(Debug, PartialEq, Eq)]
pub struct Doc {
    pub id: i64,
    pub project_id: i64,
    pub path: String,
    pub name: Option<String>,
    pub timeline_id: Option<i64>,
    pub text: Option<String>,
    pub notes: Option<String>,
    pub doc_group_id: Option<i64>,
    pub sort_order: Option<i64>,
}

/// The mathematical value of a [`Doc`].
pub struct DocView {
    pub id: i64,
    pub project_id: i64,
    pub path: Seq<char>,
    pub name: Option<Seq<char>>,
    pub timeline_id: Option<i64>,
    pub text: Option<Seq<char>>,
    pub notes: Option<Seq<char>>,
    pub doc_group_id: Option<i64>,
    pub sort_order: Option<i64>,
}

impl View for Doc {
    type V = DocView;

    open spec fn view(&self) -> DocView {
        DocView {
            id: self.id,
            project_id: self.project_id,
            path: self.path@,
            name: opt_text(self.name),
            timeline_id: self.timeline_id,
            text: opt_text(self.text),
            notes: opt_text(self.notes),
            doc_group_id: self.doc_group_id,
            sort_order: self.sort_order,
        }
    }
}

impl DeepView for Doc {
    type V = DocView;

    open spec fn deep_view(&self) -> DocView {
        self@
    }
}

impl Clone for Doc {
    fn clone(&self) -> (r: Self)
        ensures
            r@ == self@,
    {
        Doc {
            id: self.id,
            project_id: self.project_id,
            path: self.path.clone(),
            name: copy_opt_text(&self.name),
            timeline_id: self.timeline_id,
            text: copy_opt_text(&self.text),
            notes: copy_opt_text(&self.notes),
            doc_group_id: self.doc_group_id,
            sort_order: self.sort_order,
        }
    }
}

/// A character of a project.
#[derive(Debug, PartialEq, Eq)]
pub struct Character {
    pub id: i64,
    pub project_id: i64,
    pub name: String,
    pub desc: Option<String>,
}

/// The mathematical value of a [`Character`].
pub struct CharacterView {
    pub id: i64,
    pub project_id: i64,
    pub name: Seq<char>,
    pub desc: Option<Seq<char>>,
}

impl View for Character {
    type V = CharacterView;

    open spec fn view(&self) -> CharacterView {
        CharacterView {
            id: self.id,
            project_id: self.project_id,
            name: self.name@,
            desc: opt_text(self.desc),
        }
    }
}

impl DeepView for Character {
    type V = CharacterView;

    open spec fn deep_view(&self) -> CharacterView {
        self@
    }
}

impl Clone for Character {
    fn clone(&self) -> (r: Self)
        ensures
            r@ == self@,
    {
        Character {
            id: self.id,
            project_id: self.project_id,
            name: self.name.clone(),
            desc: copy_opt_text(&self.desc),
        }
    }
}

/// An event of a project.
#[derive(Debug, PartialEq, Eq)]
pub struct Event {
    pub id: i64,
    pub project_id: i64,
    pub name: String,
    pub desc: Option<String>,
    /// The single date that older records carry.
    pub date: Option<String>,
    pub start_date: Option<String>,
    pub end_date: Option<String>,
}

/// The mathematical value of an [`Event`].
pub struct EventView {
    pub id: i64,
    pub project_id: i64,
    pub name: Seq<char>,
    pub desc: Option<Seq<char>>,
    pub date: Option<Seq<char>>,
    pub start_date: Option<Seq<char>>,
    pub end_date: Option<Seq<char>>,
}

impl View for Event {
    type V = EventView;

    open spec fn view(&self) -> EventView {
        EventView {
            id: self.id,
            project_id: self.project_id,
            name: self.name@,
            desc: opt_text(self.desc),
            date: opt_text(self.date),
            start_date: opt_text(self.start_date),
            end_date: opt_text(self.end_date),
        }
    }
}

impl DeepView for Event {
    type V = EventView;

    open spec fn deep_view(&self) -> EventView {
        self@
    }
}

impl Clone for Event {
    fn clone(&self) -> (r: Self)
        ensures
            r@ == self@,
    {
        Event {
            id: self.id,
            project_id: self.project_id,
            name: self.name.clone(),
            desc: copy_opt_text(&self.desc),
            date: copy_opt_text(&self.date),
            start_date: copy_opt_text(&self.start_date),
            end_date: copy_opt_text(&self.end_date),
        }
    }
}

/// A place of a project.
#[derive(Debug, PartialEq, Eq)]
pub struct Place {
    pub id: i64,
    pub project_id: i64,
    pub name: String,
    pub desc: Option<String>,
}

/// The mathematical value of a [`Place`].
pub struct PlaceView {
    pub id: i64,
    pub project_id: i64,
    pub name: Seq<char>,
    pub desc: Option<Seq<char>>,
}

impl View for Place {
    type V = PlaceView;

    open spec fn view(&self) -> PlaceView {
        PlaceView {
            id: self.id,
            project_id: self.project_id,
            name: self.name@,
            desc: opt_text(self.desc),
        }
    }
}

impl DeepView for Place {
    type V = PlaceView;

    open spec fn deep_view(&self) -> PlaceView {
        self@
    }
}

impl Clone for Place {
    fn clone(&self) -> (r: Self)
        ensures
            r@ == self@,
    {
        Place {
            id: self.id,
            project_id: self.project_id,
            name: self.name.clone(),
            desc: copy_opt_text(&self.desc),
        }
    }
}

/// A snapshot of a document's text.
#[derive(Debug, PartialEq, Eq)]
pub struct Draft {
    pub id: i64,
    pub doc_id: i64,
    pub name: String,
    pub content: String,
    pub created_at: String,
    pub updated_at: String,
}

/// The mathematical value of a [`Draft`].
pub struct DraftView {
    pub id: i64,
    pub doc_id: i64,
    pub name: Seq<char>,
    pub content: Seq<char>,
    pub created_at: Seq<char>,
    pub updated_at: Seq<char>,
}

impl View for Draft {
    type V = DraftView;

    open spec fn view(&self) -> DraftView {
        DraftView {
            id: self.id,
            doc_id: self.doc_id,
            name: self.name@,
            content: self.content@,
            created_at: self.created_at@,
            updated_at: self.updated_at@,
        }
    }
}

impl DeepView for Draft {
    type V = DraftView;

    open spec fn deep_view(&self) -> DraftView {
        self@
    }
}

impl Clone for Draft {
    fn clone(&self) -> (r: Self)
        ensures
            r@ == self@,
    {
        Draft {
            id: self.id,
            doc_id: self.doc_id,
            name: self.name.clone(),
            content: self.content.clone(),
            created_at: self.created_at.clone(),
            updated_at: self.updated_at.clone(),
        }
    }
}

/// What a new draft of a document is made from.
#[derive(Debug, PartialEq, Eq)]
pub struct DraftCreate {
    pub name: String,
    pub content: String,
}

/// The fields of a draft that an update may replace.
#[derive(Debug, PartialEq, Eq)]
pub struct DraftUpdate {
    pub name: Option<String>,
    pub content: Option<String>,
}

/// A snapshot kept for a whole project.
#[derive(Debug, PartialEq, Eq)]
pub struct ProjectDraft {
    pub id: i64,
    pub project_id: i64,
    pub name: String,
    pub content: String,
    pub created_at: String,
    pub updated_at: String,
}

/// The mathematical value of a [`ProjectDraft`].
pub struct ProjectDraftView {
    pub id: i64,
    pub project_id: i64,
    pub name: Seq<char>,
    pub content: Seq<char>,
    pub created_at: Seq<char>,
    pub updated_at: Seq<char>,
}

impl View for ProjectDraft {
    type V = ProjectDraftView;

    open spec fn view(&self) -> ProjectDraftView {
        ProjectDraftView {
            id: self.id,
            project_id: self.project_id,
            name: self.name@,
            content: self.content@,
            created_at: self.created_at@,
            updated_at: self.updated_at@,
        }
    }
}

impl DeepView for ProjectDraft {
    type V = ProjectDraftView;

    open spec fn deep_view(&self) -> ProjectDraftView {
        self@
    }
}

impl Clone for ProjectDraft {
    fn clone(&self) -> (r: Self)
        ensures
            r@ == self@,
    {
        ProjectDraft {
            id: self.id,
            project_id: self.project_id,
            name: self.name.clone(),
            content: self.content.clone(),
            created_at: self.created_at.clone(),
            updated_at: self.updated_at.clone(),
        }
    }
}

/// What a new draft of a project is made from.
#[derive(Debug, PartialEq, Eq)]
pub struct ProjectDraftCreate {
    pub name: String,
    pub content: String,
}

/// The fields of a draft of a project that an update may replace.
#[derive(Debug, PartialEq, Eq)]
pub struct ProjectDraftUpdate {
    pub name: Option<String>,
    pub content: Option<String>,
}

/// A snapshot kept for a folder. The drafts of one folder stand in an
/// order of their own.
#[derive(Debug, PartialEq, Eq)]
pub struct FolderDraft {
    pub id: i64,
    pub doc_group_id: i64,
    pub name: String,
    pub content: String,
    pub created_at: String,
    pub updated_at: String,
    pub sort_order: Option<i64>,
}

/// The mathematical value of a [`FolderDraft`].
pub struct FolderDraftView {
    pub id: i64,
    pub doc_group_id: i64,
    pub name: Seq<char>,
    pub content: Seq<char>,
    pub created_at: Seq<char>,
    pub updated_at: Seq<char>,
    pub sort_order: Option<i64>,
}

impl View for FolderDraft {
    type V = FolderDraftView;

    open spec fn view(&self) -> FolderDraftView {
        FolderDraftView {
            id: self.id,
            doc_group_id: self.doc_group_id,
            name: self.name@,
            content: self.content@,
            created_at: self.created_at@,
            updated_at: self.updated_at@,
            sort_order: self.sort_order,
        }
    }
}

impl DeepView for FolderDraft {
    type V = FolderDraftView;

    open spec fn deep_view(&self) -> FolderDraftView {
        self@
    }
}

impl Clone for FolderDraft {
    fn clone(&self) -> (r: Self)
        ensures
            r@ == self@,
    {
        FolderDraft {
            id: self.id,
            doc_group_id: self.doc_group_id,
            name: self.name.clone(),
            content: self.content.clone(),
            created_at: self.created_at.clone(),
            updated_at: self.updated_at.clone(),
            sort_order: self.sort_order,
        }
    }
}

/// What a new draft of a folder is made from; with `insert_at_index` it
/// is put at that place among the drafts of the folder.
#[derive(Debug, PartialEq, Eq)]
pub struct FolderDraftCreate {
    pub name: String,
    pub content: String,
    /// The place among the drafts of the folder that the new draft is
    /// to take; the last one where none is given.
    pub insert_at_index: Option<usize>,
}

/// The fields of a draft of a folder that an update may replace.
#[derive(Debug, PartialEq, Eq)]
pub struct FolderDraftUpdate {
    pub name: Option<String>,
    pub content: Option<String>,
}

/// The span of dates of one entity; at most one per entity.
#[derive(Debug, PartialEq, Eq)]
pub struct Timeline {
    pub id: i64,
    /// One of "project", "doc", "folder", "event".
    pub entity_type: String,
    pub entity_id: i64,
    pub start_date: Option<String>,
    pub end_date: Option<String>,
}

/// The mathematical value of a [`Timeline`].
pub struct TimelineView {
    pub id: i64,
    pub entity_type: Seq<char>,
    pub entity_id: i64,
    pub start_date: Option<Seq<char>>,
    pub end_date: Option<Seq<char>>,
}

impl View for Timeline {
    type V = TimelineView;

    open spec fn view(&self) -> TimelineView {
        TimelineView {
            id: self.id,
            entity_type: self.entity_type@,
            entity_id: self.entity_id,
            start_date: opt_text(self.start_date),
            end_date: opt_text(self.end_date),
        }
    }
}

impl DeepView for Timeline {
    type V = TimelineView;

    open spec fn deep_view(&self) -> TimelineView {
        self@
    }
}

impl Clone for Timeline {
    fn clone(&self) -> (r: Self)
        ensures
            r@ == self@,
    {
        Timeline {
            id: self.id,
            entity_type: self.entity_type.clone(),
            entity_id: self.entity_id,
            start_date: copy_opt_text(&self.start_date),
            end_date: copy_opt_text(&self.end_date),
        }
    }
}

/// What the timeline of an entity is made from.
#[derive(Debug, PartialEq, Eq)]
pub struct TimelineCreate {
    pub entity_type: String,
    pub entity_id: i64,
    pub start_date: Option<String>,
    pub end_date: Option<String>,
}

/// The fields of a timeline that an update may replace.
#[derive(Debug, PartialEq, Eq)]
pub struct TimelineUpdate {
    pub start_date: Option<String>,
    pub end_date: Option<String>,
}

} // verus!
