//! A verified store for writing projects.
//!
//! A project holds folders and documents. Folders form a forest; the
//! children of one folder, and the documents of one folder, are kept in
//! dense order: their sort orders are always 0, 1, 2, .. without gap or
//! double, whatever is created, removed, moved or reordered. A project
//! can be exported to a tree of directories and text files with a
//! manifest, and a manifest can be imported again; the project then comes
//! back as it was, but for its identifiers.
//!
//! The store lives in memory ([`store::Store`]). Every operation states in
//! its contract what it changes, and Verus proves that it does: the
//! operations on folders in [`doc_groups`], on documents in [`docs`], the
//! export in [`export`] and [`manifest`], the import in [`import`],
//! [`import_plan`] and [`legacy`]. What holds of all of them together
//! stands in [`laws`], [`histories`] and [`round_trip`].

pub mod cascade;
pub mod characters;
pub mod clock;
pub mod doc_groups;
pub mod docs;
pub mod drafts;
pub mod events;
pub mod export;
pub mod folder_drafts;
pub mod histories;
pub mod import;
pub mod import_plan;
pub mod laws;
pub mod legacy;
pub mod links;
pub mod manifest;
pub mod models;
pub mod order;
pub mod places;
pub mod project_drafts;
pub mod projects;
pub mod round_trip;
pub mod sorting;
pub mod store;
pub mod tables;
pub mod text;
pub mod timelines;
