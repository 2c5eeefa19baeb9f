//! A small desktop notebook: daily to-do lists and a library of notes,
//! kept as Markdown (and any other) files in a data folder.
#![allow(unused_imports)]

pub mod arrange;
pub mod carry;
pub mod dates;
pub mod guarantees;
pub mod model;
pub mod names;
pub mod notes;
pub mod order;
pub mod readback;
pub mod records;
pub mod sizes;
pub mod store;
pub mod text;
pub mod todos;

pub use model::{Change, Content, DataFolder, DayFile, Entry, ExportTarget, Folder, ImportSource};
pub use records::{NoteDoc, NoteSummary, StoreError, TodoItem};
pub use store::Store;
