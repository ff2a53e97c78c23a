//! An identity-anchored annotation store: notes and tags kept against
//! filesystem entries by inode number, with a best-known path that follows
//! the entry as it moves.
//!
//! `annotations` holds the three relations (records, tag vocabulary, edges)
//! in memory with their mathematical model; `store` writes every change
//! through to SQLite and reads the tables back on opening; `listing` turns
//! the entries of a directory into the ordered, filtered list that is shown;
//! `text` splits and trims submitted tags and tells tag queries from paths.

mod annotations;
mod file_ref;
pub mod laws;
mod listing;
mod load;
mod open;
mod store;
mod text;

pub use annotations::{Annotations, AnnotationsView, FileEntry, FileRecord, Relation};
pub use file_ref::FileRef;
pub use listing::{list_entries, path_lt, sort_by_path, DirItem, Listing};
pub use load::decode_tables;
pub use open::{FileElementInput, FileElementOutput, OpenType};
pub use store::{from_stored, to_stored, NotesDB, SqlParam, SqlValue, StoreError};
pub use text::{split_commas, split_tags, trim, Query};
