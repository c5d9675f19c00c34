//! Orders the copies of duplicated files so that the copy worth keeping comes
//! first, and picks the copies that may go.
pub mod ordering;
pub mod path;
pub mod sorting;
pub mod dupes;
pub mod sizes;

pub use dupes::Fileinfo;
