//! Line-number access to growing text files: an offset index over a file's
//! bytes and a byte-weighted cache of line contents.
use vstd::prelude::*;

pub mod cache;
pub mod index;
pub mod index_laws;
pub mod lines;
pub mod lru;
pub mod monitor;
pub mod repository;
pub mod scroll;
pub mod tabs;

pub use cache::{LineCache, Lookup};
pub use index::{Error, IndexConsistency, LineIndexReader};
pub use monitor::{Change, Event, EventKind};
pub use repository::{FileInfo, Repository};
pub use scroll::Scroll;
pub use tabs::FileTabsState;
