//! File change events, as the repository consumes them, and which changes
//! reported by a file system watcher become events.
use vstd::prelude::*;

verus! {

#[derive(Debug, Clone, Copy, PartialEq, Eq, Structural)]
pub enum EventKind {
    Created,
    Modified,
    Removed,
}

/// A change to the file at `path`.
#[derive(Debug, Clone)]
pub struct Event {
    pub path: String,
    pub kind: EventKind,
}

/// A change as a file system watcher reports it.
#[derive(Debug, Clone, Copy, PartialEq, Eq, Structural)]
pub enum Change {
    /// The file was only read or opened.
    Access,
    /// A regular file was created.
    CreateFile,
    /// Something other than a regular file was created.
    CreateOther,
    /// Content or metadata changed.
    Modify,
    /// A regular file was removed.
    RemoveFile,
    /// Something other than a regular file was removed.
    RemoveOther,
    /// Any other report.
    Other,
}

pub open spec fn kind_of(change: Change) -> Option<EventKind> {
    match change {
        Change::CreateFile => Some(EventKind::Created),
        Change::Modify => Some(EventKind::Modified),
        Change::RemoveFile => Some(EventKind::Removed),
        _ => None,
    }
}

/// The event that a change gives rise to: accesses and changes to anything
/// but regular files are dropped.
pub fn event_kind(change: Change) -> (r: Option<EventKind>)
    ensures
        r == kind_of(change),
{
    match change {
        Change::CreateFile => Some(EventKind::Created),
        Change::Modify => Some(EventKind::Modified),
        Change::RemoveFile => Some(EventKind::Removed),
        _ => None,
    }
}

/// The event for a change to the file at `path`, if there is one.
pub fn event_handler(path: String, change: Change) -> (r: Option<Event>)
    ensures
        match kind_of(change) {
            Some(k) => r is Some && r->0.kind == k && r->0.path@ == path@,
            None => r is None,
        },
{
    match event_kind(change) {
        Some(kind) => Some(Event { path, kind }),
        None => None,
    }
}

} // verus!
