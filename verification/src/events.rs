//! The messages that drive the list and the saving of it.

use vstd::prelude::*;
use crate::slots::TaskEntity;

verus! {

/// What the coordinator reacts to.
pub enum Event {
    /// Insert a task below the given task.
    Insert(TaskEntity),
    /// A saved list has been read: show it.
    Load(String),
    /// A text was edited, so the list has to be saved at some point.
    Modified,
    /// Remove the given task.
    Remove(TaskEntity),
    /// The quiet period is over: save the list now.
    SyncToDisk,
    /// The window has been closed: save, then wind down.
    Closed,
    /// The last save is done and the process may end.
    Quit,
}

/// What the coordinator asks of the background actor.
pub enum BgEvent {
    /// Write the contents to the file at the path, replacing what was there.
    Save(String, String),
    /// Finish the queued work, then stop.
    Quit,
}

} // verus!
