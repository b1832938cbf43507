//! What some leaves declare. How their native resources are made and driven
//! is the host's affair; here stand the parameters, and the decisions that
//! depend on nothing else.

use crate::custom::FnWrapper;
use std::path::PathBuf;
use vstd::prelude::*;

verus! {

/// `std::path::PathBuf`, which the engine only carries.
#[verifier::external_type_specification]
#[verifier::external_body]
pub struct ExPathBuf(PathBuf);

/// Watches a file and tells the application when it was modified.
pub struct FileWatcher<F: Send + Sync> {
    pub file_path: PathBuf,
    pub on_change: FnWrapper<F>,
}

impl<F: Send + Sync> FileWatcher<F> {
    /// Declares a watch on `file_path` that calls `on_change` after a
    /// modification.
    pub fn new(file_path: PathBuf, on_change: F) -> (watcher: Self)
        ensures
            watcher.file_path == file_path,
            watcher.on_change == FnWrapper(Box::new(on_change)),
    {
        FileWatcher { file_path, on_change: FnWrapper(Box::new(on_change)) }
    }
}

/// What a file watcher does on an update.
#[derive(Debug, Clone, Copy, PartialEq, Eq, Structural)]
pub struct WatchUpdate {
    /// Whether the running watch is stopped and one on the new path is
    /// started.
    pub restart: bool,
    /// Whether the application is told of a modification.
    pub notify: bool,
}

/// Decides what a file watcher does on an update. A watch whose path
/// changed is restarted, and a modification seen on the old path is
/// forgotten with it; otherwise a modification seen since the last update is
/// reported, once.
pub fn watch_update(path_changed: bool, modified: bool) -> (update: WatchUpdate)
    ensures
        update.restart == path_changed,
        update.notify == (modified && !path_changed),
{
    WatchUpdate { restart: path_changed, notify: modified && !path_changed }
}

/// The scene node of the room the user stands in.
#[derive(Debug, Clone, Copy, PartialEq, Eq, Structural)]
pub struct PlaySpace;

/// A scene node that the user can take out of its place and put elsewhere,
/// while that is enabled.
#[derive(Debug, Clone, Copy, PartialEq, Eq, Structural)]
pub struct Reparentable {
    pub enabled: bool,
}

/// What is done to the grip by which a reparentable node is moved.
#[derive(Debug, Clone, Copy, PartialEq, Eq, Structural)]
pub enum GripChange {
    /// The grip is made.
    Attach,
    /// The grip is dropped.
    Detach,
    /// The grip is left as it is.
    Keep,
}

impl Reparentable {
    /// The same declaration with moving enabled or not.
    pub fn enabled(self, enabled: bool) -> (reparentable: Self)
        ensures
            reparentable.enabled == enabled,
    {
        Reparentable { enabled }
    }

    /// What an update does to the grip, given whether there is one
    /// (`attached`): it is made where moving is enabled and there is none,
    /// dropped where moving is disabled and there is one.
    pub fn grip_change(&self, attached: bool) -> (change: GripChange)
        ensures
            change == (if self.enabled && !attached {
                GripChange::Attach
            } else if !self.enabled && attached {
                GripChange::Detach
            } else {
                GripChange::Keep
            }),
    {
        if self.enabled && !attached {
            GripChange::Attach
        } else if !self.enabled && attached {
            GripChange::Detach
        } else {
            GripChange::Keep
        }
    }
}

impl Default for Reparentable {
    /// Moving is enabled unless the declaration says otherwise.
    fn default() -> (reparentable: Self)
        ensures
            reparentable.enabled,
    {
        Reparentable { enabled: true }
    }
}

} // verus!
