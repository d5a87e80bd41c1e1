//! A course laid out for a media library: the indexed base directory, the
//! tree it is grouped by, and the destination under which the season-style
//! link farm is created.
use vstd::prelude::*;

verus! {

use crate::tree::FileTree;

/// A course: a base directory tree, the tree used for grouping, and the
/// destination root of the link farm.
pub struct PlexCourse {
    pub base_dir: FileTree,
    pub file_tree: FileTree,
    pub destination: String,
}

impl PlexCourse {
    /// A new course over the given trees and destination.
    pub fn new(base_dir: FileTree, file_tree: FileTree, destination: String) -> (r: PlexCourse)
        ensures
            r.base_dir == base_dir,
            r.file_tree == file_tree,
            r.destination == destination,
    {
        PlexCourse { base_dir, file_tree, destination }
    }
}

} // verus!
