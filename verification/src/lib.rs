//! A verified library for indexing directory hierarchies: a canonical
//! in-memory tree model with builders from path lists and from box-drawing
//! tree diagrams, a bidirectional tree-diagram text codec, and a grouping
//! algorithm that plans an ordinal-named symbolic-link farm.
pub mod chars;
pub mod codec;
pub mod group;
pub mod path_list;
pub mod plex;
pub mod tree;

pub use group::GroupPlan;
pub use plex::PlexCourse;
pub use tree::FileTree;
pub use tree::TreeSpec;
