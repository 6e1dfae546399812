//! Breadth-first file collection driven by glob patterns.
//!
//! The crate decides which files below a root directory are selected by a
//! set of selecting and excluding globs. It never touches the file system
//! itself: the caller reads directories and hands each listing to a
//! [`walk::Walker`], which keeps the queue of pending directories, prunes
//! excluded subtrees before they are read, drops hidden files and gathers
//! the matches in discovery order.

pub mod glob;
pub mod path;
pub mod walk;
pub mod reach;
pub mod laws;
pub mod select;
