//! A docking-workspace layout engine: a binary tree of splits, kept in an arena and
//! addressed by handle, that partitions a root rectangle into resizable regions holding
//! named panels, with geometry, hit tests, structural edits and a document round trip.

use vstd::prelude::*;

pub mod container;
pub mod decimal;
pub mod document;
pub mod rect;
pub mod split;
pub mod workspace;

pub use container::{Container, Dock, DockHandle};
pub use document::{Attribute, DocEvent};
pub use rect::{Rect, RATIO_ONE};
pub use split::{Direction, Split, SplitHandle, RATIO_HALF, RATIO_MAX, RATIO_MIN};
pub use workspace::{Error, Workspace, SIZER_BORDER};

verus! {

} // verus!
