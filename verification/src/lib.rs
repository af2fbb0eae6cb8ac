//! Workspace logic of the in-browser deck editor: paths, tabs, copy plans,
//! preview helpers and the rules of the sample-game installer.
use vstd::prelude::*;

pub mod text;
pub mod paths;
pub mod vfs;
pub mod iframe;
pub mod pathset;
pub mod order;
pub mod copy_plan;
pub mod split;
pub mod highlight;
pub mod menus;
pub mod icons;
pub mod preview;
pub mod help;
pub mod github;
pub mod template;
pub mod workspace;
pub mod explorer;
pub mod debounce;

verus! {
} // verus!
