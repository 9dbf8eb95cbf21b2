//! A directory-tree visualizer: the rules by which a directory hierarchy is
//! walked, filtered and drawn as an indented tree.

pub mod color;
pub mod config;
pub mod entry;
pub mod laws;
pub mod order;
pub mod perms;
pub mod render;
pub mod size;
pub mod text;
pub mod tree;
pub mod walk;

pub use crate::color::ANSIColor;
pub use crate::config::Config;
pub use crate::config::Opt;
pub use crate::entry::Entry;
pub use crate::perms::is_executable;
pub use crate::perms::stringify_permissions;
pub use crate::size::convert;
pub use crate::walk::Action;
pub use crate::walk::Event;
pub use crate::walk::Walker;
