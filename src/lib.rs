//! Filesystem tree assembly, sizing, ordering, pruning and rendering.
//!
//! Entries of one traversal arrive in any order; an [`Aggregator`] collects them under their
//! parent paths, [`Tree::new`] assembles the tree with summed directory sizes and sorted
//! children, [`Node::prune_directories`] drops empty directories, and [`Tree::render`] draws it.
pub mod aggregate;
pub mod branches;
pub mod cli;
pub mod flat;
pub mod config;
pub mod icons;
pub mod laws;
pub mod node;
pub mod order;
pub mod prune;
pub mod render;
pub mod size;
pub mod tree;

pub use aggregate::{aggregate, Aggregator, TreeError};
pub use branches::{Branch, Branches};
pub use cli::{Clargs, DiskUsage, Order};
pub use config::{parse, parse_config};
pub use icons::{get_default_icon, icon_from_file_type, select_icon};
pub use node::{entry_size, FileKind, Inode, Node, Style};
pub use order::{node_precedes, sort_nodes};
pub use render::{
    get_link_theme, get_tree_theme, init_plain, node_line, Kind, SizeLocation, Theme, Themes, DRT,
    SEP, UPRT, VT, VTRT,
};
pub use size::format_size;
pub use tree::Tree;
