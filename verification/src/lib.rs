//! A verified core for a GitHub-style git review tool: the diff model, the
//! folding of libgit2's diff callbacks into that model, the file tree of a diff,
//! the rows of the diff view, and the selection logic of the commit list.

pub mod collect;
pub mod commits;
pub mod dates;
pub mod gtk_tree;
pub mod gutter;
pub mod highlight;
pub mod ids;
pub mod keyed_tree;
pub mod lower_tree;
pub mod model;
pub mod panel_rows;
pub mod nested_tree;
pub mod parent_tree;
pub mod palette;
pub mod paths;
pub mod qt_model;
pub mod render;
pub mod rows;
pub mod selection;
pub mod settings;
pub mod slint_items;
pub mod sorted_tree;
pub mod text;
pub mod tree;
pub mod web_model;
pub mod widgets_model;
