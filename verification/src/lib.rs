//! Removal of build-artifact directories: the library decides, for each
//! directory met during a walk of a filesystem tree, whether it is a `target`
//! directory that may be deleted (its parent must also hold an entry named
//! `src`), and models the effect of a whole run on a tree.

pub mod decision;
pub mod laws;
pub mod tree;

pub use decision::Directive;
pub use decision::decide;
pub use decision::is_target_name;
pub use tree::Node;
pub use tree::clean_node;
pub use tree::has_src_entry;
