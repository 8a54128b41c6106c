//! Small verified building blocks that are modelled with enums: a three-way
//! integer comparison, an HTTP status lookup, English phrases for rough
//! times, a character classifier, and an unbalanced ordered binary tree.

pub mod binary_tree;
pub mod characters;
pub mod http_status;
pub mod integers;
pub mod rough_time;
pub mod tree_laws;

pub use binary_tree::{BinaryTree, TreeNode};
pub use characters::describe_char;
pub use http_status::{http_status_from_u32, HttpStatus};
pub use integers::compare;
pub use rough_time::{rough_time_to_english, RoughTime, TimeUnit};
