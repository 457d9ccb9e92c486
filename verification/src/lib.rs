//! Outline trees over flat block rows.
//!
//! A page's blocks are stored flat: every block names its parent and its next
//! sibling, never a child list or a position. This crate rebuilds the ordered
//! tree from such rows, lets it be edited in memory, and turns it back into
//! the flat links.

pub mod assemble;
pub mod block;
pub mod builder;
pub mod chains;
pub mod edit;
pub mod edit_lemmas;
pub mod errors;
pub mod laws;
pub mod links;
pub mod node;
pub mod page;
pub mod records;
pub mod round_trip;
pub mod serializer;
pub mod traversal;
pub mod tree;

pub use block::Block;
pub use builder::build;
pub use errors::{MutationError, StructuralIntegrityError};
pub use links::is_well_formed;
pub use node::{Outline, OutlineNode};
pub use page::Page;
pub use records::{is_all_stored, BlockLink, BlockRow, PageRow, ROOT_ID};
pub use tree::{OutlineTree, RemovalPolicy};
