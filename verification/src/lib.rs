//! A tree view for terminal user interfaces: which nodes of a tree are visible, which one
//! is selected, which part of the list fits the viewport, and how text is packed into lines.

pub mod flatten;
pub mod identifier;
pub mod item;
pub mod reflow;
pub mod state;
pub mod text;
pub mod tree;
pub mod truncate;
pub mod unicode;
pub mod visibility;
pub mod window;
pub mod word_wrap;
pub mod wrap_order;

pub use crate::flatten::{flatten, Flattened};
pub use crate::identifier::{
    get_without_leaf as get_identifier_without_leaf, TreeIdentifier, TreeIdentifierVec,
};
pub use crate::item::{TreeItem, Wrap};
pub use crate::state::TreeState;
pub use crate::tree::Tree;
