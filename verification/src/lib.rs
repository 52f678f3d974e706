//! A tree of elements with one movable current position, cursors that
//! explore it side by side, and depth-first walks over it, with contracts
//! over the tree as a mathematical value.

pub mod cursor;
pub mod iter;
pub mod laws;
pub mod node;
pub mod traverse;
pub mod tree;

pub use cursor::{Cursor, CursorMut, UnsafeCursor};
pub use iter::{ChildIterator, ChildIteratorMut, LazyTreeIterator, LazyTreeIteratorMut};
pub use tree::Tree;
