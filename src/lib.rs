//! A doubly-linked list with insertion at both ends and forward traversal.
//! Nodes are kept in an arena and linked by index.

pub mod list;

pub use list::LinkedList;
