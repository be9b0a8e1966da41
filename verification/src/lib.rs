//! A doubly-linked list with constant-time insertion at the tail,
//! constant-time removal through a handle, and constant-time mutable access
//! through that handle.
//!
//! The list does not synchronise access to itself: it is owned by one writer
//! at a time, which Rust's borrowing enforces, and callers that share it
//! among threads wrap it in a lock of their own. Handles are plain values
//! and may be copied and sent freely.

pub mod handle;
pub mod iter;
pub mod laws;
pub mod list;
mod slot;
mod token;

pub use handle::{Entry, HandleError};
pub use iter::Iter;
pub use list::LinkedList;
