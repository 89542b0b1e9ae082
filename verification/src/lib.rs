//! Linked sequential containers built on an index-addressed slot arena.
//!
//! [`dll::DlList`] is a doubly linked list with a cursor, [`fifo::Fifo`] a
//! first-in, first-out queue. Both keep their nodes in an [`arena::Arena`]
//! and refer to them by slot index. [`model::ListState`] is the view of a
//! list with a cursor, and [`traces`] states what holds of it over whole
//! sequences of calls.

pub mod arena;
pub mod dll;
pub mod fifo;
pub mod model;
pub mod traces;
