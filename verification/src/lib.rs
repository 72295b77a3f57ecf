//! A small todo-list library: an in-memory ordered task list with
//! add/complete/remove operations, a canonical textual persistence
//! format with a verified encoder and parser, and rendering of the
//! list for display.

pub mod codec;
pub mod command;
pub mod render;
pub mod task;

pub use task::TodoItem;
pub use task::TodoList;
