//! A single-user task store: an in-memory list of tasks (description,
//! completion state, timestamps) together with a text codec that turns the
//! list into the durable file representation and back.
//!
//! The store itself never touches the file system: a caller loads the file's
//! contents, hands them to the store's `load_tasks`, applies mutations, and
//! writes the string returned by `save` back to disk after every mutation.
//! Cross-process concurrency is unprotected by design (last writer wins):
//! the store is meant for a single interactive user.

pub mod codec;
pub mod duration;
pub mod laws;
pub mod store;
pub mod task;
