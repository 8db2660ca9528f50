//! The store of context servers of a project: which servers are known, what state each of
//! them is in, and how the store follows the project's settings.
//!
//! The store decides and its host acts. Every operation leaves the effects that the host is
//! to perform in a [`state::Context`]: events to announce, servers to start and to stop,
//! tasks to drop. What the host learns meanwhile it hands back to the store.

pub mod bookkeeping;
pub mod command_laws;
pub mod context_server;
pub mod history;
pub mod laws;
pub mod maintain;
pub mod placeholder;
pub mod project;
pub mod state;
pub mod store;
pub mod store_laws;
pub mod str_map;
pub mod text;
pub mod update_laws;
