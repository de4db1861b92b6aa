//! Directory-keyed notes: a store of timestamped notes per path, with
//! lookup, append and bounded removal from the most recent end.

pub mod config;
pub mod datetime;
pub mod laws;

pub use config::{addition, entries_wf, removal, Config, MessageData, RepoData};
pub use datetime::current_datetime;
