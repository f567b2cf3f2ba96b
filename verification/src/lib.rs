//! Short display nicknames for absolute filesystem paths.
//!
//! Given a user's home directory and a set of configured project
//! mappings, the resolver rewrites an absolute path into the shortest
//! label: `~` for home, collapsed project aliases, and a conventional
//! `~/code` root collapsed to its contents.

pub mod context;
pub mod laws;
pub mod path_text;
pub mod resolve;
