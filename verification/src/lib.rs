//! Verified core of a command line manager for Everest mods: mod identifier
//! resolution, dependency closure, load / unload / remove planning, tree
//! rendering, update selection and archive hash checking.

pub mod text;
pub mod format;
pub mod models;
pub mod table;
pub mod state;
pub mod graph;
pub mod order;
pub mod mod_id;
pub mod unload;
pub mod remove;
pub mod load;
pub mod tree;
pub mod pull;
pub mod hashing;
pub mod config;
pub mod search;
