//! Manage named Git identity profiles (user name + email) and apply one of
//! them to the global or repository-local configuration of the external
//! version-control tool.
//!
//! The crate holds the verified core: the in-memory configuration state with
//! its profile map and the two cached identities, the profile-file codec, and
//! the parsing and planning around the external tool's configuration
//! commands. Process launching, file reading and writing, and terminal output
//! live outside this crate.

pub mod cli;
pub mod codec;
pub mod config;
pub mod git;
pub mod profiles;
pub mod utils;
