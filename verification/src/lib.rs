//! A "safe delete" library: instead of permanently removing filesystem
//! entries, they are moved into a trash directory, their provenance
//! (original path, deletion date) is recorded as extended attributes,
//! and they are permanently reclaimed only after a grace period.
//!
//! The verified core works on an explicit model of the filesystem state
//! this tool touches (`FsSpace`): entries keyed by canonical path, each
//! carrying a kind and its extended attributes. The unverified binary
//! around the library performs the real filesystem calls and defers every
//! decision to the functions in this crate.

pub mod digits;
pub mod commands;
pub mod config;
pub mod error;
pub mod fsmodel;
pub mod laws;
pub mod paths;
pub mod time;
pub mod trash;
pub mod xattr;

pub use error::Error;
