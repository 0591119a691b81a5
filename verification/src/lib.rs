//! Core engine of a package manager for the JavaScript ecosystem: version
//! policy, registry metadata model, dependency resolution, install planning,
//! a content-addressed store index, and the project lock file.
//!
//! Network and filesystem work lives outside this crate; the functions here
//! take plain values (bytes, names, snapshots of on-disk state) and return
//! decisions whose contracts are machine-checked.

pub mod archive;
pub mod cli_style;
pub mod content_store;
pub mod errors;
pub mod hashing;
pub mod installer;
pub mod lockfile;
pub mod manifest;
pub mod peers;
pub mod registry;
pub mod resolver;
pub mod text;
pub mod trees;
pub mod version;
