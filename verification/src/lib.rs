//! Package acquisition, verification and version-diff engine.
//!
//! The crate turns the compressed source archive of a published package
//! version into an in-memory file store, computes line diffs between two such
//! stores, schedules the context windows shown around every change, and folds
//! the per-file change counts into a directory-shaped summary tree.  Every
//! function carries a contract that Verus proves; what rests on the
//! documented behaviour of other crates is marked where it is called.
//!
//! * [`archive`]: reading an archive into a file store, behind the checksum
//!   gate and the check that every path lies below the archive's top
//!   directory and has no `..`.
//! * [`file_diff`], [`hunk`], [`display`]: the line diff of one file, its
//!   context windows, and the groups in which its lines are shown.
//! * [`version_diff`], [`summary`], [`tree`]: the diff of two file stores,
//!   the change counts per path, and the change tree.
//! * [`cache`]: the caches of registry answers and file stores.
//! * [`registry`], [`version`], [`repository`], [`web`]: what the registry
//!   tells about a package, which version a caller means, and where things
//!   are fetched from.
//! * [`browse`], [`filter`], [`route`], [`anchor`], [`syntax`]: the rules by
//!   which the diff is navigated and shown.
//! * [`text_map`], [`order`], [`path`], [`buffer`], [`changes`],
//!   [`digest`]: the sorted map, the order of its keys, paths, byte buffers,
//!   change counts and the digest.

pub mod anchor;
pub mod archive;
pub mod browse;
pub mod buffer;
pub mod cache;
pub mod changes;
pub mod digest;
pub mod display;
pub mod file_diff;
pub mod filter;
pub mod hunk;
pub mod order;
pub mod path;
pub mod registry;
pub mod repository;
pub mod route;
pub mod summary;
pub mod syntax;
pub mod text_map;
pub mod tree;
pub mod version;
pub mod version_diff;
pub mod web;
