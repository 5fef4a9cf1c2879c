//! The core of a version manager for the Go SDK: release identifiers and
//! their ranking, the catalog of known releases, the decoding of the remote
//! listing, the verification of downloads, and the order of the steps of an
//! installation. Every function is verified against its contract; network
//! and file system are left to the caller.

pub mod catalog;
pub mod cli;
pub mod common;
pub mod config;
pub mod data;
pub mod errors;
pub mod facts;
pub mod install;
pub mod name_facts;
pub mod online;
pub mod text;
