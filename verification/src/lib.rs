//! Building blocks of a builder of packages and package repositories: the
//! `ar` container codec, the control-file text codec, the package index
//! with its conflict and retention rules, the plan by which a repository is
//! published, and the keeping of a project's version number.
//!
//! All text is handled as bytes, and files as the bytes they hold: nothing
//! here reads or writes a file.  Every function states what it computes in
//! its contract, over the views of the values involved.

pub mod action;
pub mod bulk_version;
pub mod config;
pub mod deb_ext;
pub mod hash_file;
pub mod order;
pub mod pack;
pub mod re;
pub mod repo;
pub mod text;
pub mod ver;
pub mod version;
