//! A toolkit for building small command-line file-manipulation utilities.
//!
//! The crate has three parts: an error model (a closed taxonomy of failure
//! kinds, each rendering to one diagnostic line), a command registry (an
//! ordered list of named actions dispatched by a single token), and a
//! filesystem toolkit whose semantics are given by an in-memory model of a
//! file tree, against which every operation's contract is stated and proved.

pub mod errors;
pub mod fs_model;
pub mod paths;
pub mod registry;

pub use errors::TxtError;
pub use fs_model::FsState;
pub use registry::TxtLib;
