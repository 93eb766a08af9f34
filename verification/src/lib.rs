//! Materializes local `KEY=value` env files from entries held in a remote
//! secret store, preserving unrelated local content byte for byte.
//!
//! The crate holds the line classifier, the merge engine, the secret-name
//! resolver with conflict detection, the config validator, and the fixture
//! secret source. File and network I/O live outside the library.

use vstd::prelude::*;

pub mod chars;
pub mod config;
pub mod envfile;
pub mod provider;
pub mod resolve;

verus! {

} // verus!
