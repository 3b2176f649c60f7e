//! Verified core of a small-snippet build-and-run tool.
//!
//! The library turns arbitrary Rust fragments into complete programs,
//! classifies raw text as well formed or not, keeps a store of package build
//! metadata with version-aware resolution, and synthesizes compiler command
//! lines.  All I/O — reading files, spawning the compiler — lives outside
//! this crate; the library works on plain values.

use vstd::prelude::*;

pub mod buildlog;
pub mod cache;
pub mod classify;
pub mod compile;
pub mod crate_utils;
pub mod lines;
pub mod manifest;
pub mod meta;
pub mod snippet;
pub mod strutil;
pub mod text;
pub mod version;

verus! {

/// A value carried unchanged to the reporting edge: the wrapper failures
/// travel in on their way to the user.
pub struct PrettyError<T>(pub T);

impl<T> core::convert::From<T> for PrettyError<T> {
    fn from(v: T) -> (r: Self) {
        PrettyError(v)
    }
}

impl<T> vstd::std_specs::convert::FromSpecImpl<T> for PrettyError<T> {
    open spec fn obeys_from_spec() -> bool {
        true
    }

    open spec fn from_spec(v: T) -> Self {
        PrettyError(v)
    }
}

} // verus!
