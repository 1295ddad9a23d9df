//! Resolution of MIME types to the installed application that handles them.
//!
//! The crate models a user's override file (default applications and added
//! associations), a snapshot of the installed applications, and the ranked
//! resolution algorithm that turns a MIME type into a single handler, an
//! interactive choice, or a not-found outcome.

use vstd::prelude::*;

pub mod ask;
pub mod config;
pub mod desktop_entry;
pub mod handler;
pub mod ini;
pub mod mime_map;
pub mod mime_type;
pub mod select;
pub mod system;
pub mod user;
pub mod text;

verus! {

/// The failure modes of resolution and selection.
#[derive(Debug)]
pub enum Error {
    /// No handler is resolvable through any tier, or a referenced
    /// identifier has no record.
    NotFound(String),
    /// The user dismissed an interactive prompt with empty input.
    Cancelled,
    /// The given text is not a valid `type/subtype` MIME string.
    BadMime(String),
}

} // verus!
