//! Registry of named Java SDK installations, and the logic that switches the
//! active SDK by rewriting the system PATH list.
//!
//! Name comparisons in the registry are case-sensitive; PATH directory
//! entries are compared case-insensitively, matching the platform's
//! treatment of paths.

pub mod codec;
pub mod config;
pub mod switch;
pub mod text;
