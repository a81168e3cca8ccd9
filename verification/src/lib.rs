//! Discovery of version-controlled project directories for session launching.
//!
//! The crate has two verified cores: a path-set normalizer, which expands a
//! home-directory shorthand, lexically cleans each configured root, and keeps
//! only the maximal (outermost) roots; and a repository-scan state machine,
//! which decides, from directory listings handed in by the caller, which
//! directories are repositories and which still need to be listed. Callers do
//! the actual directory I/O and feed the results back in as plain values.

pub mod order;
pub mod paths;
pub mod clean;
pub mod normalize;
pub mod scan;
pub mod session;
