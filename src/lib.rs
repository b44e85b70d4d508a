//! Ordering and extraction of instrumentation module identifiers.
pub mod text;
pub mod compare;
pub mod extract;
