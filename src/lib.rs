//! Bundles a Java source file with every sibling source it depends on into
//! one unit: a line classifier, a per-file extraction, a table of units and a
//! dependency resolver.

pub mod bytes;
pub mod lang;
pub mod map;
pub mod resolve;
