//! Renaming mappings between two namespaces of JVM-style identifiers.
//!
//! The descriptor model gives canonical string forms to primitive, reference
//! and array types and to method signatures.  A mutable builder collects
//! class, field and method renamings; freezing it yields an immutable
//! snapshot that can be inverted, chained with another mapping, or
//! transformed, while every lookup propagates class renames into nested
//! types.  Three line-oriented text dialects read and write such mappings.

pub mod descriptor;
pub mod format;
pub mod laws;
pub mod mappings;
pub mod model;
pub mod tables;
pub mod types;
pub mod utils;
