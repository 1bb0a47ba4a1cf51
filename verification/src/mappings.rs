//! The mapping abstraction: a mutable builder, a frozen snapshot, and
//! the composition algebra over them.

pub mod frozen;
pub mod simple;
pub mod transformer;

pub use frozen::FrozenMappings;
pub use simple::SimpleMappings;
