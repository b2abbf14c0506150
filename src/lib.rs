//! A type-erased growable array: a flat byte buffer holding elements of one
//! fixed shape (size and alignment), chosen when the container is created.
pub mod layout;
pub mod laws;
pub mod untyped;

pub use layout::Layout;
pub use untyped::UntypedVec;
