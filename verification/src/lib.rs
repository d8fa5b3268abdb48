//! A fixed-capacity sequence container.
//!
//! [`vector::Vec`] owns a bounded block of element slots whose
//! capacity is fixed at the type level; it never grows past that bound and
//! every operation that would need to is rejected with a
//! [`error::NoallocError`].

pub mod error;
pub mod vector;

pub use error::NoallocError;
pub use vector::Vec;
