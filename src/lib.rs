//! An ordered collection whose elements are addressed both by position and by
//! a key that each element derives from itself.
pub mod codec;
pub mod entries;
pub mod iter;
pub mod laws;
pub mod lookup;
pub mod sort;
pub mod vec;

pub use lookup::Lookup;
pub use vec::LookupVec;
