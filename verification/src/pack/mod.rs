//! Putting a package together.

pub mod ar;
pub mod deb;
pub mod metadata;
