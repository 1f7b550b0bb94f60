//! The version of this program that a configuration asks for.

use vstd::prelude::*;
use crate::order::Order;
use crate::version::{version_rank, Version};

verus! {

/// The version of this program, against which configurations are held.
#[derive(Debug)]
pub struct MinimumVersion(pub Version);

impl MinimumVersion {
    /// Whether this program is new enough for a configuration that asks
    /// for the given version at least: the version asked for does not rank
    /// above the program's.
    pub fn admits(&self, wanted: &Version) -> (r: bool)
        ensures
            r == (version_rank(wanted@, self.0@) != Order::Greater),
    {
        match wanted.compare(&self.0) {
            Order::Greater => false,
            _ => true,
        }
    }
}

} // verus!
