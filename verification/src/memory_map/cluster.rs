//! An earlier form of the cluster element.
use crate::memory_map::{Access, Composite};
use vstd::prelude::*;

verus! {

/// A grouping of elements, akin to a struct.
pub struct Cluster {
    pub name: String,
    pub address: Option<u64>,
    pub access: Option<Access>,
    pub elements: Vec<Composite>,
}

} // verus!
