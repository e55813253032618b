//! An earlier form of the array element, whose elements are listed and whose index labels map
//! to numbers.
use crate::memory_map::{Access, Composite};
use std::collections::BTreeMap;
use vstd::prelude::*;

verus! {

/// A list or series expansion of its elements.
pub struct Array {
    pub name: String,
    pub address: Option<u64>,
    pub access: Option<Access>,
    pub elements: Vec<Composite>,
    pub increment: Option<u64>,
    pub index_enums: Option<BTreeMap<String, u64>>,
}

} // verus!
