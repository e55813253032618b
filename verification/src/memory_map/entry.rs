//! An earlier form of the entry element, whose fields are reserved, one field, or several.
use crate::memory_map::{Access, Field};
use vstd::prelude::*;

verus! {

/// The fields of an entry: none (reserved), one, or several.
pub enum FieldOption {
    Reserved,
    One(Field),
    More(Vec<Field>),
}

impl Default for FieldOption {
    /// An entry's bits are reserved unless fields are given.
    fn default() -> (r: Self)
        ensures
            r is Reserved,
    {
        FieldOption::Reserved
    }
}

/// A unit of memory described by its fields.
pub struct Entry {
    pub name: String,
    pub address: Option<u64>,
    pub access: Option<Access>,
    pub fields: FieldOption,
}

} // verus!
