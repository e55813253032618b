//! The composite elements of a memory map: arrays, clusters, entries, and references to
//! definitions or other map files.
use crate::memory_map::{Access, Field, Name};
use vstd::prelude::*;

verus! {

/// The enumerating index of an array: a count, a range of numbers, or a list of labels (an
/// absent label leaves a gap).
pub enum Index {
    Length(u64),
    Range { high: u64, low: u64 },
    List(Vec<Option<String>>),
}

/// A list or series expansion of an element.
pub struct Array {
    pub name: String,
    pub address: Option<u64>,
    pub access: Option<Access>,
    pub elements: Box<Composite>,
    pub index: Index,
    pub increment: Option<u64>,
}

impl Array {
    pub fn name(&self) -> (r: &str)
        ensures
            r@ == self.name@,
    {
        self.name.as_str()
    }
}

/// A grouping of elements, akin to a struct.
pub struct Cluster {
    pub name: String,
    pub address: Option<u64>,
    pub access: Option<Access>,
    pub elements: Vec<Composite>,
}

impl Cluster {
    pub fn name(&self) -> (r: &str)
        ensures
            r@ == self.name@,
    {
        self.name.as_str()
    }
}

impl IntoIterator for Cluster {
    type Item = Composite;
    type IntoIter = std::vec::IntoIter<Composite>;

    /// The cluster's elements, in order.
    fn into_iter(self) -> (r: std::vec::IntoIter<Composite>)
        ensures
            r == vstd::std_specs::vec::spec_into_iter(self.elements),
    {
        self.elements.into_iter()
    }
}

/// The fundamental unit of memory, optionally described by fields.
pub struct Entry {
    pub name: String,
    pub address: Option<u64>,
    pub access: Option<Access>,
    /// Length of the entry in bytes
    pub bytes: u32,
    pub fields: Vec<Field>,
}

impl Entry {
    pub fn name(&self) -> (r: &str)
        ensures
            r@ == self.name@,
    {
        self.name.as_str()
    }
}

impl Name for Array {
    open spec fn name_spec(&self) -> Seq<char> {
        self.name@
    }

    open spec fn kind_name_spec() -> Seq<char> {
        "Array"@
    }

    fn name(&self) -> (r: &str) {
        self.name.as_str()
    }

    fn kind_name() -> (r: &'static str) {
        "Array"
    }
}

impl Name for Cluster {
    open spec fn name_spec(&self) -> Seq<char> {
        self.name@
    }

    open spec fn kind_name_spec() -> Seq<char> {
        "Cluster"@
    }

    fn name(&self) -> (r: &str) {
        self.name.as_str()
    }

    fn kind_name() -> (r: &'static str) {
        "Cluster"
    }
}

impl Name for Entry {
    open spec fn name_spec(&self) -> Seq<char> {
        self.name@
    }

    open spec fn kind_name_spec() -> Seq<char> {
        "Entry"@
    }

    fn name(&self) -> (r: &str) {
        self.name.as_str()
    }

    fn kind_name() -> (r: &'static str) {
        "Entry"
    }
}

/// An element of a memory map.
pub enum Composite {
    Array(Array),
    Cluster(Cluster),
    Entry(Entry),
    /// A reference to a definition of the document.
    Reference { reference: String },
    /// A reference to another map file.
    MapFile { map: String },
}

/// The name an element goes by: its own name, or the reference it holds.
pub open spec fn composite_name(c: Composite) -> Seq<char> {
    match c {
        Composite::Array(a) => a.name@,
        Composite::Cluster(c) => c.name@,
        Composite::Entry(e) => e.name@,
        Composite::Reference { reference } => reference@,
        Composite::MapFile { map } => map@,
    }
}

impl Composite {
    /// The name this element goes by: its own name, or the reference it holds.
    pub fn name(&self) -> (r: &str)
        ensures
            r@ == composite_name(*self),
    {
        match self {
            Composite::Array(array) => array.name.as_str(),
            Composite::Cluster(cluster) => cluster.name.as_str(),
            Composite::Entry(entry) => entry.name.as_str(),
            Composite::Reference { reference } => reference.as_str(),
            Composite::MapFile { map } => map.as_str(),
        }
    }
}

} // verus!
