//! An earlier form of the memory map document, whose resolution and rendering are not
//! implemented.
use crate::memory_map::resolved::ResolveError;
use crate::memory_map::{Composite, Protocol};
use vstd::prelude::*;

verus! {

/// A memory map document: protocol, elements and definitions.
pub struct MemoryMap {
    pub protocol: Protocol,
    pub map: Vec<Composite>,
    pub def: Vec<Composite>,
}

impl MemoryMap {
    /// Resolution is not implemented; it succeeds without change.
    pub fn resolve(&mut self) -> (r: Result<(), ResolveError>)
        ensures
            r is Ok,
            *final(self) == *old(self),
    {
        Ok(())
    }

    /// Rendering is not implemented; it gives the empty string.
    pub fn render(&self) -> (r: String)
        ensures
            r@ == Seq::<char>::empty(),
    {
        String::new()
    }

    /// Rendering is not implemented; it writes nothing.
    pub fn render_to_writer<W, E>(&self, writer: W) -> (r: Result<(), E>)
        where
            W: std::io::Write,
            E: std::error::Error,
        ensures
            r is Ok,
    {
        Ok(())
    }
}

} // verus!
