//! The memory map document model: access rights, composite elements, fields, and the
//! resolution of a document into named tables.
pub mod array;
pub mod cluster;
pub mod composite;
pub mod entry;
pub mod field;
pub mod memory_map;
pub mod protocol;
pub mod record;
pub mod resolved;
pub mod serde_helpers;
pub mod tables;
pub mod text;

pub use composite::{Array, Cluster, Composite, Entry};
pub use field::Field;
pub use protocol::Protocol;
pub use serde_helpers::{EnumMap, HexStrOrUnsigned, IntegerOrString};

use vstd::hash_map::StringHashMap;
use vstd::prelude::*;
use vstd::string::*;

verus! {

/// Who may access a memory element.
#[derive(Clone, Copy, Debug, PartialEq, Eq, Structural)]
pub enum Access {
    /// Read-only access is permitted
    Read,
    /// Write-only access is permitted
    Write,
    /// Both read and write access is permitted
    ReadWrite,
}

/// The text that shows an access right.
pub open spec fn access_text(a: Access) -> Seq<char> {
    match a {
        Access::Read => "Read-only"@,
        Access::Write => "Write-only"@,
        Access::ReadWrite => "Read/Write"@,
    }
}

impl Default for Access {
    /// Access is read-only unless stated otherwise.
    fn default() -> (r: Self)
        ensures
            r == Access::Read,
    {
        Access::Read
    }
}

impl Access {
    /// The text that shows this access right.
    pub fn display_text(&self) -> (r: &'static str)
        ensures
            r@ == access_text(*self),
    {
        match self {
            Access::Read => "Read-only",
            Access::Write => "Write-only",
            Access::ReadWrite => "Read/Write",
        }
    }
}

/// Elements of a memory map that carry a name, and the name of their kind.
pub trait Name {
    /// The element's name.
    spec fn name_spec(&self) -> Seq<char>;

    /// The name of the element's kind.
    spec fn kind_name_spec() -> Seq<char>;

    fn name(&self) -> (r: &str)
        ensures
            r@ == self.name_spec(),
    ;

    fn kind_name() -> (r: &'static str)
        ensures
            r@ == Self::kind_name_spec(),
    ;
}

/// A memory map document: the protocol it is addressed through, its elements, and the named
/// definitions that references point to.
pub struct MemoryMap {
    pub protocol: Protocol,
    pub map: Vec<Composite>,
    pub def: Vec<Composite>,
}

/// The names that a sequence of elements go by, in order.
pub open spec fn composite_names(cs: Seq<Composite>) -> Seq<Seq<char>> {
    cs.map_values(|c: Composite| composite::composite_name(c))
}

/// The first name that repeats an earlier one, scanning in order.
pub open spec fn first_repeat(names: Seq<Seq<char>>) -> Option<Seq<char>>
    decreases names.len(),
{
    if names.len() == 0 {
        None
    } else {
        match first_repeat(names.drop_last()) {
            Some(n) => Some(n),
            None => if names.drop_last().contains(names.last()) {
                Some(names.last())
            } else {
                None
            },
        }
    }
}

/// Two definitions share a name.
pub struct DuplicateDefinition {
    /// The name that was defined a second time.
    pub name: String,
}

impl DuplicateDefinition {
    /// The error's message.
    pub fn message(&self) -> (r: String)
        ensures
            r@ == "Definition \""@ + self.name@ + "\" already exists."@,
    {
        let mut out = String::new();
        out.append("Definition \"");
        out.append(self.name.as_str());
        out.append("\" already exists.");
        out
    }
}

impl MemoryMap {
    /// The definitions by name. Fails on the first definition whose name was already defined.
    pub fn get_def_map(&self) -> (r: Result<StringHashMap<&Composite>, DuplicateDefinition>)
        ensures
            match first_repeat(composite_names(self.def@)) {
                Some(n) => r matches Err(e) && e.name@ == n,
                None => r matches Ok(m) && (forall|k: Seq<char>| #[trigger] m@.contains_key(k)
                    <==> composite_names(self.def@).contains(k)) && (forall|i: int|
                    0 <= i < self.def@.len() ==> m@[#[trigger] composite_names(self.def@)[i]]
                        == &self.def@[i]),
            },
    {
        let ghost names = composite_names(self.def@);
        let mut def_map: StringHashMap<&Composite> = StringHashMap::with_capacity(self.def.len());
        let mut i: usize = 0;
        while i < self.def.len()
            invariant
                i <= self.def@.len(),
                names == composite_names(self.def@),
                first_repeat(names.take(i as int)) is None,
                forall|k: Seq<char>| #[trigger] def_map@.contains_key(k) <==> names.take(i as int).contains(k),
                forall|j: int| 0 <= j < i ==> def_map@[#[trigger] names[j]] == &self.def@[j],
            decreases self.def@.len() - i,
        {
            let def = &self.def[i];
            let name = def.name();
            proof {
                let t = names.take(i + 1);
                assert(t.drop_last() =~= names.take(i as int));
                assert(t.last() == names[i as int]);
                assert(names[i as int] == name@);
            }
            if def_map.contains_key(name) {
                proof {
                    let t = names.take(i + 1);
                    assert(first_repeat(t) == Some(name@));
                    lemma_first_repeat_prefix(names, i + 1);
                }
                return Err(DuplicateDefinition { name: String::from_str(name) });
            }
            def_map.insert(String::from_str(name), def);
            proof {
                let t = names.take(i + 1);
                assert(first_repeat(t) is None);
                assert forall|k: Seq<char>| #[trigger] def_map@.contains_key(k) <==> t.contains(k) by {
                    if t.contains(k) && k != name@ {
                        let j = choose|j: int| 0 <= j < t.len() && t[j] == k;
                        assert(names.take(i as int)[j] == k);
                    }
                    if names.take(i as int).contains(k) {
                        let j = choose|j: int| 0 <= j < i && names.take(i as int)[j] == k;
                        assert(t[j] == k);
                    }
                }
                assert forall|j: int| 0 <= j < i + 1 implies def_map@[#[trigger] names[j]]
                    == &self.def@[j] by {
                    if j < i {
                        assert(names.take(i as int).contains(names[j])) by {
                            assert(names.take(i as int)[j] == names[j]);
                        }
                    }
                }
            }
            i = i + 1;
        }
        proof {
            assert(names.take(self.def@.len() as int) =~= names);
        }
        Ok(def_map)
    }
}

/// Once a prefix of names has a repeat, every longer prefix has the same first repeat.
pub proof fn lemma_first_repeat_prefix(names: Seq<Seq<char>>, n: int)
    requires
        0 <= n <= names.len(),
        first_repeat(names.take(n)) is Some,
    ensures
        first_repeat(names) == first_repeat(names.take(n)),
    decreases names.len() - n,
{
    if n < names.len() {
        let t = names.take(n + 1);
        assert(t.drop_last() =~= names.take(n));
        lemma_first_repeat_prefix(names, n + 1);
    } else {
        assert(names.take(n) =~= names);
    }
}

} // verus!
