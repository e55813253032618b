//! The record form of the memory map model: arrays of serial elements with enumerated names,
//! clusters, entries and references, and the resolver interface over them.
use crate::memory_map::{Access, Field, Name, Protocol};
use vstd::hash_map::StringHashMap;
use vstd::prelude::*;

verus! {

/// The context an element is resolved in: the table it goes into, the running address, and
/// the access it inherits.
pub struct Parent<'a> {
    pub table: &'a str,
    pub address: u64,
    pub access: Access,
}

impl<'a> Default for Parent<'a> {
    /// The anonymous table, at address zero, read-only.
    fn default() -> (r: Self)
        ensures
            r.table@ == "Anonymous"@,
            r.address == 0,
            r.access == Access::Read,
    {
        Parent { table: "Anonymous", address: 0u64, access: Access::Read }
    }
}

impl<'a> Parent<'a> {
    /// The given table, at address zero, read-only.
    pub fn default_with_table(table: &'a str) -> (r: Self)
        ensures
            r.table == table,
            r.address == 0,
            r.access == Access::Read,
    {
        Parent { table, address: 0u64, access: Access::Read }
    }

    /// Moves the running address past `size` bytes.
    pub fn increment_address(&mut self, size: u64)
        requires
            old(self).address + size <= u64::MAX,
        ensures
            *final(self) == parent_incremented(*old(self), size),
    {
        self.address += size;
    }

    pub fn get_table(&self) -> (r: &str)
        ensures
            r == self.table,
    {
        self.table
    }

    pub fn get_address(&self) -> (r: u64)
        ensures
            r == self.address,
    {
        self.address
    }

    pub fn get_access(&self) -> (r: Access)
        ensures
            r == self.access,
    {
        self.access
    }
}

/// A context moved past `size` bytes: the address grows by `size`, and the table and the
/// access stay.
pub open spec fn parent_incremented<'a>(p: Parent<'a>, size: u64) -> Parent<'a> {
    Parent { table: p.table, address: (p.address + size) as u64, access: p.access }
}

/// The total of a sequence of sizes.
pub open spec fn sizes_total(sizes: Seq<u64>) -> nat
    decreases sizes.len(),
{
    if sizes.len() == 0 {
        0
    } else {
        sizes_total(sizes.drop_last()) + sizes.last() as nat
    }
}

/// A context after `increment_address` was called with each of `sizes` in turn.
pub open spec fn after_increments<'a>(p: Parent<'a>, sizes: Seq<u64>) -> Parent<'a>
    decreases sizes.len(),
{
    if sizes.len() == 0 {
        p
    } else {
        parent_incremented(after_increments(p, sizes.drop_last()), sizes.last())
    }
}

/// No operation of a context changes its table or its access: after any calls of
/// `increment_address` whose running address stays within a `u64`, the table and the access
/// are those it was made with (the constructors give read access), and the address has grown
/// by the sizes' total. Each call meets `increment_address`'s precondition.
pub proof fn lemma_increments_keep_access<'a>(p: Parent<'a>, sizes: Seq<u64>)
    requires
        p.address + sizes_total(sizes) <= u64::MAX,
    ensures
        after_increments(p, sizes).table == p.table,
        after_increments(p, sizes).access == p.access,
        after_increments(p, sizes).address == p.address + sizes_total(sizes),
        forall|k: int|
            0 <= k < sizes.len() ==> after_increments(p, #[trigger] sizes.take(k)).address
                + sizes[k] <= u64::MAX,
    decreases sizes.len(),
{
    if sizes.len() > 0 {
        let front = sizes.drop_last();
        lemma_increments_keep_access(p, front);
        assert forall|k: int| 0 <= k < sizes.len() implies after_increments(
            p,
            #[trigger] sizes.take(k),
        ).address + sizes[k] <= u64::MAX by {
            if k < front.len() {
                assert(sizes.take(k) =~= front.take(k));
                assert(sizes[k] == front[k]);
            } else {
                assert(sizes.take(k) =~= front);
            }
        }
    }
}

/// Resolution of the optional parts of a record for tabular presentation.
pub trait Resolver {
    /// Resolve the record in the given context.
    fn resolve(&self, parent: &Parent, def_map: &StringHashMap<&Record>, protocol: &Protocol);

    /// The size of the record in bytes.
    fn size(&self, def_map: &StringHashMap<&Record>) -> u64;
}

/// A list or series expansion for an array.
pub enum Index {
    Length(u64),
    Range { high: u64, low: u64 },
    List(Vec<Option<String>>),
}

/// By default the enumerating string is appended to the end of the element's name.
pub fn default_name_index() -> (r: i64)
    ensures
        r == -1,
{
    -1
}

/// A list or series expansion of a serial element.
pub struct Array {
    /// Where in the element's name the enumerating string goes: positive indexes count from
    /// the start, negative ones from the end; 0 is before the name and -1 after it.
    pub enumeration_index: i64,
    /// Put before the enumerating string.
    pub prepend_delim: Option<String>,
    /// Put after the enumerating string.
    pub append_delim: Option<String>,
    pub address: Option<u64>,
    pub access: Option<Access>,
    /// The contents of each array element
    pub element: Serial,
    /// The enumerating indexes; the first is the least significant.
    pub index: Vec<Index>,
    /// Increment or stride length in bytes, one per dimension.
    pub increment: Option<Vec<u64>>,
}

/// The name an array goes by: that of its element, or the kind of a referenced element.
pub open spec fn array_name(a: Array) -> Seq<char> {
    match a.element {
        Serial::Cluster(c) => c.name@,
        Serial::Entry(e) => e.name@,
        Serial::Reference(..) => "Reference"@,
        Serial::MapFile(..) => "Map"@,
    }
}

impl Array {
    /// The name the array goes by: that of its element, or the kind of a referenced element.
    pub fn name(&self) -> (r: &str)
        ensures
            r@ == array_name(*self),
    {
        match &self.element {
            Serial::Cluster(cluster) => cluster.name.as_str(),
            Serial::Entry(entry) => entry.name.as_str(),
            Serial::Reference(..) => "Reference",
            Serial::MapFile(..) => "Map",
        }
    }

    pub fn kind_name(&self) -> (r: &'static str)
        ensures
            r@ == "Array"@,
    {
        "Array"
    }
}

impl Name for Array {
    open spec fn name_spec(&self) -> Seq<char> {
        array_name(*self)
    }

    open spec fn kind_name_spec() -> Seq<char> {
        "Array"@
    }

    fn name(&self) -> (r: &str) {
        match &self.element {
            Serial::Cluster(cluster) => cluster.name.as_str(),
            Serial::Entry(entry) => entry.name.as_str(),
            Serial::Reference(..) => "Reference",
            Serial::MapFile(..) => "Map",
        }
    }

    fn kind_name() -> (r: &'static str) {
        "Array"
    }
}

impl Resolver for Array {
    fn resolve(&self, parent: &Parent, def_map: &StringHashMap<&Record>, protocol: &Protocol) {
    }

    /// The span of the array in bytes, saturated at `u64::MAX`; references are followed
    /// through at most as many definitions as there are.
    fn size(&self, def_map: &StringHashMap<&Record>) -> (r: u64)
        ensures
            r == saturated(array_size(*self, def_map@, def_map@.len())),
    {
        array_size_at(self, def_map, def_map.len())
    }
}

/// A grouping of records, akin to a struct.
pub struct Cluster {
    pub name: String,
    pub address: Option<u64>,
    pub access: Option<Access>,
    pub elements: Vec<Record>,
}

impl Cluster {
    pub fn name(&self) -> (r: &str)
        ensures
            r@ == self.name@,
    {
        self.name.as_str()
    }

    pub fn kind_name(&self) -> (r: &'static str)
        ensures
            r@ == "Cluster"@,
    {
        "Cluster"
    }
}

impl Name for Cluster {
    open spec fn name_spec(&self) -> Seq<char> {
        self.name@
    }

    open spec fn kind_name_spec() -> Seq<char> {
        "Cluster"@
    }

    fn name(&self) -> (r: &str) {
        self.name.as_str()
    }

    fn kind_name() -> (r: &'static str) {
        "Cluster"
    }
}

impl Resolver for Cluster {
    /// Resolves each element in turn.
    fn resolve(&self, parent: &Parent, def_map: &StringHashMap<&Record>, protocol: &Protocol)
        decreases self,
    {
        let mut i: usize = 0;
        while i < self.elements.len()
            invariant
                i <= self.elements@.len(),
            decreases self.elements@.len() - i,
        {
            match &self.elements[i] {
                Record::Entry(entry) => entry.resolve(parent, def_map, protocol),
                Record::Array(array) => array.resolve(parent, def_map, protocol),
                Record::Cluster(cluster) => {
                    proof {
                        assert(decreases_to!(self => self.elements));
                    }
                    cluster.resolve(parent, def_map, protocol)
                },
                Record::Reference(..) => {},
                Record::MapFile(..) => {},
            }
            i = i + 1;
        }
    }

    /// The total size of the cluster's records in bytes, saturated at `u64::MAX`;
    /// references are followed through at most as many definitions as there are.
    fn size(&self, def_map: &StringHashMap<&Record>) -> (r: u64)
        ensures
            r == saturated(records_size(self.elements@, def_map@, def_map@.len())),
    {
        records_size_at(&self.elements, def_map, def_map.len())
    }
}

impl IntoIterator for Cluster {
    type Item = Record;
    type IntoIter = std::vec::IntoIter<Record>;

    /// The cluster's records, in order.
    fn into_iter(self) -> (r: std::vec::IntoIter<Record>)
        ensures
            r == vstd::std_specs::vec::spec_into_iter(self.elements),
    {
        self.elements.into_iter()
    }
}

/// The fundamental unit of memory, optionally described by fields.
pub struct Entry {
    pub name: String,
    pub address: Option<u64>,
    pub access: Option<Access>,
    /// Length of the entry in bytes
    pub bytes: u32,
    pub fields: Vec<Field>,
}

impl Entry {
    pub fn name(&self) -> (r: &str)
        ensures
            r@ == self.name@,
    {
        self.name.as_str()
    }

    pub fn kind_name(&self) -> (r: &'static str)
        ensures
            r@ == "Entry"@,
    {
        "Entry"
    }
}

impl Name for Entry {
    open spec fn name_spec(&self) -> Seq<char> {
        self.name@
    }

    open spec fn kind_name_spec() -> Seq<char> {
        "Entry"@
    }

    fn name(&self) -> (r: &str) {
        self.name.as_str()
    }

    fn kind_name() -> (r: &'static str) {
        "Entry"
    }
}

impl Resolver for Entry {
    fn resolve(&self, parent: &Parent, def_map: &StringHashMap<&Record>, protocol: &Protocol) {
    }

    /// An entry's size is its byte length.
    fn size(&self, _def_map: &StringHashMap<&Record>) -> (r: u64)
        ensures
            r == self.bytes as u64,
    {
        self.bytes as u64
    }
}

/// A reference to a definition of the document.
pub struct Reference(pub String);

/// A reference to another map file.
pub struct MapFile(pub String);

/// The record kinds of a memory map.
pub enum Record {
    Array(Array),
    Cluster(Cluster),
    Entry(Entry),
    Reference(Reference),
    MapFile(MapFile),
}

/// The name a record goes by.
pub open spec fn record_name(r: Record) -> Seq<char> {
    match r {
        Record::Array(a) => array_name(a),
        Record::Cluster(c) => c.name@,
        Record::Entry(e) => e.name@,
        Record::Reference(reference) => reference.0@,
        Record::MapFile(map) => map.0@,
    }
}

/// The name of a record's kind.
pub open spec fn record_kind_name(r: Record) -> Seq<char> {
    match r {
        Record::Array(..) => "Array"@,
        Record::Cluster(..) => "Cluster"@,
        Record::Entry(..) => "Entry"@,
        Record::Reference(..) => "Reference"@,
        Record::MapFile(..) => "Map"@,
    }
}

impl Record {
    /// The name the record goes by: its own, or the reference it holds.
    pub fn name(&self) -> (r: &str)
        ensures
            r@ == record_name(*self),
    {
        match self {
            Record::Array(array) => array.name(),
            Record::Cluster(cluster) => cluster.name(),
            Record::Entry(entry) => entry.name(),
            Record::Reference(reference) => reference.0.as_str(),
            Record::MapFile(map) => map.0.as_str(),
        }
    }

    /// The name of the record's kind.
    pub fn kind_name(&self) -> (r: &'static str)
        ensures
            r@ == record_kind_name(*self),
    {
        match self {
            Record::Array(array) => array.kind_name(),
            Record::Cluster(cluster) => cluster.kind_name(),
            Record::Entry(entry) => entry.kind_name(),
            Record::Reference(..) => "Reference",
            Record::MapFile(..) => "Map",
        }
    }
}

impl Resolver for Record {
    /// Resolves an array, a cluster or an entry; references are left as they are.
    fn resolve(&self, parent: &Parent, def_map: &StringHashMap<&Record>, protocol: &Protocol) {
        match self {
            Record::Array(array) => array.resolve(parent, def_map, protocol),
            Record::Cluster(cluster) => cluster.resolve(parent, def_map, protocol),
            Record::Entry(entry) => entry.resolve(parent, def_map, protocol),
            Record::Reference(_reference) => {},
            Record::MapFile(_map) => {},
        }
    }

    /// The size of the record in bytes, saturated at `u64::MAX`; references are followed
    /// through at most as many definitions as there are.
    fn size(&self, def_map: &StringHashMap<&Record>) -> (r: u64)
        ensures
            r == saturated(record_size(*self, def_map@, def_map@.len())),
    {
        record_size_at(self, def_map, def_map.len())
    }
}

/// The kinds of element an array may hold.
pub enum Serial {
    Cluster(Cluster),
    Entry(Entry),
    Reference(Reference),
    MapFile(MapFile),
}

/// A byte count held in a `u64`: the count itself, or `u64::MAX` where it does not fit.
pub open spec fn saturated(x: nat) -> u64 {
    if x > u64::MAX {
        u64::MAX
    } else {
        x as u64
    }
}

/// The number of elements an index enumerates: a length, the inclusive range from `low` to
/// `high` (none where `low` is above `high`), or the entries of a list.
pub open spec fn index_count(i: Index) -> nat {
    match i {
        Index::Length(n) => n as nat,
        Index::Range { high, low } => if low <= high {
            (high - low + 1) as nat
        } else {
            0
        },
        Index::List(v) => v@.len(),
    }
}

/// The position of the last element an index enumerates, counted from zero (zero where it
/// enumerates none).
pub open spec fn index_last(i: Index) -> nat {
    if index_count(i) == 0 {
        0
    } else {
        (index_count(i) - 1) as nat
    }
}

/// The number of elements of an array: the product of the counts of its indexes.
pub open spec fn index_product(s: Seq<Index>) -> nat
    decreases s.len(),
{
    if s.len() == 0 {
        1
    } else {
        index_product(s.subrange(0, s.len() - 1)) * index_count(s.last())
    }
}

/// The offset of an array's last element where each index steps by its own increment: the
/// sum, over the indexes, of the last position times the increment.
pub open spec fn stride_span(s: Seq<Index>, increments: Seq<u64>) -> nat
    decreases s.len(),
{
    if s.len() == 0 {
        0
    } else {
        stride_span(s.subrange(0, s.len() - 1), increments) + index_last(s.last()) * increments[s.len()
            - 1] as nat
    }
}

/// The size in bytes of a record. An entry is its byte length; a cluster the sum of its
/// records; an array spans from its first element to the end of its last. A reference is the
/// size of the definition of that name, followed through at most `depth` references; a
/// reference to no definition, or one past that depth, and a reference to another map file
/// count no bytes.
pub open spec fn record_size(r: Record, defs: Map<Seq<char>, &Record>, depth: nat) -> nat
    decreases depth, r,
{
    match r {
        Record::Array(a) => array_size(a, defs, depth),
        Record::Cluster(c) => records_size(c.elements@, defs, depth),
        Record::Entry(e) => e.bytes as nat,
        Record::Reference(x) => if depth == 0 || !defs.contains_key(x.0@) {
            0
        } else {
            record_size(*defs[x.0@], defs, (depth - 1) as nat)
        },
        Record::MapFile(..) => 0,
    }
}

/// The size in bytes of an array's element, as `record_size` says.
pub open spec fn serial_size(s: Serial, defs: Map<Seq<char>, &Record>, depth: nat) -> nat
    decreases depth, s,
{
    match s {
        Serial::Cluster(c) => records_size(c.elements@, defs, depth),
        Serial::Entry(e) => e.bytes as nat,
        Serial::Reference(x) => if depth == 0 || !defs.contains_key(x.0@) {
            0
        } else {
            record_size(*defs[x.0@], defs, (depth - 1) as nat)
        },
        Serial::MapFile(..) => 0,
    }
}

/// The total size in bytes of a sequence of records.
pub open spec fn records_size(s: Seq<Record>, defs: Map<Seq<char>, &Record>, depth: nat) -> nat
    decreases depth, s,
{
    if s.len() == 0 {
        0
    } else {
        records_size(s.subrange(0, s.len() - 1), defs, depth) + record_size(
            s[s.len() - 1],
            defs,
            depth,
        )
    }
}

/// The size in bytes of an array. With no element it is empty. Where an increment is given
/// for each index, it spans from the first element to the end of the last, whose offset is
/// `stride_span`; otherwise its elements lie one after another.
pub open spec fn array_size(a: Array, defs: Map<Seq<char>, &Record>, depth: nat) -> nat
    decreases depth, a,
{
    let element = serial_size(a.element, defs, depth);
    let n = index_product(a.index@);
    if n == 0 {
        0
    } else {
        match a.increment {
            Some(increments) => if increments@.len() == a.index@.len() {
                element + stride_span(a.index@, increments@)
            } else {
                n * element
            },
            None => n * element,
        }
    }
}

/// A product saturated at `u64::MAX`.
pub open spec fn saturating_product(a: u64, b: u64) -> u64 {
    saturated(a as nat * b as nat)
}

/// Saturating at each step of a sum gives the saturated sum.
pub proof fn lemma_saturated_add(x: nat, y: nat)
    ensures
        saturated(x + y) == saturated(x).saturating_add(saturated(y)),
{
}

/// Saturating at each step of a product gives the saturated product.
pub proof fn lemma_saturated_mul(x: nat, y: nat)
    ensures
        saturated(x * y) == saturating_product(saturated(x), saturated(y)),
{
    if x > u64::MAX && y >= 1 {
        assert(x * y >= x) by (nonlinear_arith)
            requires
                y >= 1,
        ;
        let sy = saturated(y) as nat;
        assert(u64::MAX as nat * sy >= u64::MAX) by (nonlinear_arith)
            requires
                sy >= 1,
        ;
    } else if y > u64::MAX && x >= 1 {
        assert(x * y >= y) by (nonlinear_arith)
            requires
                x >= 1,
        ;
        let sx = saturated(x) as nat;
        assert(sx * u64::MAX as nat >= u64::MAX) by (nonlinear_arith)
            requires
                sx >= 1,
        ;
    } else if x == 0 || y == 0 {
        assert(x * y == 0) by (nonlinear_arith)
            requires
                x == 0 || y == 0,
        ;
        assert(saturated(x) as nat * saturated(y) as nat == 0) by (nonlinear_arith)
            requires
                saturated(x) == 0 || saturated(y) == 0,
        ;
    }
}

/// `a * b`, or `u64::MAX` where the product does not fit.
fn saturating_mul(a: u64, b: u64) -> (r: u64)
    ensures
        r == saturating_product(a, b),
{
    match a.checked_mul(b) {
        Some(p) => p,
        None => u64::MAX,
    }
}

/// The number of elements an index enumerates, saturated.
fn index_count_of(i: &Index) -> (r: u64)
    ensures
        r == saturated(index_count(*i)),
{
    match i {
        Index::Length(n) => *n,
        Index::Range { high, low } => if *low <= *high {
            (*high - *low).saturating_add(1)
        } else {
            0
        },
        Index::List(v) => v.len() as u64,
    }
}

/// The position of the last element an index enumerates.
fn index_last_of(i: &Index) -> (r: u64)
    ensures
        r as nat == index_last(*i),
{
    match i {
        Index::Length(n) => if *n == 0 {
            0
        } else {
            *n - 1
        },
        Index::Range { high, low } => if *low <= *high {
            *high - *low
        } else {
            0
        },
        Index::List(v) => if v.len() == 0 {
            0
        } else {
            (v.len() - 1) as u64
        },
    }
}

/// The size of a record, saturated, with references followed to `depth`.
fn record_size_at(r: &Record, defs: &StringHashMap<&Record>, depth: usize) -> (s: u64)
    ensures
        s == saturated(record_size(*r, defs@, depth as nat)),
    decreases depth, r,
{
    match r {
        Record::Array(a) => array_size_at(a, defs, depth),
        Record::Cluster(c) => records_size_at(&c.elements, defs, depth),
        Record::Entry(e) => e.bytes as u64,
        Record::Reference(x) => {
            if depth == 0 {
                return 0;
            }
            match defs.get(x.0.as_str()) {
                Some(target) => record_size_at(*target, defs, depth - 1),
                None => 0,
            }
        },
        Record::MapFile(..) => 0,
    }
}

/// The size of an array's element, saturated.
fn serial_size_at(s: &Serial, defs: &StringHashMap<&Record>, depth: usize) -> (r: u64)
    ensures
        r == saturated(serial_size(*s, defs@, depth as nat)),
    decreases depth, s,
{
    match s {
        Serial::Cluster(c) => records_size_at(&c.elements, defs, depth),
        Serial::Entry(e) => e.bytes as u64,
        Serial::Reference(x) => {
            if depth == 0 {
                return 0;
            }
            match defs.get(x.0.as_str()) {
                Some(target) => record_size_at(*target, defs, depth - 1),
                None => 0,
            }
        },
        Serial::MapFile(..) => 0,
    }
}

/// The total size of a list of records, saturated.
fn records_size_at(v: &Vec<Record>, defs: &StringHashMap<&Record>, depth: usize) -> (r: u64)
    ensures
        r == saturated(records_size(v@, defs@, depth as nat)),
    decreases depth, v,
{
    let mut total: u64 = 0;
    let mut i: usize = 0;
    while i < v.len()
        invariant
            i <= v@.len(),
            total == saturated(records_size(v@.subrange(0, i as int), defs@, depth as nat)),
        decreases v@.len() - i,
    {
        proof {
            assert(decreases_to!(v => v@));
        }
        let s = record_size_at(&v[i], defs, depth);
        proof {
            let t = v@.subrange(0, i + 1);
            assert(t.subrange(0, t.len() - 1) =~= v@.subrange(0, i as int));
            assert(t[t.len() - 1] == v@[i as int]);
            lemma_saturated_add(
                records_size(v@.subrange(0, i as int), defs@, depth as nat),
                record_size(v@[i as int], defs@, depth as nat),
            );
        }
        total = total.saturating_add(s);
        i = i + 1;
    }
    proof {
        assert(v@.subrange(0, v@.len() as int) =~= v@);
    }
    total
}

/// The size of an array, saturated.
fn array_size_at(a: &Array, defs: &StringHashMap<&Record>, depth: usize) -> (r: u64)
    ensures
        r == saturated(array_size(*a, defs@, depth as nat)),
    decreases depth, a,
{
    let element = serial_size_at(&a.element, defs, depth);
    let ghost idx = a.index@;
    let mut count: u64 = 1;
    let mut i: usize = 0;
    while i < a.index.len()
        invariant
            idx == a.index@,
            i <= idx.len(),
            count == saturated(index_product(idx.subrange(0, i as int))),
        decreases idx.len() - i,
    {
        let c = index_count_of(&a.index[i]);
        proof {
            let t = idx.subrange(0, i + 1);
            assert(t.subrange(0, t.len() - 1) =~= idx.subrange(0, i as int));
            assert(t.last() == idx[i as int]);
            lemma_saturated_mul(
                index_product(idx.subrange(0, i as int)),
                index_count(idx[i as int]),
            );
        }
        count = saturating_mul(count, c);
        i = i + 1;
    }
    proof {
        assert(idx.subrange(0, idx.len() as int) =~= idx);
    }
    if count == 0 {
        return 0;
    }
    match &a.increment {
        Some(increments) => {
            if increments.len() == a.index.len() {
                let mut span: u64 = 0;
                let mut j: usize = 0;
                while j < a.index.len()
                    invariant
                        idx == a.index@,
                        increments@.len() == idx.len(),
                        j <= idx.len(),
                        span == saturated(stride_span(idx.subrange(0, j as int), increments@)),
                    decreases idx.len() - j,
                {
                    let last = index_last_of(&a.index[j]);
                    let step = saturating_mul(last, increments[j]);
                    proof {
                        let t = idx.subrange(0, j + 1);
                        assert(t.subrange(0, t.len() - 1) =~= idx.subrange(0, j as int));
                        assert(t.last() == idx[j as int]);
                        lemma_saturated_mul(index_last(idx[j as int]), increments@[j as int] as nat);
                        lemma_saturated_add(
                            stride_span(idx.subrange(0, j as int), increments@),
                            index_last(idx[j as int]) * increments@[j as int] as nat,
                        );
                    }
                    span = span.saturating_add(step);
                    j = j + 1;
                }
                proof {
                    assert(idx.subrange(0, idx.len() as int) =~= idx);
                    lemma_saturated_add(
                        serial_size(a.element, defs@, depth as nat),
                        stride_span(idx, increments@),
                    );
                }
                element.saturating_add(span)
            } else {
                proof {
                    lemma_saturated_mul(
                        index_product(idx),
                        serial_size(a.element, defs@, depth as nat),
                    );
                }
                saturating_mul(count, element)
            }
        },
        None => {
            proof {
                lemma_saturated_mul(index_product(idx), serial_size(a.element, defs@, depth as nat));
            }
            saturating_mul(count, element)
        },
    }
}

} // verus!
