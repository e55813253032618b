//! A memory map resolved into named tables: one table of entries per cluster, and tables of
//! fields. Tables are kept in the order of their names.
use crate::memory_map::composite::Composite;
use crate::memory_map::field::{field_type_text, text_defined, Field, FieldType, FloatBits, Value};
use crate::memory_map::tables::{
    lemma_insert_at, lemma_replace_at, put_table,
    reset_table, table_names, tables_map, tables_wf,
};
use crate::memory_map::text::{digits, push_digits};
use crate::memory_map::{composite_names, first_repeat, lemma_first_repeat_prefix, Access, MemoryMap, Name};
use vstd::prelude::*;
use vstd::string::*;

verus! {

/// The type column of a resolved entry: a link to another table, or a field type.
pub enum LinkOrType {
    Link { text: String, link: String },
    Type(FieldType),
}

/// The text of a link or type: a markdown link, or the field type's text.
pub open spec fn link_or_type_text(l: LinkOrType, enum_width: nat) -> Seq<char> {
    match l {
        LinkOrType::Link { text, link } => "["@ + text@ + "]("@ + link@ + ")"@,
        LinkOrType::Type(ft) => field_type_text(ft, enum_width),
    }
}

impl LinkOrType {
    /// The text of this link or type (see `FieldType::display_text` for `enum_width`).
    pub fn display_text(&self, enum_width: usize) -> (r: String)
        requires
            *self matches LinkOrType::Type(ft) ==> text_defined(ft),
        ensures
            r@ == link_or_type_text(*self, enum_width as nat),
    {
        match self {
            LinkOrType::Link { text, link } => {
                let mut out = String::new();
                out.append("[");
                out.append(text.as_str());
                out.append("](");
                out.append(link.as_str());
                out.append(")");
                out
            },
            LinkOrType::Type(ft) => ft.display_text(enum_width),
        }
    }
}

/// A range of addresses or bits, both ends included.
pub struct Range {
    pub start: u64,
    pub end: u64,
}

/// The text of a range: a single number when it has one element, else `start..end`.
pub open spec fn range_text(r: Range) -> Seq<char> {
    if r.start == r.end {
        digits(r.start as nat, 10)
    } else {
        digits(r.start as nat, 10) + ".."@ + digits(r.end as nat, 10)
    }
}

impl Range {
    /// The text of this range.
    pub fn display_text(&self) -> (r: String)
        ensures
            r@ == range_text(*self),
    {
        let mut out = String::new();
        push_digits(&mut out, self.start, 10);
        if self.start != self.end {
            out.append("..");
            push_digits(&mut out, self.end, 10);
        }
        out
    }
}

/// One row of a resolved table of entries.
pub struct ResolvedEntry {
    /// Name of the entry
    pub name: String,
    /// Address of the entry
    pub address: u64,
    /// Entry accessibility
    pub access: Access,
    /// Entry type
    pub entry_type: LinkOrType,
    /// The unit of measurement of a numeric type. Ignored for other types.
    pub unit: Option<String>,
    /// The minimum allowed value of a numeric type. Ignored for other types.
    pub minimum: Option<FloatBits>,
    /// The maximum allowed value of a numeric type. Ignored for other types.
    pub maximum: Option<FloatBits>,
    /// The default value of the entry.
    pub value: Value,
}

/// Why a memory map could not be resolved.
pub struct ResolveError {
    pub message: String,
}

/// The message for a name that two elements share.
pub open spec fn duplicate_text(second: Seq<char>, first_kind: Seq<char>, second_kind: Seq<char>) -> Seq<
    char,
> {
    "Found duplicate name \""@ + second + "\". First instance is composite \""@ + first_kind
        + "\"; second instance is composite \""@ + second_kind + "\""@
}

/// The message for a cluster name that is taken already.
pub open spec fn duplicate_cluster_text(name: Seq<char>) -> Seq<char> {
    "Found duplicate cluster name \""@ + name
        + "\". Resolve the conflict or consider using a reference."@
}

/// The message for a reference to a definition that the document lacks.
pub open spec fn def_not_found_text(item: Seq<char>) -> Seq<char> {
    "Definition "@ + item + " not found in document"@
}

/// The message for a reference to a map file that cannot be found.
pub open spec fn map_not_found_text(item: Seq<char>) -> Seq<char> {
    "Map file "@ + item + " not found"@
}

/// The message for a field table name that is taken already.
pub open spec fn duplicate_field_table_text(name: Seq<char>) -> Seq<char> {
    "Field name "@ + name + " already exists."@
}

impl ResolveError {
    /// Two elements share a name; the message names the second and the kinds of both.
    pub fn duplicate<T: Name, U: Name>(_first: T, second: U) -> (r: Self)
        ensures
            r.message@ == duplicate_text(second.name_spec(), T::kind_name_spec(), U::kind_name_spec()),
    {
        let mut message = String::new();
        message.append("Found duplicate name \"");
        message.append(second.name());
        message.append("\". First instance is composite \"");
        message.append(T::kind_name());
        message.append("\"; second instance is composite \"");
        message.append(U::kind_name());
        message.append("\"");
        ResolveError { message }
    }

    /// A cluster name is taken already.
    pub fn duplicate_cluster(name: &str) -> (r: Self)
        ensures
            r.message@ == duplicate_cluster_text(name@),
    {
        let mut message = String::new();
        message.append("Found duplicate cluster name \"");
        message.append(name);
        message.append("\". Resolve the conflict or consider using a reference.");
        ResolveError { message }
    }

    /// A reference points to a definition that the document lacks.
    pub fn def_not_found(item: String) -> (r: Self)
        ensures
            r.message@ == def_not_found_text(item@),
    {
        let mut message = String::new();
        message.append("Definition ");
        message.append(item.as_str());
        message.append(" not found in document");
        ResolveError { message }
    }

    /// A reference points to a map file that cannot be found.
    pub fn map_not_found(item: String) -> (r: Self)
        ensures
            r.message@ == map_not_found_text(item@),
    {
        let mut message = String::new();
        message.append("Map file ");
        message.append(item.as_str());
        message.append(" not found");
        ResolveError { message }
    }

    /// The error's message.
    pub fn display_text(&self) -> (r: String)
        ensures
            r@ == self.message@,
    {
        self.message.clone()
    }
}

/// A resolved memory map: tables of entries and tables of fields, each by name.
pub struct ResolvedMemoryMap {
    entries: Vec<(String, Vec<ResolvedEntry>)>,
    fields: Vec<(String, Vec<Field>)>,
}

/// A table of entries or a table of fields, with its name.
pub enum EntryOrField {
    Entry((String, Vec<ResolvedEntry>)),
    Field((String, Vec<Field>)),
}

/// The tables of a resolved map as they are handed out: all tables of entries in increasing
/// name order, then all tables of fields in increasing name order.
pub open spec fn table_items(
    entries: Seq<(String, Vec<ResolvedEntry>)>,
    fields: Seq<(String, Vec<Field>)>,
) -> Seq<EntryOrField> {
    entries.map_values(|p: (String, Vec<ResolvedEntry>)| EntryOrField::Entry(p)) + fields.map_values(
        |p: (String, Vec<Field>)| EntryOrField::Field(p),
    )
}

/// The maps of entry tables and field tables after putting each item in turn, an item
/// replacing any table of the same kind and name.
pub open spec fn extend_maps(
    entries: Map<Seq<char>, Seq<ResolvedEntry>>,
    fields: Map<Seq<char>, Seq<Field>>,
    items: Seq<EntryOrField>,
) -> (Map<Seq<char>, Seq<ResolvedEntry>>, Map<Seq<char>, Seq<Field>>)
    decreases items.len(),
{
    if items.len() == 0 {
        (entries, fields)
    } else {
        let (e, f) = extend_maps(entries, fields, items.drop_last());
        match items.last() {
            EntryOrField::Entry((name, table)) => (e.insert(name@, table@), f),
            EntryOrField::Field((name, table)) => (e, f.insert(name@, table@)),
        }
    }
}

impl Default for ResolvedMemoryMap {
    /// A resolved map without tables.
    fn default() -> (r: Self)
        ensures
            r.wf(),
            r.entries_map() == Map::<Seq<char>, Seq<ResolvedEntry>>::empty(),
            r.fields_map() == Map::<Seq<char>, Seq<Field>>::empty(),
            r.items() == Seq::<EntryOrField>::empty(),
    {
        let r = ResolvedMemoryMap { entries: Vec::new(), fields: Vec::new() };
        proof {
            assert(tables_map(r.entries@) =~= Map::<Seq<char>, Seq<ResolvedEntry>>::empty());
            assert(tables_map(r.fields@) =~= Map::<Seq<char>, Seq<Field>>::empty());
            assert(r.items() =~= Seq::<EntryOrField>::empty());
        }
        r
    }
}

impl ResolvedMemoryMap {
    /// Table names of each kind strictly increase.
    pub closed spec fn wf(&self) -> bool {
        tables_wf(self.entries@) && tables_wf(self.fields@)
    }

    /// The tables of entries by name.
    pub closed spec fn entries_map(&self) -> Map<Seq<char>, Seq<ResolvedEntry>> {
        tables_map(self.entries@)
    }

    /// The tables of fields by name.
    pub closed spec fn fields_map(&self) -> Map<Seq<char>, Seq<Field>> {
        tables_map(self.fields@)
    }

    /// The tables in the order they are handed out.
    pub closed spec fn items(&self) -> Seq<EntryOrField> {
        table_items(self.entries@, self.fields@)
    }

    /// Starts an empty table of entries under `name`. A table of that name is replaced by an
    /// empty one, and that is an error.
    pub fn new_entry_table(&mut self, name: &str) -> (r: Result<&mut Vec<ResolvedEntry>, ResolveError>)
        requires
            old(self).wf(),
        ensures
            final(self).wf(),
            final(self).fields_map() == old(self).fields_map(),
            old(self).entries_map().contains_key(name@) ==> (r matches Err(e)
                && e.message@ == duplicate_cluster_text(name@) && final(self).entries_map()
                == old(self).entries_map().insert(name@, Seq::empty())),
            !old(self).entries_map().contains_key(name@) ==> (r matches Ok(t) && t@
                == Seq::<ResolvedEntry>::empty() && final(self).entries_map()
                == old(self).entries_map().insert(name@, final(t)@)),
    {
        let (existed, i) = reset_table(&mut self.entries, name);
        if existed {
            Err(ResolveError::duplicate_cluster(name))
        } else {
            let ghost before = self.entries@;
            let t = &mut self.entries[i].1;
            proof {
                lemma_replace_at(before, i as int, *final(t));
            }
            Ok(t)
        }
    }

    /// Starts an empty table of fields under `name`. A table of that name is replaced by an
    /// empty one, and that is an error.
    pub fn new_field_table(&mut self, name: &str) -> (r: Result<&mut Vec<Field>, ResolveError>)
        requires
            old(self).wf(),
        ensures
            final(self).wf(),
            final(self).entries_map() == old(self).entries_map(),
            old(self).fields_map().contains_key(name@) ==> (r matches Err(e) && e.message@
                == duplicate_field_table_text(name@) && final(self).fields_map()
                == old(self).fields_map().insert(name@, Seq::empty())),
            !old(self).fields_map().contains_key(name@) ==> (r matches Ok(t) && t@
                == Seq::<Field>::empty() && final(self).fields_map()
                == old(self).fields_map().insert(name@, final(t)@)),
    {
        let (existed, i) = reset_table(&mut self.fields, name);
        if existed {
            let mut message = String::new();
            message.append("Field name ");
            message.append(name);
            message.append(" already exists.");
            Err(ResolveError { message })
        } else {
            let ghost before = self.fields@;
            let t = &mut self.fields[i].1;
            proof {
                lemma_replace_at(before, i as int, *final(t));
            }
            Ok(t)
        }
    }

    /// The map rendered as text; rendering is not implemented and gives the empty string.
    pub fn render(&self) -> (r: String)
        ensures
            r@ == Seq::<char>::empty(),
    {
        String::new()
    }

    /// Renders the map into `writer`; rendering is not implemented and writes nothing.
    pub fn render_to_writer<W, E>(&self, writer: W) -> (r: Result<(), E>)
        where
            W: std::io::Write,
            E: std::error::Error,
        ensures
            r is Ok,
    {
        Ok(())
    }

    /// All tables, entries first, each kind in increasing name order.
    pub fn into_iter(self) -> (r: MemoryTableIter)
        ensures
            r.remaining() == self.items(),
    {
        let r = MemoryTableIter {
            entry_tables: self.entries,
            field_tables: self.fields,
            next_field: false,
        };
        r
    }

    /// Puts each table in turn, replacing any table of the same kind and name.
    pub fn extend(&mut self, items: Vec<EntryOrField>)
        requires
            old(self).wf(),
        ensures
            final(self).wf(),
            (final(self).entries_map(), final(self).fields_map()) == extend_maps(
                old(self).entries_map(),
                old(self).fields_map(),
                items@,
            ),
    {
        let ghost all = items@;
        let mut items = items;
        let mut rev: Vec<EntryOrField> = Vec::new();
        while items.len() > 0
            invariant
                rev@.len() + items@.len() == all.len(),
                items@ == all.take(items@.len() as int),
                forall|j: int| 0 <= j < rev@.len() ==> rev@[j] == all[all.len() - 1 - j],
            decreases items@.len(),
        {
            let ghost before = items@;
            let x = items.pop().unwrap();
            proof {
                assert(items@ =~= all.take(items@.len() as int));
            }
            rev.push(x);
        }
        let ghost start = (self.entries_map(), self.fields_map());
        while rev.len() > 0
            invariant
                self.wf(),
                rev@.len() <= all.len(),
                forall|j: int| 0 <= j < rev@.len() ==> rev@[j] == all[all.len() - 1 - j],
                (self.entries_map(), self.fields_map()) == extend_maps(
                    start.0,
                    start.1,
                    all.take(all.len() - rev@.len()),
                ),
            decreases rev@.len(),
        {
            let ghost k: int = all.len() - rev@.len();
            let item = rev.pop().unwrap();
            proof {
                assert(item == all[k]);
                let t = all.take(k + 1);
                assert(t.drop_last() =~= all.take(k));
                assert(t.last() == all[k]);
            }
            match item {
                EntryOrField::Entry((name, table)) => {
                    put_table(&mut self.entries, name, table);
                },
                EntryOrField::Field((name, table)) => {
                    put_table(&mut self.fields, name, table);
                },
            }
        }
        proof {
            assert(all.take(all.len() as int) =~= all);
        }
    }
}

/// Hands out the tables of a resolved map one at a time: the tables of entries, then the
/// tables of fields.
pub struct MemoryTableIter {
    entry_tables: Vec<(String, Vec<ResolvedEntry>)>,
    field_tables: Vec<(String, Vec<Field>)>,
    next_field: bool,
}

impl MemoryTableIter {
    /// The tables still to be handed out, in order.
    pub closed spec fn remaining(&self) -> Seq<EntryOrField> {
        if self.next_field {
            table_items(Seq::empty(), self.field_tables@)
        } else {
            table_items(self.entry_tables@, self.field_tables@)
        }
    }

    /// The next table, if any remain.
    pub fn next(&mut self) -> (r: Option<EntryOrField>)
        ensures
            old(self).remaining().len() == 0 ==> r is None && final(self).remaining()
                == old(self).remaining(),
            old(self).remaining().len() > 0 ==> r == Some(old(self).remaining()[0])
                && final(self).remaining() == old(self).remaining().drop_first(),
    {
        let ghost before = self.remaining();
        if !self.next_field {
            if self.entry_tables.len() > 0 {
                let ghost e = self.entry_tables@;
                let table = self.entry_tables.remove(0);
                proof {
                    assert(self.entry_tables@ =~= e.drop_first());
                    assert(before[0] == EntryOrField::Entry(table));
                    assert(self.remaining() =~= before.drop_first());
                }
                return Some(EntryOrField::Entry(table));
            }
            self.next_field = true;
            proof {
                assert(self.remaining() =~= before);
            }
        }
        if self.field_tables.len() > 0 {
            let ghost f = self.field_tables@;
            let table = self.field_tables.remove(0);
            proof {
                assert(self.field_tables@ =~= f.drop_first());
                assert(before[0] == EntryOrField::Field(table));
                assert(self.remaining() =~= before.drop_first());
            }
            Some(EntryOrField::Field(table))
        } else {
            None
        }
    }
}

/// The names of the clusters among a sequence of elements, in order.
pub open spec fn cluster_names(cs: Seq<Composite>) -> Seq<Seq<char>>
    decreases cs.len(),
{
    if cs.len() == 0 {
        Seq::empty()
    } else {
        let rest = cluster_names(cs.drop_last());
        match cs.last() {
            Composite::Cluster(c) => rest.push(c.name@),
            _ => rest,
        }
    }
}

/// The cluster names of a prefix of the elements begin the cluster names of all of them.
pub proof fn lemma_cluster_names_prefix(cs: Seq<Composite>, i: int)
    requires
        0 <= i <= cs.len(),
    ensures
        cluster_names(cs.take(i)).len() <= cluster_names(cs).len(),
        cluster_names(cs).take(cluster_names(cs.take(i)).len() as int) == cluster_names(cs.take(i)),
    decreases cs.len() - i,
{
    if i == cs.len() {
        assert(cs.take(i) =~= cs);
        assert(cluster_names(cs).take(cluster_names(cs).len() as int) =~= cluster_names(cs));
    } else {
        lemma_cluster_names_prefix(cs.drop_last(), i);
        assert(cs.drop_last().take(i) =~= cs.take(i));
        let a = cluster_names(cs.drop_last());
        let p = cluster_names(cs.take(i));
        assert(cluster_names(cs).take(p.len() as int) =~= a.take(p.len() as int));
    }
}

/// The names of the tables of entries that resolving a map creates, in order: `Anonymous`,
/// then, when the definitions have no repeated name, the name of each top-level cluster.
pub open spec fn resolved_table_names(mm: MemoryMap) -> Seq<Seq<char>> {
    seq!["Anonymous"@] + if first_repeat(composite_names(mm.def@)) is None {
        cluster_names(mm.map@)
    } else {
        Seq::empty()
    }
}

impl ResolvedMemoryMap {
    /// Resolves a memory map: an `Anonymous` table of entries, and, when the definitions
    /// have no repeated name, an empty table of entries for each top-level cluster. A table
    /// name that repeats an earlier one is an error.
    pub fn resolve(mm: &MemoryMap) -> (r: Result<Self, ResolveError>)
        ensures
            match first_repeat(resolved_table_names(*mm)) {
                Some(n) => r matches Err(e) && e.message@ == duplicate_cluster_text(n),
                None => r matches Ok(m) && m.wf() && m.fields_map() == Map::<
                    Seq<char>,
                    Seq<Field>,
                >::empty() && (forall|k: Seq<char>| #[trigger] m.entries_map().contains_key(k)
                    <==> resolved_table_names(*mm).contains(k)) && (forall|k: Seq<char>|
                    #[trigger] m.entries_map().contains_key(k) ==> m.entries_map()[k]
                        == Seq::<ResolvedEntry>::empty()),
            },
    {
        let ghost all = resolved_table_names(*mm);
        let mut resolved = ResolvedMemoryMap::default();
        proof {
            reveal_strlit("Anonymous");
        }
        match resolved.new_entry_table("Anonymous") {
            Ok(_) => {},
            Err(e) => {
                return Err(e);
            },
        }
        proof {
            assert(all[0] == "Anonymous"@);
            assert(all.take(1) =~= seq!["Anonymous"@]);
            let one = all.take(1);
            assert(one.drop_last() =~= Seq::<Seq<char>>::empty());
            assert(first_repeat(one.drop_last()) is None);
            assert(!one.drop_last().contains(one.last()));
            assert(first_repeat(one) is None);
        }
        match mm.get_def_map() {
            Ok(_def_map) => {
                let mut i: usize = 0;
                while i < mm.map.len()
                    invariant
                        i <= mm.map@.len(),
                        all == resolved_table_names(*mm),
                        first_repeat(composite_names(mm.def@)) is None,
                        all == seq!["Anonymous"@] + cluster_names(mm.map@),
                        resolved.wf(),
                        resolved.fields_map() == Map::<Seq<char>, Seq<Field>>::empty(),
                        first_repeat(seq!["Anonymous"@] + cluster_names(mm.map@.take(i as int))) is None,
                        forall|k: Seq<char>| #[trigger] resolved.entries_map().contains_key(k)
                            <==> (seq!["Anonymous"@] + cluster_names(mm.map@.take(i as int))).contains(k),
                        forall|k: Seq<char>| #[trigger] resolved.entries_map().contains_key(k)
                            ==> resolved.entries_map()[k] == Seq::<ResolvedEntry>::empty(),
                    decreases mm.map@.len() - i,
                {
                    let ghost pre = seq!["Anonymous"@] + cluster_names(mm.map@.take(i as int));
                    let ghost post = seq!["Anonymous"@] + cluster_names(mm.map@.take(i + 1));
                    proof {
                        assert(mm.map@.take(i + 1).drop_last() =~= mm.map@.take(i as int));
                        assert(mm.map@.take(i + 1).last() == mm.map@[i as int]);
                    }
                    match &mm.map[i] {
                        Composite::Cluster(cluster) => {
                            let name = cluster.name();
                            proof {
                                assert(post =~= pre.push(name@));
                                assert(post.drop_last() =~= pre);
                            }
                            match resolved.new_entry_table(name) {
                                Ok(_table) => {},
                                Err(e) => {
                                    proof {
                                        assert(first_repeat(post) == Some(name@));
                                        lemma_cluster_names_prefix(mm.map@, i + 1);
                                        let n: int = cluster_names(mm.map@.take(i + 1)).len() as int;
                                        assert(all.take(n + 1) =~= post);
                                        lemma_first_repeat_prefix(all, n + 1);
                                    }
                                    return Err(e);
                                },
                            }
                        },
                        _ => {
                            proof {
                                assert(post =~= pre);
                            }
                        },
                    }
                    i = i + 1;
                }
                proof {
                    assert(mm.map@.take(mm.map@.len() as int) =~= mm.map@);
                }
            },
            Err(_) => {
                proof {
                    assert(all =~= seq!["Anonymous"@]);
                }
            },
        }
        Ok(resolved)
    }
}

/// Putting the handed-out tables of a resolved map, in order, into an empty map gives back
/// the same tables: the hand-out order loses nothing and repeats nothing.
pub proof fn lemma_extend_restores(r: ResolvedMemoryMap)
    requires
        r.wf(),
    ensures
        extend_maps(Map::empty(), Map::empty(), r.items()) == (r.entries_map(), r.fields_map()),
{
    let e = r.entries@;
    let f = r.fields@;
    let items = r.items();
    assert forall|k: int| 0 <= k <= e.len() implies extend_maps(Map::empty(), Map::empty(), #[trigger] items.take(k))
        == (tables_map(e.take(k)), Map::<Seq<char>, Seq<Field>>::empty()) by {
        lemma_extend_entries(e, f, k);
    }
    assert forall|k: int| 0 <= k <= f.len() implies extend_maps(Map::empty(), Map::empty(), #[trigger] items.take(e.len() + k))
        == (tables_map(e), tables_map(f.take(k))) by {
        lemma_extend_fields(e, f, k);
    }
    assert(e.take(e.len() as int) =~= e);
    assert(f.take(f.len() as int) =~= f);
    assert(items.take((e.len() + f.len()) as int) =~= items);
}

/// Appending a table whose name comes after all others adds it to the map.
proof fn lemma_push_table<T>(v: Seq<(String, Vec<T>)>, k: int)
    requires
        tables_wf(v),
        0 <= k < v.len(),
    ensures
        tables_wf(v.take(k)),
        tables_map(v.take(k + 1)) == tables_map(v.take(k)).insert(v[k].0@, v[k].1@),
{
    let p = v.take(k);
    assert forall|a: int, b: int| 0 <= a < b < table_names(p).len() implies crate::memory_map::tables::name_lt(
        #[trigger] table_names(p)[a],
        #[trigger] table_names(p)[b],
    ) by {
        assert(table_names(p)[a] == table_names(v)[a] && table_names(p)[b] == table_names(v)[b]);
    }
    assert forall|j: int| 0 <= j < k implies crate::memory_map::tables::name_lt(p[j].0@, v[k].0@) by {
        assert(table_names(v)[j] == v[j].0@ && table_names(v)[k] == v[k].0@);
    }
    lemma_insert_at(p, k, v[k]);
    assert(p.insert(k, v[k]) =~= v.take(k + 1));
}

proof fn lemma_extend_entries(
    e: Seq<(String, Vec<ResolvedEntry>)>,
    f: Seq<(String, Vec<Field>)>,
    k: int,
)
    requires
        tables_wf(e),
        0 <= k <= e.len(),
    ensures
        extend_maps(Map::empty(), Map::empty(), table_items(e, f).take(k)) == (
            tables_map(e.take(k)),
            Map::<Seq<char>, Seq<Field>>::empty(),
        ),
    decreases k,
{
    let items = table_items(e, f);
    if k == 0 {
        assert(tables_map(e.take(0)) =~= Map::<Seq<char>, Seq<ResolvedEntry>>::empty());
    } else {
        lemma_extend_entries(e, f, k - 1);
        assert(items.take(k).drop_last() =~= items.take(k - 1));
        assert(items.take(k).last() == EntryOrField::Entry(e[k - 1]));
        lemma_push_table(e, k - 1);
    }
}

proof fn lemma_extend_fields(
    e: Seq<(String, Vec<ResolvedEntry>)>,
    f: Seq<(String, Vec<Field>)>,
    k: int,
)
    requires
        tables_wf(e),
        tables_wf(f),
        0 <= k <= f.len(),
    ensures
        extend_maps(Map::empty(), Map::empty(), table_items(e, f).take(e.len() + k)) == (
            tables_map(e),
            tables_map(f.take(k)),
        ),
    decreases k,
{
    let items = table_items(e, f);
    if k == 0 {
        lemma_extend_entries(e, f, e.len() as int);
        assert(e.take(e.len() as int) =~= e);
        assert(tables_map(f.take(0)) =~= Map::<Seq<char>, Seq<Field>>::empty());
    } else {
        lemma_extend_fields(e, f, k - 1);
        assert(items.take(e.len() + k).drop_last() =~= items.take(e.len() + k - 1));
        assert(items.take(e.len() + k).last() == EntryOrField::Field(f[k - 1]));
        lemma_push_table(f, k - 1);
    }
}

/// Whether item `a` is handed out before item `b`: tables of entries before tables of
/// fields, and within a kind, in strictly increasing name order.
pub open spec fn item_precedes(a: EntryOrField, b: EntryOrField) -> bool {
    match (a, b) {
        (EntryOrField::Entry(x), EntryOrField::Entry(y)) => crate::memory_map::tables::name_lt(x.0@, y.0@),
        (EntryOrField::Entry(_), EntryOrField::Field(_)) => true,
        (EntryOrField::Field(x), EntryOrField::Field(y)) => crate::memory_map::tables::name_lt(x.0@, y.0@),
        (EntryOrField::Field(_), EntryOrField::Entry(_)) => false,
    }
}

/// The tables of a resolved map are handed out in order: tables of entries first, then
/// tables of fields, each kind in strictly increasing name order.
pub proof fn lemma_items_ordered(r: ResolvedMemoryMap)
    requires
        r.wf(),
    ensures
        forall|i: int, j: int| 0 <= i < j < r.items().len() ==> item_precedes(#[trigger] r.items()[i], #[trigger] r.items()[j]),
{
    let e = r.entries@;
    let f = r.fields@;
    let items = r.items();
    assert forall|i: int, j: int| 0 <= i < j < items.len() implies item_precedes(
        #[trigger] items[i],
        #[trigger] items[j],
    ) by {
        let n = e.len() as int;
        if j < n {
            assert(items[i] == EntryOrField::Entry(e[i]) && items[j] == EntryOrField::Entry(e[j]));
            assert(table_names(e)[i] == e[i].0@ && table_names(e)[j] == e[j].0@);
        } else if i < n {
            assert(items[i] == EntryOrField::Entry(e[i]) && items[j] == EntryOrField::Field(f[j - n]));
        } else {
            assert(items[i] == EntryOrField::Field(f[i - n]) && items[j] == EntryOrField::Field(f[j - n]));
            assert(table_names(f)[i - n] == f[i - n].0@ && table_names(f)[j - n] == f[j - n].0@);
        }
    }
}

/// What successive calls of `MemoryTableIter::next` return, starting from the tables still to
/// be handed out, as `next` says of one call: the first remaining table, or nothing once none
/// remain.
pub open spec fn calls_results(remaining: Seq<EntryOrField>, calls: nat) -> Seq<Option<EntryOrField>>
    decreases calls,
{
    if calls == 0 {
        Seq::empty()
    } else if remaining.len() == 0 {
        seq![None].add(calls_results(remaining, (calls - 1) as nat))
    } else {
        seq![Some(remaining[0])].add(calls_results(remaining.drop_first(), (calls - 1) as nat))
    }
}

proof fn lemma_calls_results(remaining: Seq<EntryOrField>, calls: nat)
    ensures
        calls_results(remaining, calls).len() == calls,
        forall|k: int|
            0 <= k < calls ==> #[trigger] calls_results(remaining, calls)[k] == if k < remaining.len() {
                Some(remaining[k])
            } else {
                None
            },
    decreases calls,
{
    if calls > 0 {
        if remaining.len() == 0 {
            lemma_calls_results(remaining, (calls - 1) as nat);
        } else {
            lemma_calls_results(remaining.drop_first(), (calls - 1) as nat);
        }
        let r = calls_results(remaining, calls);
        assert forall|k: int| 0 <= k < calls implies #[trigger] r[k] == if k < remaining.len() {
            Some(remaining[k])
        } else {
            None
        } by {
            if 0 < k < remaining.len() {
                assert(remaining.drop_first()[k - 1] == remaining[k]);
            }
        }
    }
}

/// Iterating a resolved map hands out every table exactly once and then nothing: the calls of
/// `next` on `into_iter`'s result return its tables of entries, then its tables of fields, each
/// kind in strictly increasing name order, and `None` on that call and on every later one.
pub proof fn lemma_iteration(r: ResolvedMemoryMap, calls: nat)
    requires
        r.wf(),
    ensures
        calls_results(r.items(), calls).len() == calls,
        forall|k: int|
            0 <= k < calls ==> #[trigger] calls_results(r.items(), calls)[k] == if k < r.items().len() {
                Some(r.items()[k])
            } else {
                None
            },
        forall|i: int, j: int|
            #![trigger calls_results(r.items(), calls)[i], calls_results(r.items(), calls)[j]]
            0 <= i < j < calls && calls_results(r.items(), calls)[j] is Some ==> (calls_results(
                r.items(),
                calls,
            )[i] is Some) && item_precedes(
                calls_results(r.items(), calls)[i]->0,
                calls_results(r.items(), calls)[j]->0,
            ),
        extend_maps(Map::empty(), Map::empty(), r.items()) == (r.entries_map(), r.fields_map()),
{
    lemma_calls_results(r.items(), calls);
    lemma_items_ordered(r);
    lemma_extend_restores(r);
    let res = calls_results(r.items(), calls);
    assert forall|i: int, j: int|
        #![trigger res[i], res[j]]
        0 <= i < j < calls && res[j] is Some implies (res[i] is Some) && item_precedes(
            res[i]->0,
            res[j]->0,
        ) by {
        assert(res[i] == Some(r.items()[i]));
        assert(res[j] == Some(r.items()[j]));
    }
}

/// Whether some element is a cluster named `k`.
spec fn has_cluster_named(cs: Seq<Composite>, k: Seq<char>) -> bool {
    exists|i: int| 0 <= i < cs.len() && (#[trigger] cs[i] matches Composite::Cluster(c) && c.name@ == k)
}

/// Whether no two clusters among the elements share a name.
spec fn clusters_distinct(cs: Seq<Composite>) -> bool {
    forall|i: int, j: int|
        0 <= i < j < cs.len() ==> !(#[trigger] cs[i] matches Composite::Cluster(a) && #[trigger] cs[j] matches Composite::Cluster(b)
            && a.name@ == b.name@)
}

/// Whether no name occurs twice.
spec fn names_distinct(s: Seq<Seq<char>>) -> bool {
    forall|i: int, j: int| 0 <= i < j < s.len() ==> #[trigger] s[i] != #[trigger] s[j]
}

proof fn lemma_first_repeat_none(s: Seq<Seq<char>>)
    ensures
        first_repeat(s) is None <==> names_distinct(s),
    decreases s.len(),
{
    if s.len() > 0 {
        let t = s.drop_last();
        lemma_first_repeat_none(t);
        if names_distinct(s) {
            assert(names_distinct(t)) by {
                assert forall|i: int, j: int| 0 <= i < j < t.len() implies #[trigger] t[i] != #[trigger] t[j] by {
                    assert(t[i] == s[i] && t[j] == s[j]);
                }
            }
            if t.contains(s.last()) {
                let i = choose|i: int| 0 <= i < t.len() && t[i] == s.last();
                assert(s[i] == s[s.len() - 1]);
            }
        }
        if first_repeat(s) is None {
            assert forall|i: int, j: int| 0 <= i < j < s.len() implies #[trigger] s[i] != #[trigger] s[j] by {
                if j == s.len() - 1 {
                    assert(t[i] == s[i]);
                    if s[i] == s[j] {
                        assert(t.contains(s.last()));
                    }
                } else {
                    assert(t[i] == s[i] && t[j] == s[j]);
                }
            }
        }
    }
}

proof fn lemma_cluster_names_kinds(cs: Seq<Composite>)
    ensures
        forall|k: Seq<char>| #[trigger] cluster_names(cs).contains(k) <==> has_cluster_named(cs, k),
        names_distinct(cluster_names(cs)) <==> clusters_distinct(cs),
    decreases cs.len(),
{
    if cs.len() > 0 {
        let p = cs.drop_last();
        lemma_cluster_names_kinds(p);
        let rest = cluster_names(p);
        let n = cs.len() - 1;
        assert forall|k: Seq<char>| #[trigger] cluster_names(cs).contains(k) <==> has_cluster_named(cs, k) by {
            if has_cluster_named(p, k) {
                let i = choose|i: int| 0 <= i < p.len() && (#[trigger] p[i] matches Composite::Cluster(c) && c.name@ == k);
                assert(cs[i] == p[i]);
            }
            if has_cluster_named(cs, k) {
                let i = choose|i: int| 0 <= i < cs.len() && (#[trigger] cs[i] matches Composite::Cluster(c) && c.name@ == k);
                if i < n {
                    assert(p[i] == cs[i]);
                    assert(has_cluster_named(p, k));
                }
            }
            match cs.last() {
                Composite::Cluster(c) => {
                    if cluster_names(cs).contains(k) {
                        let j = choose|j: int| 0 <= j < cluster_names(cs).len() && cluster_names(cs)[j] == k;
                        if j < rest.len() {
                            assert(rest[j] == k);
                        } else {
                            assert(cs[n] == cs.last());
                        }
                    }
                    if rest.contains(k) {
                        let j = choose|j: int| 0 <= j < rest.len() && rest[j] == k;
                        assert(cluster_names(cs)[j] == k);
                    }
                    if c.name@ == k {
                        assert(cluster_names(cs)[rest.len() as int] == k);
                    }
                },
                _ => {},
            }
        }
        // distinctness
        let whole = cluster_names(cs);
        match cs.last() {
            Composite::Cluster(c) => {
                assert(whole == rest.push(c.name@));
                if names_distinct(whole) {
                    assert forall|i: int, j: int|
                        0 <= i < j < cs.len() implies !(#[trigger] cs[i] matches Composite::Cluster(a)
                        && #[trigger] cs[j] matches Composite::Cluster(b) && a.name@ == b.name@) by {
                        if j < n {
                            assert(cs[i] == p[i] && cs[j] == p[j]);
                            assert(names_distinct(rest)) by {
                                assert forall|x: int, y: int| 0 <= x < y < rest.len() implies #[trigger] rest[x] != #[trigger] rest[y] by {
                                    assert(whole[x] == rest[x] && whole[y] == rest[y]);
                                }
                            }
                        } else {
                            if let Composite::Cluster(a) = cs[i] {
                                if a.name@ == c.name@ {
                                    assert(cs[i] == p[i]);
                                    assert(has_cluster_named(p, c.name@));
                                    assert(rest.contains(c.name@));
                                    let x = choose|x: int| 0 <= x < rest.len() && rest[x] == c.name@;
                                    assert(whole[x] == whole[rest.len() as int]);
                                }
                            }
                        }
                    }
                }
                if clusters_distinct(cs) {
                    assert(clusters_distinct(p)) by {
                        assert forall|i: int, j: int|
                            0 <= i < j < p.len() implies !(#[trigger] p[i] matches Composite::Cluster(a)
                            && #[trigger] p[j] matches Composite::Cluster(b) && a.name@ == b.name@) by {
                            assert(cs[i] == p[i] && cs[j] == p[j]);
                        }
                    }
                    if rest.contains(c.name@) {
                        assert(has_cluster_named(p, c.name@));
                        let i = choose|i: int| 0 <= i < p.len() && (#[trigger] p[i] matches Composite::Cluster(d) && d.name@ == c.name@);
                        assert(cs[i] == p[i]);
                        assert(cs[n] == cs.last());
                    }
                    assert forall|x: int, y: int| 0 <= x < y < whole.len() implies #[trigger] whole[x] != #[trigger] whole[y] by {
                        if y < rest.len() {
                            assert(whole[x] == rest[x] && whole[y] == rest[y]);
                        } else {
                            assert(whole[x] == rest[x]);
                            if whole[x] == whole[y] {
                                assert(rest.contains(c.name@));
                            }
                        }
                    }
                }
            },
            _ => {
                assert(whole == rest);
                assert(clusters_distinct(cs) <==> clusters_distinct(p)) by {
                    if clusters_distinct(p) {
                        assert forall|i: int, j: int|
                            0 <= i < j < cs.len() implies !(#[trigger] cs[i] matches Composite::Cluster(a)
                            && #[trigger] cs[j] matches Composite::Cluster(b) && a.name@ == b.name@) by {
                            if j < n {
                                assert(cs[i] == p[i] && cs[j] == p[j]);
                            } else {
                                assert(cs[j] == cs.last());
                            }
                        }
                    }
                    if clusters_distinct(cs) {
                        assert forall|i: int, j: int|
                            0 <= i < j < p.len() implies !(#[trigger] p[i] matches Composite::Cluster(a)
                            && #[trigger] p[j] matches Composite::Cluster(b) && a.name@ == b.name@) by {
                            assert(cs[i] == p[i] && cs[j] == p[j]);
                        }
                    }
                }
            },
        }
    } else {
        assert(cluster_names(cs) =~= Seq::<Seq<char>>::empty());
    }
}

/// The tables that resolving a memory map makes are named by the kinds of its top-level
/// elements: when the definitions have no repeated name, there is an `Anonymous` table and one
/// for each element that is a cluster, and no other (arrays, entries, references and map files
/// make none); resolving succeeds exactly when no cluster is named `Anonymous` and no two
/// clusters share a name. When the definitions repeat a name, only the `Anonymous` table is
/// made.
pub proof fn lemma_resolved_tables(mm: MemoryMap)
    ensures
        first_repeat(composite_names(mm.def@)) is Some ==> resolved_table_names(mm) == seq![
            "Anonymous"@,
        ],
        first_repeat(composite_names(mm.def@)) is None ==> forall|k: Seq<char>|
            #[trigger] resolved_table_names(mm).contains(k) <==> (k == "Anonymous"@ || exists|i: int|
                0 <= i < mm.map@.len() && (#[trigger] mm.map@[i] matches Composite::Cluster(c)
                    && c.name@ == k)),
        first_repeat(composite_names(mm.def@)) is None ==> (first_repeat(resolved_table_names(mm))
            is None <==> ((forall|i: int|
            0 <= i < mm.map@.len() ==> !(#[trigger] mm.map@[i] matches Composite::Cluster(c)
                && c.name@ == "Anonymous"@)) && (forall|i: int, j: int|
            0 <= i < j < mm.map@.len() ==> !(#[trigger] mm.map@[i] matches Composite::Cluster(a)
                && #[trigger] mm.map@[j] matches Composite::Cluster(b) && a.name@ == b.name@)))),
{
    let all = resolved_table_names(mm);
    let a: Seq<char> = "Anonymous"@;
    if first_repeat(composite_names(mm.def@)) is Some {
        assert(all =~= seq![a]);
    } else {
        let cs = mm.map@;
        let cl = cluster_names(cs);
        lemma_cluster_names_kinds(cs);
        lemma_first_repeat_none(all);
        assert(all == seq![a] + cl);
        assert forall|k: Seq<char>| #[trigger] all.contains(k) <==> (k == a || cl.contains(k)) by {
            if all.contains(k) {
                let j = choose|j: int| 0 <= j < all.len() && all[j] == k;
                if j > 0 {
                    assert(cl[j - 1] == k);
                }
            }
            if cl.contains(k) {
                let j = choose|j: int| 0 <= j < cl.len() && cl[j] == k;
                assert(all[j + 1] == k);
            }
            assert(all[0] == a);
        }
        assert(names_distinct(all) <==> (!cl.contains(a) && names_distinct(cl))) by {
            if names_distinct(all) {
                if cl.contains(a) {
                    let j = choose|j: int| 0 <= j < cl.len() && cl[j] == a;
                    assert(all[j + 1] == all[0]);
                }
                assert forall|x: int, y: int| 0 <= x < y < cl.len() implies #[trigger] cl[x] != #[trigger] cl[y] by {
                    assert(all[x + 1] == cl[x] && all[y + 1] == cl[y]);
                }
            }
            if !cl.contains(a) && names_distinct(cl) {
                assert forall|x: int, y: int| 0 <= x < y < all.len() implies #[trigger] all[x] != #[trigger] all[y] by {
                    if x == 0 {
                        assert(all[y] == cl[y - 1]);
                    } else {
                        assert(all[x] == cl[x - 1] && all[y] == cl[y - 1]);
                    }
                }
            }
        }
        assert(cl.contains(a) <==> has_cluster_named(cs, a));
    }
}

/// Whether an item is a table of entries named `k`.
pub open spec fn entry_table_named(item: EntryOrField, k: Seq<char>) -> bool {
    item matches EntryOrField::Entry((n, _)) && n@ == k
}

/// Whether an item is a table of fields named `k`.
pub open spec fn field_table_named(item: EntryOrField, k: Seq<char>) -> bool {
    item matches EntryOrField::Field((n, _)) && n@ == k
}

proof fn lemma_extend_entry_last(
    entries: Map<Seq<char>, Seq<ResolvedEntry>>,
    fields: Map<Seq<char>, Seq<Field>>,
    items: Seq<EntryOrField>,
    k: Seq<char>,
    i: int,
)
    requires
        0 <= i < items.len(),
        entry_table_named(items[i], k),
        forall|j: int| i < j < items.len() ==> !entry_table_named(#[trigger] items[j], k),
    ensures
        extend_maps(entries, fields, items).0.contains_key(k),
        extend_maps(entries, fields, items).0[k] == items[i]->Entry_0.1@,
    decreases items.len(),
{
    let n = items.len() - 1;
    if i < n {
        let p = items.drop_last();
        assert(!entry_table_named(items[n], k));
        assert(p[i] == items[i]);
        assert forall|j: int| i < j < p.len() implies !entry_table_named(#[trigger] p[j], k) by {
            assert(p[j] == items[j]);
        }
        lemma_extend_entry_last(entries, fields, p, k, i);
    }
}

proof fn lemma_extend_field_last(
    entries: Map<Seq<char>, Seq<ResolvedEntry>>,
    fields: Map<Seq<char>, Seq<Field>>,
    items: Seq<EntryOrField>,
    k: Seq<char>,
    i: int,
)
    requires
        0 <= i < items.len(),
        field_table_named(items[i], k),
        forall|j: int| i < j < items.len() ==> !field_table_named(#[trigger] items[j], k),
    ensures
        extend_maps(entries, fields, items).1.contains_key(k),
        extend_maps(entries, fields, items).1[k] == items[i]->Field_0.1@,
    decreases items.len(),
{
    let n = items.len() - 1;
    if i < n {
        let p = items.drop_last();
        assert(!field_table_named(items[n], k));
        assert(p[i] == items[i]);
        assert forall|j: int| i < j < p.len() implies !field_table_named(#[trigger] p[j], k) by {
            assert(p[j] == items[j]);
        }
        lemma_extend_field_last(entries, fields, p, k, i);
    }
}

proof fn lemma_extend_entry_absent(
    entries: Map<Seq<char>, Seq<ResolvedEntry>>,
    fields: Map<Seq<char>, Seq<Field>>,
    items: Seq<EntryOrField>,
    k: Seq<char>,
)
    requires
        forall|i: int| 0 <= i < items.len() ==> !entry_table_named(#[trigger] items[i], k),
    ensures
        extend_maps(entries, fields, items).0.contains_key(k) == entries.contains_key(k),
        entries.contains_key(k) ==> extend_maps(entries, fields, items).0[k] == entries[k],
    decreases items.len(),
{
    if items.len() > 0 {
        let p = items.drop_last();
        assert(!entry_table_named(items[items.len() - 1], k));
        assert forall|i: int| 0 <= i < p.len() implies !entry_table_named(#[trigger] p[i], k) by {
            assert(p[i] == items[i]);
        }
        lemma_extend_entry_absent(entries, fields, p, k);
    }
}

proof fn lemma_extend_field_absent(
    entries: Map<Seq<char>, Seq<ResolvedEntry>>,
    fields: Map<Seq<char>, Seq<Field>>,
    items: Seq<EntryOrField>,
    k: Seq<char>,
)
    requires
        forall|i: int| 0 <= i < items.len() ==> !field_table_named(#[trigger] items[i], k),
    ensures
        extend_maps(entries, fields, items).1.contains_key(k) == fields.contains_key(k),
        fields.contains_key(k) ==> extend_maps(entries, fields, items).1[k] == fields[k],
    decreases items.len(),
{
    if items.len() > 0 {
        let p = items.drop_last();
        assert(!field_table_named(items[items.len() - 1], k));
        assert forall|i: int| 0 <= i < p.len() implies !field_table_named(#[trigger] p[i], k) by {
            assert(p[i] == items[i]);
        }
        lemma_extend_field_absent(entries, fields, p, k);
    }
}

/// Putting tables into a resolved map: after `extend`, each name that an item of entries
/// carries names the table of the last such item, whether or not the map had a table of that
/// name before, and likewise for tables of fields; a name that no item of a kind carries keeps
/// the table of that kind it had, or stays absent.
pub proof fn lemma_extend_last_wins(
    entries: Map<Seq<char>, Seq<ResolvedEntry>>,
    fields: Map<Seq<char>, Seq<Field>>,
    items: Seq<EntryOrField>,
)
    ensures
        forall|i: int, k: Seq<char>|
            0 <= i < items.len() && #[trigger] entry_table_named(items[i], k) && (forall|j: int|
                i < j < items.len() ==> !entry_table_named(#[trigger] items[j], k)) ==> extend_maps(
                entries,
                fields,
                items,
            ).0.contains_key(k) && extend_maps(entries, fields, items).0[k] == items[i]->Entry_0.1@,
        forall|i: int, k: Seq<char>|
            0 <= i < items.len() && #[trigger] field_table_named(items[i], k) && (forall|j: int|
                i < j < items.len() ==> !field_table_named(#[trigger] items[j], k)) ==> extend_maps(
                entries,
                fields,
                items,
            ).1.contains_key(k) && extend_maps(entries, fields, items).1[k] == items[i]->Field_0.1@,
        forall|k: Seq<char>|
            (forall|i: int| 0 <= i < items.len() ==> !entry_table_named(#[trigger] items[i], k)) ==> (
            #[trigger] extend_maps(entries, fields, items).0.contains_key(k) == entries.contains_key(k)
                && (entries.contains_key(k) ==> extend_maps(entries, fields, items).0[k]
                == entries[k])),
        forall|k: Seq<char>|
            (forall|i: int| 0 <= i < items.len() ==> !field_table_named(#[trigger] items[i], k)) ==> (
            #[trigger] extend_maps(entries, fields, items).1.contains_key(k) == fields.contains_key(k)
                && (fields.contains_key(k) ==> extend_maps(entries, fields, items).1[k]
                == fields[k])),
{
    assert forall|i: int, k: Seq<char>|
        0 <= i < items.len() && #[trigger] entry_table_named(items[i], k) && (forall|j: int|
            i < j < items.len() ==> !entry_table_named(#[trigger] items[j], k)) implies extend_maps(
        entries,
        fields,
        items,
    ).0.contains_key(k) && extend_maps(entries, fields, items).0[k] == items[i]->Entry_0.1@ by {
        lemma_extend_entry_last(entries, fields, items, k, i);
    }
    assert forall|i: int, k: Seq<char>|
        0 <= i < items.len() && #[trigger] field_table_named(items[i], k) && (forall|j: int|
            i < j < items.len() ==> !field_table_named(#[trigger] items[j], k)) implies extend_maps(
        entries,
        fields,
        items,
    ).1.contains_key(k) && extend_maps(entries, fields, items).1[k] == items[i]->Field_0.1@ by {
        lemma_extend_field_last(entries, fields, items, k, i);
    }
    assert forall|k: Seq<char>|
        (forall|i: int| 0 <= i < items.len() ==> !entry_table_named(#[trigger] items[i], k)) implies (
        #[trigger] extend_maps(entries, fields, items).0.contains_key(k) == entries.contains_key(k)
            && (entries.contains_key(k) ==> extend_maps(entries, fields, items).0[k]
            == entries[k])) by {
        lemma_extend_entry_absent(entries, fields, items, k);
    }
    assert forall|k: Seq<char>|
        (forall|i: int| 0 <= i < items.len() ==> !field_table_named(#[trigger] items[i], k)) implies (
        #[trigger] extend_maps(entries, fields, items).1.contains_key(k) == fields.contains_key(k)
            && (fields.contains_key(k) ==> extend_maps(entries, fields, items).1[k]
            == fields[k])) by {
        lemma_extend_field_absent(entries, fields, items, k);
    }
}

} // verus!
