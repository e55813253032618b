use vhdl_doc::memory_map::record::{
    Array, Cluster, Entry, Index, MapFile, Record, Reference, Resolver, Serial,
};
use vstd::hash_map::StringHashMap;

fn entry(name: &str, bytes: u32) -> Entry {
    Entry { name: name.to_string(), address: None, access: None, bytes, fields: Vec::new() }
}

fn array(element: Serial, index: Vec<Index>, increment: Option<Vec<u64>>) -> Array {
    Array {
        enumeration_index: -1,
        prepend_delim: None,
        append_delim: None,
        address: None,
        access: None,
        element,
        index,
        increment,
    }
}

#[test]
fn record_entry_size_is_its_bytes() {
    let defs: StringHashMap<&Record> = StringHashMap::new();
    let e = entry("a", 4);
    assert_eq!(e.size(&defs), 4);
    let r = Record::Entry(entry("a", 4));
    assert_eq!(r.size(&defs), 4);
}

#[test]
fn cluster_size_sums_its_records() {
    let defs: StringHashMap<&Record> = StringHashMap::new();
    let c = Cluster {
        name: "c".to_string(),
        address: None,
        access: None,
        elements: vec![Record::Entry(entry("a", 4)), Record::Entry(entry("b", 2))],
    };
    assert_eq!(c.size(&defs), 6);
    assert_eq!(Record::Cluster(c).size(&defs), 6);
    let empty = Cluster { name: "e".to_string(), address: None, access: None, elements: vec![] };
    assert_eq!(empty.size(&defs), 0);
}

#[test]
fn array_size_contiguous_and_strided() {
    let defs: StringHashMap<&Record> = StringHashMap::new();
    let contiguous = array(Serial::Entry(entry("a", 4)), vec![Index::Length(3)], None);
    assert_eq!(contiguous.size(&defs), 12);
    let two_dims = array(
        Serial::Entry(entry("a", 4)),
        vec![Index::Range { high: 3, low: 2 }, Index::List(vec![None, None, None])],
        None,
    );
    assert_eq!(two_dims.size(&defs), 24);
    let strided =
        array(Serial::Entry(entry("a", 4)), vec![Index::Length(3)], Some(vec![16]));
    assert_eq!(strided.size(&defs), 36);
    let strided_two = array(
        Serial::Entry(entry("a", 4)),
        vec![Index::Length(2), Index::Length(3)],
        Some(vec![4, 16]),
    );
    assert_eq!(strided_two.size(&defs), 4 + 4 + 32);
    let mismatched =
        array(Serial::Entry(entry("a", 4)), vec![Index::Length(3)], Some(vec![16, 32]));
    assert_eq!(mismatched.size(&defs), 12);
    let empty = array(Serial::Entry(entry("a", 4)), vec![Index::Length(0)], Some(vec![16]));
    assert_eq!(empty.size(&defs), 0);
    let backwards =
        array(Serial::Entry(entry("a", 4)), vec![Index::Range { high: 1, low: 2 }], None);
    assert_eq!(backwards.size(&defs), 0);
}

#[test]
fn size_saturates() {
    let defs: StringHashMap<&Record> = StringHashMap::new();
    let huge = array(
        Serial::Entry(entry("a", 4)),
        vec![Index::Range { high: u64::MAX, low: 0 }],
        None,
    );
    assert_eq!(huge.size(&defs), u64::MAX);
}

#[test]
fn reference_size_follows_definitions() {
    let target = Record::Entry(entry("t", 8));
    let chained = Record::Reference(Reference("t".to_string()));
    let mut defs: StringHashMap<&Record> = StringHashMap::new();
    defs.insert("t".to_string(), &target);
    defs.insert("u".to_string(), &chained);
    assert_eq!(Record::Reference(Reference("t".to_string())).size(&defs), 8);
    assert_eq!(Record::Reference(Reference("u".to_string())).size(&defs), 8);
    assert_eq!(Record::Reference(Reference("missing".to_string())).size(&defs), 0);
    assert_eq!(Record::MapFile(MapFile("other".to_string())).size(&defs), 0);
    let of_refs = array(Serial::Reference(Reference("t".to_string())), vec![Index::Length(2)], None);
    assert_eq!(of_refs.size(&defs), 16);
}

#[test]
fn reference_cycle_counts_no_bytes() {
    let looping = Record::Reference(Reference("self".to_string()));
    let mut defs: StringHashMap<&Record> = StringHashMap::new();
    defs.insert("self".to_string(), &looping);
    assert_eq!(Record::Reference(Reference("self".to_string())).size(&defs), 0);
}
