use vhdl_doc::memory_map::composite::{Array, Cluster, Composite, Entry, Index};
use vhdl_doc::memory_map::record::{self, default_name_index, Parent, Record, Reference, Serial};
use vhdl_doc::memory_map::resolved::{
    EntryOrField, LinkOrType, Range, ResolveError, ResolvedMemoryMap,
};
use vhdl_doc::memory_map::field::FieldType;
use vhdl_doc::memory_map::{Access, MemoryMap, Name, Protocol};

fn protocol() -> Protocol {
    Protocol { name: None, address_max: 0xFFFF_FFFF, address_unit: 1, address_align: 4 }
}

fn entry(name: &str) -> Entry {
    Entry { name: name.to_string(), address: None, access: None, bytes: 1, fields: Vec::new() }
}

fn cluster(name: &str) -> Cluster {
    Cluster { name: name.to_string(), address: None, access: None, elements: Vec::new() }
}

fn table_names(r: ResolvedMemoryMap) -> Vec<String> {
    let mut it = r.into_iter();
    let mut names = Vec::new();
    while let Some(item) = it.next() {
        match item {
            EntryOrField::Entry((name, _)) => names.push(format!("entries {}", name)),
            EntryOrField::Field((name, _)) => names.push(format!("fields {}", name)),
        }
    }
    names
}

#[test]
fn definitions_by_name() {
    let mm = MemoryMap {
        protocol: protocol(),
        map: Vec::new(),
        def: vec![
            Composite::Entry(entry("A")),
            Composite::Cluster(cluster("B")),
            Composite::Reference { reference: "C".to_string() },
        ],
    };
    let defs = mm.get_def_map().ok().expect("distinct names");
    assert_eq!(defs.len(), 3);
    assert_eq!(defs.get("B").map(|c| c.name()), Some("B"));
    assert!(defs.get("D").is_none());
}

#[test]
fn repeated_definition_is_refused() {
    let mm = MemoryMap {
        protocol: protocol(),
        map: Vec::new(),
        def: vec![
            Composite::Entry(entry("A")),
            Composite::Cluster(cluster("B")),
            Composite::MapFile { map: "B".to_string() },
            Composite::Entry(entry("A")),
        ],
    };
    match mm.get_def_map() {
        Ok(_) => panic!("expected an error"),
        Err(e) => {
            assert_eq!(e.name, "B");
            assert_eq!(e.message(), "Definition \"B\" already exists.");
        }
    }
}

#[test]
fn resolve_makes_a_table_per_cluster_in_name_order() {
    let mm = MemoryMap {
        protocol: protocol(),
        map: vec![
            Composite::Cluster(cluster("Zeta")),
            Composite::Entry(entry("Loose")),
            Composite::Cluster(cluster("Beta")),
        ],
        def: Vec::new(),
    };
    let resolved = ResolvedMemoryMap::resolve(&mm).ok().expect("no repeated names");
    assert_eq!(table_names(resolved), vec!["entries Anonymous", "entries Beta", "entries Zeta"]);
}

#[test]
fn resolve_refuses_a_repeated_cluster() {
    let mm = MemoryMap {
        protocol: protocol(),
        map: vec![
            Composite::Cluster(cluster("Beta")),
            Composite::Cluster(cluster("Zeta")),
            Composite::Cluster(cluster("Beta")),
        ],
        def: Vec::new(),
    };
    match ResolvedMemoryMap::resolve(&mm) {
        Ok(_) => panic!("expected an error"),
        Err(e) => assert_eq!(
            e.display_text(),
            "Found duplicate cluster name \"Beta\". Resolve the conflict or consider using a reference."
        ),
    }
}

#[test]
fn resolve_refuses_a_cluster_named_anonymous() {
    let mm = MemoryMap {
        protocol: protocol(),
        map: vec![Composite::Cluster(cluster("Anonymous"))],
        def: Vec::new(),
    };
    assert!(ResolvedMemoryMap::resolve(&mm).is_err());
}

#[test]
fn resolve_skips_clusters_when_definitions_repeat() {
    let mm = MemoryMap {
        protocol: protocol(),
        map: vec![Composite::Cluster(cluster("Beta")), Composite::Cluster(cluster("Beta"))],
        def: vec![Composite::Entry(entry("A")), Composite::Entry(entry("A"))],
    };
    let resolved = ResolvedMemoryMap::resolve(&mm).ok().expect("clusters are not read");
    assert_eq!(table_names(resolved), vec!["entries Anonymous"]);
}

#[test]
fn new_tables_and_duplicates() {
    let mut r = ResolvedMemoryMap::default();
    assert!(r.new_entry_table("b").is_ok());
    assert!(r.new_entry_table("a").is_ok());
    match r.new_entry_table("b") {
        Ok(_) => panic!("expected an error"),
        Err(e) => assert_eq!(
            e.message,
            "Found duplicate cluster name \"b\". Resolve the conflict or consider using a reference."
        ),
    }
    assert!(r.new_field_table("f").is_ok());
    match r.new_field_table("f") {
        Ok(_) => panic!("expected an error"),
        Err(e) => assert_eq!(e.message, "Field name f already exists."),
    }
    assert_eq!(table_names(r), vec!["entries a", "entries b", "fields f"]);
}

#[test]
fn tables_are_ordered_by_bytes() {
    let mut r = ResolvedMemoryMap::default();
    for name in ["b", "B", "ab", "a", "é", ""] {
        assert!(r.new_entry_table(name).is_ok());
    }
    assert_eq!(
        table_names(r),
        vec!["entries ", "entries B", "entries a", "entries ab", "entries b", "entries é"]
    );
}

#[test]
fn extend_restores_handed_out_tables() {
    let mut r = ResolvedMemoryMap::default();
    assert!(r.new_entry_table("one").is_ok());
    assert!(r.new_entry_table("two").is_ok());
    assert!(r.new_field_table("bits").is_ok());
    let mut items = Vec::new();
    let mut it = r.into_iter();
    while let Some(item) = it.next() {
        items.push(item);
    }
    let mut copy = ResolvedMemoryMap::default();
    copy.extend(items);
    assert_eq!(table_names(copy), vec!["entries one", "entries two", "fields bits"]);
}

#[test]
fn extend_replaces_tables_of_the_same_name() {
    let mut r = ResolvedMemoryMap::default();
    assert!(r.new_entry_table("x").is_ok());
    r.extend(vec![
        EntryOrField::Entry(("x".to_string(), Vec::new())),
        EntryOrField::Field(("x".to_string(), Vec::new())),
    ]);
    assert_eq!(table_names(r), vec!["entries x", "fields x"]);
}

#[test]
fn rendering_is_empty() {
    let r = ResolvedMemoryMap::default();
    assert_eq!(r.render(), "");
    let result: Result<(), std::io::Error> = r.render_to_writer(Vec::<u8>::new());
    assert!(result.is_ok());
}

#[test]
fn error_messages() {
    let a = Array {
        name: "arr".to_string(),
        address: None,
        access: None,
        elements: Box::new(Composite::Entry(entry("e"))),
        index: Index::Length(2),
        increment: None,
    };
    let e = ResolveError::duplicate(a, cluster("dup"));
    assert_eq!(
        e.message,
        "Found duplicate name \"dup\". First instance is composite \"Array\"; second instance is composite \"Cluster\""
    );
    assert_eq!(ResolveError::def_not_found("X".to_string()).message, "Definition X not found in document");
    assert_eq!(ResolveError::map_not_found("m.toml".to_string()).message, "Map file m.toml not found");
    assert_eq!(<Entry as Name>::kind_name(), "Entry");
}

#[test]
fn ranges_and_links() {
    assert_eq!(Range { start: 5, end: 5 }.display_text(), "5");
    assert_eq!(Range { start: 1, end: 4 }.display_text(), "1..4");
    let link = LinkOrType::Link { text: "Regs".to_string(), link: "#regs".to_string() };
    assert_eq!(link.display_text(0), "[Regs](#regs)");
    assert_eq!(LinkOrType::Type(FieldType::Bit).display_text(0), "std_logic");
}

#[test]
fn parent_context() {
    let p: Parent = Parent::default();
    assert_eq!(p.get_table(), "Anonymous");
    assert_eq!(p.get_address(), 0);
    assert_eq!(p.get_access(), Access::Read);
    let mut q = Parent::default_with_table("Regs");
    q.increment_address(4);
    q.increment_address(8);
    assert_eq!(q.get_table(), "Regs");
    assert_eq!(q.get_address(), 12);
    assert_eq!(default_name_index(), -1);
}

#[test]
fn record_names() {
    let r = Record::Reference(Reference("shared/def".to_string()));
    assert_eq!(r.name(), "shared/def");
    assert_eq!(r.kind_name(), "Reference");
    let arr = record::Array {
        enumeration_index: default_name_index(),
        prepend_delim: None,
        append_delim: None,
        address: None,
        access: None,
        element: Serial::Entry(record::Entry {
            name: "reg".to_string(),
            address: None,
            access: None,
            bytes: 4,
            fields: Vec::new(),
        }),
        index: vec![record::Index::Length(4)],
        increment: None,
    };
    let rec = Record::Array(arr);
    assert_eq!(rec.name(), "reg");
    assert_eq!(rec.kind_name(), "Array");
}

#[test]
fn cluster_elements_in_order() {
    let mut c = cluster("c");
    c.elements.push(Composite::Entry(entry("first")));
    c.elements.push(Composite::Entry(entry("second")));
    let names: Vec<String> = c.into_iter().map(|e| e.name().to_string()).collect();
    assert_eq!(names, vec!["first", "second"]);
}
