use vhdl_doc::memory_map::field::{FieldError, FieldType, Value};
use vhdl_doc::memory_map::record::{self, Parent};
use vhdl_doc::memory_map::resolved::{EntryOrField, ResolveError, ResolvedMemoryMap};
use vhdl_doc::memory_map::{Access, Field, Name};

fn named_field(field_type: FieldType) -> Field {
    Field {
        name: "Mode".to_string(),
        offset: None,
        access: None,
        field_type,
        value: None,
        unit: None,
        min: None,
        max: None,
    }
}

#[test]
fn field_error_messages() {
    let f = named_field(FieldType::Unsigned(4));
    assert_eq!(
        FieldError::OffsetAlreadySet.message(&f, "", ""),
        "Internal error. Attempted to overwrite provided field \"offset\""
    );
    assert_eq!(
        FieldError::StringTooLong.message(&f, "abc", ""),
        "Provided string value is longer than the field type"
    );
    assert_eq!(
        FieldError::ValueTypeMismatch.message(&f, "true", "unsigned(3 downto 0)"),
        "Provided value true doesn't match the field type unsigned(3 downto 0)"
    );
    assert_eq!(
        FieldError::NumberTooWide.message(&f, "16", ""),
        "Numeric value 16 requires more than 4 bits specified by the field type"
    );
    assert_eq!(
        FieldError::EnumNumberNotInMap.message(&f, "7", ""),
        "Numeric value 7 is not a value specified by the enum field type of field Mode"
    );
    assert_eq!(
        FieldError::EnumStringNotInMap.message(&f, "nine", ""),
        "String value nine is not a key specified by the enum field type of field Mode"
    );
    assert_eq!(
        FieldError::FixedOutOfRange.message(&f, "40", "ufixed(3 downto -2)"),
        "Numeric value 40 cannot be represented by the field type ufixed(3 downto -2)"
    );
    assert_eq!(
        FieldError::FixedValueTypeMismatch.message(&f, "1", ""),
        "Provided value 1 doesn't match the field type unsigned"
    );
    let wide = named_field(FieldType::Signed(12));
    assert_eq!(
        FieldError::NumberTooWide.message(&wide, "-5000", ""),
        "Numeric value -5000 requires more than 12 bits specified by the field type"
    );
}

#[test]
fn set_offset_twice_gives_the_message() {
    let mut f = named_field(FieldType::Bit);
    assert_eq!(f.set_offset(3), Ok(()));
    let e = f.set_offset(4).unwrap_err();
    assert_eq!(e.message(&f, "", ""), "Internal error. Attempted to overwrite provided field \"offset\"");
    assert_eq!(f.get_offset(), Some(3));
    let mut v = named_field(FieldType::Bit);
    v.value = Some(Value::Unsigned(1));
    assert_eq!(v.resolve_value(true), Err(FieldError::ValueTypeMismatch));
}

#[test]
fn increments_keep_table_and_access() {
    let mut p = Parent::default_with_table("regs");
    for size in [4u64, 8, 0, 16] {
        p.increment_address(size);
        assert_eq!(p.get_access(), Access::Read);
        assert_eq!(p.get_table(), "regs");
    }
    assert_eq!(p.get_address(), 28);
    let mut q = Parent::default();
    q.increment_address(u64::MAX);
    assert_eq!(q.get_access(), Access::Read);
    assert_eq!(q.get_table(), "Anonymous");
    assert_eq!(q.get_address(), u64::MAX);
}

#[test]
fn iteration_hands_out_each_table_once_then_nothing() {
    let mut r = ResolvedMemoryMap::default();
    assert!(r.new_field_table("z").is_ok());
    assert!(r.new_entry_table("b").is_ok());
    assert!(r.new_field_table("a").is_ok());
    assert!(r.new_entry_table("a").is_ok());
    let mut it = r.into_iter();
    let mut seen = Vec::new();
    for _ in 0..7 {
        seen.push(match it.next() {
            Some(EntryOrField::Entry((name, _))) => format!("entries {}", name),
            Some(EntryOrField::Field((name, _))) => format!("fields {}", name),
            None => "none".to_string(),
        });
    }
    assert_eq!(
        seen,
        vec!["entries a", "entries b", "fields a", "fields z", "none", "none", "none"]
    );
}

#[test]
fn records_have_names() {
    let e = record::Entry {
        name: "ctrl".to_string(),
        address: None,
        access: None,
        bytes: 4,
        fields: Vec::new(),
    };
    let c = record::Cluster {
        name: "ctrl".to_string(),
        address: None,
        access: None,
        elements: Vec::new(),
    };
    assert_eq!(<record::Entry as Name>::kind_name(), "Entry");
    assert_eq!(<record::Cluster as Name>::kind_name(), "Cluster");
    assert_eq!(<record::Array as Name>::kind_name(), "Array");
    assert_eq!(Name::name(&c), "ctrl");
    let err = ResolveError::duplicate(e, c);
    assert_eq!(
        err.message,
        "Found duplicate name \"ctrl\". First instance is composite \"Entry\"; second instance is composite \"Cluster\""
    );
}
