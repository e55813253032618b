use std::collections::BTreeMap;
use vhdl_doc::memory_map::field::{ascii_only_string, FieldError, FieldType, FloatBits, Value};
use vhdl_doc::memory_map::{Access, EnumMap, Field};

fn numbers_map() -> EnumMap {
    EnumMap(BTreeMap::from([
        (0u64, "zero".to_string()),
        (1u64, "one".to_string()),
        (2u64, "two".to_string()),
        (3u64, "three".to_string()),
    ]))
}

fn field(field_type: FieldType, value: Option<Value>) -> Field {
    Field {
        name: "Test Field".to_string(),
        offset: None,
        access: None,
        field_type,
        value,
        unit: None,
        min: None,
        max: None,
    }
}

fn value_text(v: &Option<Value>) -> String {
    match v {
        None => "none".to_string(),
        Some(Value::Float(bits)) => format!("float {:#x}", bits.0),
        Some(v) => v.display_text(),
    }
}

#[test]
fn length_of_each_type() {
    assert_eq!(field(FieldType::Bit, None).length(), 1);
    assert_eq!(field(FieldType::Enum { length: 4, map: numbers_map() }, None).length(), 4);
    assert_eq!(field(FieldType::Unsigned(12), None).length(), 12);
    assert_eq!(field(FieldType::Signed(7), None).length(), 7);
    assert_eq!(field(FieldType::UFixed { high: 11, low: -4 }, None).length(), 16);
    assert_eq!(field(FieldType::SFixed { high: 3, low: 0 }, None).length(), 4);
    assert_eq!(field(FieldType::String(3), None).length(), 24);
}

#[test]
fn fixed_length_wraps_when_low_exceeds_high() {
    assert_eq!(field(FieldType::UFixed { high: 0, low: 5 }, None).length(), u32::MAX - 3);
}

#[test]
fn offset_is_set_once() {
    let mut f = field(FieldType::Bit, None);
    assert_eq!(f.get_offset(), None);
    assert_eq!(f.set_offset(4), Ok(()));
    assert_eq!(f.get_offset(), Some(4));
    assert_eq!(f.set_offset(9), Err(FieldError::OffsetAlreadySet));
    assert_eq!(f.get_offset(), Some(4));
}

#[test]
fn string_field_defaults_to_empty() {
    let mut f = field(FieldType::String(4), None);
    assert_eq!(f.resolve_value(true), Ok(()));
    assert_eq!(value_text(&f.value), "");
    assert!(matches!(f.value, Some(Value::String(_))));
}

#[test]
fn string_field_checks_length_and_kind() {
    let mut ok = field(FieldType::String(4), Some(Value::String("abcd".to_string())));
    assert_eq!(ok.resolve_value(true), Ok(()));
    assert_eq!(value_text(&ok.value), "abcd");
    let mut long = field(FieldType::String(4), Some(Value::String("abcde".to_string())));
    assert_eq!(long.resolve_value(true), Err(FieldError::StringTooLong));
    assert_eq!(value_text(&long.value), "abcde");
    let mut wide = field(FieldType::String(4), Some(Value::String("ééé".to_string())));
    assert_eq!(wide.resolve_value(true), Err(FieldError::StringTooLong));
    let mut kind = field(FieldType::String(4), Some(Value::Bool(true)));
    assert_eq!(kind.resolve_value(true), Err(FieldError::ValueTypeMismatch));
}

#[test]
fn enum_field_defaults_to_smallest_key() {
    let map = EnumMap(BTreeMap::from([(5u64, "five".to_string()), (2u64, "two".to_string())]));
    let mut f = field(FieldType::Enum { length: 4, map }, None);
    assert_eq!(f.resolve_value(true), Ok(()));
    assert_eq!(value_text(&f.value), "two");
}

#[test]
fn enum_field_with_empty_map_defaults_to_empty_string() {
    let map = EnumMap(BTreeMap::new());
    let mut f = field(FieldType::Enum { length: 4, map }, None);
    assert_eq!(f.resolve_value(true), Ok(()));
    assert_eq!(value_text(&f.value), "");
    assert_eq!(f.resolve_value(true), Err(FieldError::EnumStringNotInMap));
}

#[test]
fn enum_field_checks_numbers_and_names() {
    let cases: Vec<(Value, Result<(), FieldError>)> = vec![
        (Value::Unsigned(2), Ok(())),
        (Value::Unsigned(16), Err(FieldError::NumberTooWide)),
        (Value::Unsigned(7), Err(FieldError::EnumNumberNotInMap)),
        (Value::String("three".to_string()), Ok(())),
        (Value::String("nine".to_string()), Err(FieldError::EnumStringNotInMap)),
        (Value::Signed(1), Err(FieldError::ValueTypeMismatch)),
    ];
    for (value, expected) in cases {
        let mut f = field(FieldType::Enum { length: 4, map: numbers_map() }, Some(value));
        assert_eq!(f.resolve_value(true), expected);
    }
}

#[test]
fn bit_field() {
    let mut none = field(FieldType::Bit, None);
    assert_eq!(none.resolve_value(true), Ok(()));
    assert_eq!(value_text(&none.value), "false");
    let mut given = field(FieldType::Bit, Some(Value::Bool(true)));
    assert_eq!(given.resolve_value(true), Ok(()));
    assert_eq!(value_text(&given.value), "true");
    let mut kind = field(FieldType::Bit, Some(Value::Unsigned(1)));
    assert_eq!(kind.resolve_value(true), Err(FieldError::ValueTypeMismatch));
}

#[test]
fn unsigned_field() {
    let mut none = field(FieldType::Unsigned(4), None);
    assert_eq!(none.resolve_value(true), Ok(()));
    assert_eq!(value_text(&none.value), "0");
    let mut max = field(FieldType::Unsigned(4), Some(Value::Unsigned(15)));
    assert_eq!(max.resolve_value(true), Ok(()));
    let mut over = field(FieldType::Unsigned(4), Some(Value::Unsigned(16)));
    assert_eq!(over.resolve_value(true), Err(FieldError::NumberTooWide));
    let mut zero_bits = field(FieldType::Unsigned(0), Some(Value::Unsigned(1)));
    assert_eq!(zero_bits.resolve_value(true), Err(FieldError::NumberTooWide));
    let mut wide = field(FieldType::Unsigned(63), Some(Value::Unsigned(u64::MAX / 2)));
    assert_eq!(wide.resolve_value(true), Ok(()));
    let mut kind = field(FieldType::Unsigned(4), Some(Value::Signed(1)));
    assert_eq!(kind.resolve_value(true), Err(FieldError::ValueTypeMismatch));
}

#[test]
fn signed_field() {
    let mut none = field(FieldType::Signed(4), None);
    assert_eq!(none.resolve_value(true), Ok(()));
    assert_eq!(value_text(&none.value), "0");
    for (n, expected) in [
        (7i64, Ok(())),
        (8, Err(FieldError::NumberTooWide)),
        (-8, Ok(())),
        (-9, Err(FieldError::NumberTooWide)),
    ] {
        let mut f = field(FieldType::Signed(4), Some(Value::Signed(n)));
        assert_eq!(f.resolve_value(true), expected);
    }
    let mut widest = field(FieldType::Signed(63), Some(Value::Signed(-(1i64 << 62))));
    assert_eq!(widest.resolve_value(true), Ok(()));
    let mut kind = field(FieldType::Signed(4), Some(Value::Unsigned(1)));
    assert_eq!(kind.resolve_value(true), Err(FieldError::ValueTypeMismatch));
}

#[test]
fn fixed_fields() {
    let mut none = field(FieldType::UFixed { high: 3, low: -2 }, None);
    assert_eq!(none.resolve_value(false), Ok(()));
    assert_eq!(value_text(&none.value), "float 0x0");
    let float = Value::Float(FloatBits(1.5f64.to_bits()));
    let mut inside = field(FieldType::SFixed { high: 3, low: -2 }, Some(float));
    assert_eq!(inside.resolve_value(true), Ok(()));
    let float = Value::Float(FloatBits(100.0f64.to_bits()));
    let mut outside = field(FieldType::UFixed { high: 3, low: -2 }, Some(float));
    assert_eq!(outside.resolve_value(false), Err(FieldError::FixedOutOfRange));
    let mut kind = field(FieldType::SFixed { high: 3, low: -2 }, Some(Value::Unsigned(1)));
    assert_eq!(kind.resolve_value(true), Err(FieldError::FixedValueTypeMismatch));
}

#[test]
fn resolving_twice_settles() {
    let types = vec![
        FieldType::Bit,
        FieldType::Unsigned(8),
        FieldType::Signed(8),
        FieldType::String(2),
        FieldType::Enum { length: 2, map: numbers_map() },
        FieldType::UFixed { high: 4, low: 0 },
    ];
    for ft in types {
        let mut f = field(ft, None);
        assert_eq!(f.resolve_value(true), Ok(()));
        let before = value_text(&f.value);
        assert_eq!(f.resolve_value(true), Ok(()));
        assert_eq!(value_text(&f.value), before);
    }
}

#[test]
fn field_type_text() {
    assert_eq!(FieldType::Bit.display_text(0), "std_logic");
    assert_eq!(FieldType::Unsigned(4).display_text(0), "unsigned(3 downto 0)");
    assert_eq!(FieldType::Signed(8).display_text(0), "signed(7 downto 0)");
    assert_eq!(FieldType::UFixed { high: 11, low: -4 }.display_text(0), "ufixed(11 downto -4)");
    assert_eq!(FieldType::SFixed { high: -1, low: -8 }.display_text(0), "sfixed(-1 downto -8)");
    assert_eq!(FieldType::String(3).display_text(0), "string(3 downto 1)");
    assert_eq!(
        FieldType::Enum { length: 4, map: numbers_map() }.display_text(0),
        "std_logic_vector(3 downto 0):<br>0x0: zero<br>0x1: one<br>0x2: two<br>0x3: three<br>"
    );
}

#[test]
fn value_text_of_each_kind() {
    assert_eq!(Value::String("abc".to_string()).display_text(), "abc");
    assert_eq!(Value::Bool(false).display_text(), "false");
    assert_eq!(Value::Unsigned(4096).display_text(), "4096");
    assert_eq!(Value::Signed(-42).display_text(), "-42");
    assert_eq!(Value::Signed(i64::MIN).display_text(), "-9223372036854775808");
}

#[test]
fn ascii_strings_only() {
    assert_eq!(ascii_only_string("plain".to_string()), Ok("plain".to_string()));
    assert_eq!(
        ascii_only_string("ünï".to_string()),
        Err("string ünï contains non-ascii characters".to_string())
    );
}

#[test]
fn access_text_and_default() {
    assert_eq!(Access::default(), Access::Read);
    assert_eq!(Access::Read.display_text(), "Read-only");
    assert_eq!(Access::Write.display_text(), "Write-only");
    assert_eq!(Access::ReadWrite.display_text(), "Read/Write");
}

#[test]
fn sixty_four_bit_fields_hold_every_value() {
    let mut full = field(FieldType::Unsigned(64), Some(Value::Unsigned(u64::MAX)));
    assert_eq!(full.resolve_value(true), Ok(()));
    let mut wider = field(FieldType::Unsigned(100), Some(Value::Unsigned(u64::MAX)));
    assert_eq!(wider.resolve_value(true), Ok(()));
    let mut below = field(FieldType::Unsigned(63), Some(Value::Unsigned(1u64 << 63)));
    assert_eq!(below.resolve_value(true), Err(FieldError::NumberTooWide));
    let mut map = numbers_map();
    map.0.insert(u64::MAX, "max".to_string());
    let mut en = field(FieldType::Enum { length: 64, map }, Some(Value::Unsigned(u64::MAX)));
    assert_eq!(en.resolve_value(true), Ok(()));
    let mut signed = field(FieldType::Signed(64), Some(Value::Signed(i64::MIN)));
    assert_eq!(signed.resolve_value(true), Ok(()));
    let mut signed_max = field(FieldType::Signed(64), Some(Value::Signed(i64::MAX)));
    assert_eq!(signed_max.resolve_value(true), Ok(()));
    let mut signed_short = field(FieldType::Signed(63), Some(Value::Signed(i64::MIN)));
    assert_eq!(signed_short.resolve_value(true), Err(FieldError::NumberTooWide));
}
