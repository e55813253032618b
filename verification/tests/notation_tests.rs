use std::collections::BTreeMap;
use vhdl_doc::memory_map::{EnumMap, HexStrOrUnsigned, IntegerOrString};

#[test]
fn hex_strings() {
    assert_eq!(HexStrOrUnsigned::visit_str("0xFFFF_FFFF"), Some(0xFFFF_FFFF));
    assert_eq!(HexStrOrUnsigned::visit_str("0x0000_1000"), Some(0x1000));
    assert_eq!(HexStrOrUnsigned::visit_str("0xdead_BEEF"), Some(0xDEAD_BEEF));
    assert_eq!(HexStrOrUnsigned::visit_str("0xffffffffffffffff"), Some(u64::MAX));
    assert_eq!(HexStrOrUnsigned::visit_str("0x_1_"), Some(1));
    assert_eq!(HexStrOrUnsigned::visit_str("0x+1F"), Some(0x1F));
    assert_eq!(HexStrOrUnsigned::visit_str("0x_+_2"), Some(2));
}

#[test]
fn hex_strings_refused() {
    assert_eq!(HexStrOrUnsigned::visit_str("0x"), None);
    assert_eq!(HexStrOrUnsigned::visit_str("0x__"), None);
    assert_eq!(HexStrOrUnsigned::visit_str("0x+"), None);
    assert_eq!(HexStrOrUnsigned::visit_str("0x-1"), None);
    assert_eq!(HexStrOrUnsigned::visit_str("0x1+2"), None);
    assert_eq!(HexStrOrUnsigned::visit_str("0xG"), None);
    assert_eq!(HexStrOrUnsigned::visit_str("0X10"), None);
    assert_eq!(HexStrOrUnsigned::visit_str("1000"), None);
    assert_eq!(HexStrOrUnsigned::visit_str(""), None);
    assert_eq!(HexStrOrUnsigned::visit_str("0x1_0000_0000_0000_0000"), None);
    assert_eq!(HexStrOrUnsigned::visit_str("0x1_0000_0000_0000_000G"), None);
}

#[test]
fn hex_string_roundtrip() {
    for n in [0u64, 1, 15, 16, 255, 4096, 0xDEAD_BEEF, u64::MAX] {
        assert_eq!(HexStrOrUnsigned::visit_str(&format!("0x{:X}", n)), Some(n));
    }
}

#[test]
fn signed_and_unsigned_integers() {
    assert_eq!(HexStrOrUnsigned::visit_i64(5), Some(5));
    assert_eq!(HexStrOrUnsigned::visit_i64(0), Some(0));
    assert_eq!(HexStrOrUnsigned::visit_i64(-1), None);
    assert_eq!(HexStrOrUnsigned::visit_u64(u64::MAX), u64::MAX);
}

#[test]
fn integers_become_decimal_text() {
    assert_eq!(IntegerOrString::visit_u64(0), "0");
    assert_eq!(IntegerOrString::visit_u64(1234567890), "1234567890");
    assert_eq!(IntegerOrString::visit_u64(u64::MAX), "18446744073709551615");
    assert_eq!(IntegerOrString::visit_str("sub_a"), "sub_a");
}

fn map_of(pairs: &[(u64, &str)]) -> EnumMap {
    EnumMap(pairs.iter().map(|(k, v)| (*k, v.to_string())).collect::<BTreeMap<u64, String>>())
}

#[test]
fn enum_map_in_hex() {
    let map = map_of(&[(3, "three"), (0, "zero"), (2, "two"), (1, "one")]);
    assert_eq!(map.display_text(0), "0x0: zero<br>0x1: one<br>0x2: two<br>0x3: three<br>");
}

#[test]
fn enum_map_in_binary() {
    let map = map_of(&[(1, "on"), (0, "off")]);
    assert_eq!(map.display_text(5), "0b0: off<br>0b1: on<br>");
}

#[test]
fn enum_map_padded() {
    let map = map_of(&[(255, "all"), (10, "ten")]);
    assert_eq!(map.display_text(4), "0x000A: ten<br>0x00FF: all<br>");
    assert_eq!(map.display_text(1), "0xA: ten<br>0xFF: all<br>");
}

#[test]
fn enum_map_empty() {
    let map = map_of(&[]);
    assert_eq!(map.display_text(3), "");
    assert_eq!(map.max_key(), None);
    assert_eq!(map.first_value(), None);
}

#[test]
fn enum_map_queries() {
    let map = map_of(&[(9, "nine"), (4, "four")]);
    assert_eq!(map.max_key(), Some(9));
    assert_eq!(map.first_value(), Some(&"four".to_string()));
    assert!(map.contains_key(4));
    assert!(!map.contains_key(5));
    assert!(map.contains_value(&"nine".to_string()));
    assert!(!map.contains_value(&"five".to_string()));
    let entries: Vec<u64> = map.entries().iter().map(|(k, _)| *k).collect();
    assert_eq!(entries, vec![4, 9]);
}
