//! Bit fields of a memory entry: their types, lengths, offsets and default values.
use crate::memory_map::serde_helpers::{enum_map_text, min_key, EnumMap};
use crate::memory_map::text::{digits, push_digits, push_signed_decimal, signed_decimal};
use crate::memory_map::Access;
use vstd::arithmetic::power2::pow2;
use vstd::prelude::*;
use vstd::string::*;

verus! {

/// The type of a field, which fixes its length in bits and the values it may hold.
pub enum FieldType {
    /// Single bit field, the vhdl type `std_logic`.
    Bit,
    /// Enumerated type, the vhdl type `std_logic_vector(length-1 downto 0)`.
    Enum { length: u32, map: EnumMap },
    /// Unsigned numeric type of the given length in bits.
    Unsigned(u32),
    /// Signed numeric type of the given length in bits.
    Signed(u32),
    /// Unsigned fixed point type `ufixed(high downto low)`; the binary point lies `low` places
    /// from the least significant digit.
    UFixed { high: i32, low: i32 },
    /// Signed fixed point type `sfixed(high downto low)`.
    SFixed { high: i32, low: i32 },
    /// String type; the value is the length of the string in bytes.
    String(u32),
}

/// The bit pattern of an IEEE 754 double precision number, as `f64::to_bits` gives it.
#[derive(Clone, Copy, Debug, PartialEq, Eq, Structural)]
pub struct FloatBits(pub u64);

/// A field's value.
pub enum Value {
    String(String),
    Bool(bool),
    Unsigned(u64),
    Signed(i64),
    /// A floating point number, held as its bit pattern.
    Float(FloatBits),
}

/// A value as the contracts speak of it: strings by their characters.
pub enum ValueModel {
    String(Seq<char>),
    Bool(bool),
    Unsigned(u64),
    Signed(i64),
    Float(FloatBits),
}

impl View for Value {
    type V = ValueModel;

    open spec fn view(&self) -> ValueModel {
        match self {
            Value::String(s) => ValueModel::String(s@),
            Value::Bool(b) => ValueModel::Bool(*b),
            Value::Unsigned(n) => ValueModel::Unsigned(*n),
            Value::Signed(n) => ValueModel::Signed(*n),
            Value::Float(f) => ValueModel::Float(*f),
        }
    }
}

/// An optional value by its model.
pub open spec fn value_model(v: Option<Value>) -> Option<ValueModel> {
    match v {
        Some(x) => Some(x@),
        None => None,
    }
}

/// Why a field's offset or value was refused.
#[derive(Clone, Copy, Debug, PartialEq, Eq, Structural)]
pub enum FieldError {
    /// The offset was given already and may not be overwritten.
    OffsetAlreadySet,
    /// A string value is longer than the string type allows.
    StringTooLong,
    /// The value's kind does not match the field type.
    ValueTypeMismatch,
    /// A number needs more bits than the field type has.
    NumberTooWide,
    /// A number is not a key of the enumeration map.
    EnumNumberNotInMap,
    /// A string is not a name in the enumeration map.
    EnumStringNotInMap,
    /// A fixed point value lies outside the range its type represents.
    FixedOutOfRange,
    /// A fixed point field holds a value that is not a floating point number.
    FixedValueTypeMismatch,
}

/// The bit count that a field type states: that of an enumerated, unsigned or signed type, and
/// zero for the others.
pub open spec fn stated_length(ft: FieldType) -> u32 {
    match ft {
        FieldType::Enum { length, .. } => length,
        FieldType::Unsigned(length) => length,
        FieldType::Signed(length) => length,
        _ => 0,
    }
}

/// The message of an error about field `name`, given the text of the field's value and that of
/// its type; `length` is the bit count its type states.
pub open spec fn field_error_text(
    e: FieldError,
    name: Seq<char>,
    length: u32,
    value: Seq<char>,
    type_text: Seq<char>,
) -> Seq<char> {
    match e {
        FieldError::OffsetAlreadySet => "Internal error. Attempted to overwrite provided field \"offset\""@,
        FieldError::StringTooLong => "Provided string value is longer than the field type"@,
        FieldError::ValueTypeMismatch => "Provided value "@ + value + " doesn't match the field type "@
            + type_text,
        FieldError::NumberTooWide => "Numeric value "@ + value + " requires more than "@ + digits(
            length as nat,
            10,
        ) + " bits specified by the field type"@,
        FieldError::EnumNumberNotInMap => "Numeric value "@ + value
            + " is not a value specified by the enum field type of field "@ + name,
        FieldError::EnumStringNotInMap => "String value "@ + value
            + " is not a key specified by the enum field type of field "@ + name,
        FieldError::FixedOutOfRange => "Numeric value "@ + value
            + " cannot be represented by the field type "@ + type_text,
        FieldError::FixedValueTypeMismatch => "Provided value "@ + value
            + " doesn't match the field type unsigned"@,
    }
}

impl FieldError {
    /// The message of this error about `field`. `value_text` is the text of the field's value
    /// and `type_text` that of its type; a floating point value, and the padding of an
    /// enumeration map, are written by the caller.
    pub fn message(&self, field: &Field, value_text: &str, type_text: &str) -> (r: String)
        ensures
            r@ == field_error_text(
                *self,
                field.name@,
                stated_length(field.field_type),
                value_text@,
                type_text@,
            ),
    {
        let mut out = String::new();
        match self {
            FieldError::OffsetAlreadySet => {
                out.append("Internal error. Attempted to overwrite provided field \"offset\"");
            },
            FieldError::StringTooLong => {
                out.append("Provided string value is longer than the field type");
            },
            FieldError::ValueTypeMismatch => {
                out.append("Provided value ");
                out.append(value_text);
                out.append(" doesn't match the field type ");
                out.append(type_text);
            },
            FieldError::NumberTooWide => {
                let length: u32 = match &field.field_type {
                    FieldType::Enum { length, .. } => *length,
                    FieldType::Unsigned(length) => *length,
                    FieldType::Signed(length) => *length,
                    _ => 0,
                };
                out.append("Numeric value ");
                out.append(value_text);
                out.append(" requires more than ");
                push_digits(&mut out, length as u64, 10);
                out.append(" bits specified by the field type");
            },
            FieldError::EnumNumberNotInMap => {
                out.append("Numeric value ");
                out.append(value_text);
                out.append(" is not a value specified by the enum field type of field ");
                out.append(field.name.as_str());
            },
            FieldError::EnumStringNotInMap => {
                out.append("String value ");
                out.append(value_text);
                out.append(" is not a key specified by the enum field type of field ");
                out.append(field.name.as_str());
            },
            FieldError::FixedOutOfRange => {
                out.append("Numeric value ");
                out.append(value_text);
                out.append(" cannot be represented by the field type ");
                out.append(type_text);
            },
            FieldError::FixedValueTypeMismatch => {
                out.append("Provided value ");
                out.append(value_text);
                out.append(" doesn't match the field type unsigned");
            },
        }
        out
    }
}

/// A bit field of a memory entry.
pub struct Field {
    pub name: String,
    /// Bit offset from the beginning of the entry. When absent, the field is taken to follow
    /// the previous field directly, or to start at zero if it is the first.
    pub offset: Option<u64>,
    /// Field accessibility; when absent the field inherits the access of its parent.
    pub access: Option<Access>,
    pub field_type: FieldType,
    /// The default value of the field.
    pub value: Option<Value>,
    /// The unit of measurement of a numeric type. Ignored for other types.
    pub unit: Option<String>,
    /// The minimum allowed value of a numeric type. Ignored for other types.
    pub min: Option<FloatBits>,
    /// The maximum allowed value of a numeric type. Ignored for other types.
    pub max: Option<FloatBits>,
}

/// The inputs on which the length of a field type is defined: the bit count of a fixed point
/// type fits in an `i32` and that of a string type in a `u32`.
pub open spec fn length_defined(ft: FieldType) -> bool {
    match ft {
        FieldType::UFixed { high, low } => i32::MIN <= high - low && high - low + 1 <= i32::MAX,
        FieldType::SFixed { high, low } => i32::MIN <= high - low && high - low + 1 <= i32::MAX,
        FieldType::String(length) => length * 8 <= u32::MAX,
        _ => true,
    }
}

/// The length of a field type in bits. The bit count of a fixed point type, `high - low + 1`,
/// is taken as a `u32` (a negative count wraps around).
pub open spec fn field_length(ft: FieldType) -> u32 {
    match ft {
        FieldType::Bit => 1,
        FieldType::Enum { length, .. } => length,
        FieldType::Unsigned(length) => length,
        FieldType::Signed(length) => length,
        FieldType::UFixed { high, low } => ((high - low + 1) as i32) as u32,
        FieldType::SFixed { high, low } => ((high - low + 1) as i32) as u32,
        FieldType::String(length) => (length * 8) as u32,
    }
}

/// The number of bytes that the UTF-8 encoding of a string takes.
pub open spec fn utf8_len(s: Seq<char>) -> nat {
    vstd::utf8::encode_utf8(s).len()
}

/// The largest number that `length` bits hold.
pub open spec fn unsigned_max(length: u32) -> int {
    pow2(length as nat) - 1
}

/// Whether a signed number fits in `length` bits, two's complement.
pub open spec fn signed_fits(n: i64, length: u32) -> bool {
    -pow2((length - 1) as nat) <= n <= pow2((length - 1) as nat) - 1
}

/// The outcome for a string field: no value defaults to the empty string; a string value may
/// not be longer, in bytes taken as a `usize` and then a `u32`, than the type's length.
pub open spec fn string_outcome(length: u32, value: Option<ValueModel>) -> Result<
    Option<ValueModel>,
    FieldError,
> {
    match value {
        None => Ok(Some(ValueModel::String(Seq::empty()))),
        Some(ValueModel::String(s)) => if ((utf8_len(s) as usize) as u32) > length {
            Err(FieldError::StringTooLong)
        } else {
            Ok(None)
        },
        Some(_) => Err(FieldError::ValueTypeMismatch),
    }
}

/// The name that an enumeration map gives its smallest key, or the empty string for an empty
/// map.
pub open spec fn enum_default(map: Map<u64, Seq<char>>) -> Seq<char> {
    if map.dom().len() == 0 {
        Seq::empty()
    } else {
        map[min_key(map.dom())]
    }
}

/// The outcome for an enumerated field: no value defaults to the name of the smallest key; a
/// number must fit in the type's bits and be a key; a string must be a name in the map.
pub open spec fn enum_outcome(length: u32, map: Map<u64, Seq<char>>, value: Option<ValueModel>) -> Result<
    Option<ValueModel>,
    FieldError,
> {
    match value {
        None => Ok(Some(ValueModel::String(enum_default(map)))),
        Some(ValueModel::Unsigned(n)) => if n > unsigned_max(length) {
            Err(FieldError::NumberTooWide)
        } else if !map.contains_key(n) {
            Err(FieldError::EnumNumberNotInMap)
        } else {
            Ok(None)
        },
        Some(ValueModel::String(s)) => if exists|k: u64| map.contains_key(k) && map[k] == s {
            Ok(None)
        } else {
            Err(FieldError::EnumStringNotInMap)
        },
        Some(_) => Err(FieldError::ValueTypeMismatch),
    }
}

/// The outcome for a bit field: no value defaults to `false`; a value must be a boolean.
pub open spec fn bit_outcome(value: Option<ValueModel>) -> Result<Option<ValueModel>, FieldError> {
    match value {
        None => Ok(Some(ValueModel::Bool(false))),
        Some(ValueModel::Bool(_)) => Ok(None),
        Some(_) => Err(FieldError::ValueTypeMismatch),
    }
}

/// The outcome for an unsigned field: no value defaults to zero; a value must be an unsigned
/// number that fits in the type's bits.
pub open spec fn unsigned_outcome(length: u32, value: Option<ValueModel>) -> Result<
    Option<ValueModel>,
    FieldError,
> {
    match value {
        None => Ok(Some(ValueModel::Unsigned(0))),
        Some(ValueModel::Unsigned(n)) => if n > unsigned_max(length) {
            Err(FieldError::NumberTooWide)
        } else {
            Ok(None)
        },
        Some(_) => Err(FieldError::ValueTypeMismatch),
    }
}

/// The outcome for a signed field: no value defaults to zero; a value must be a signed number
/// that fits in the type's bits.
pub open spec fn signed_outcome(length: u32, value: Option<ValueModel>) -> Result<
    Option<ValueModel>,
    FieldError,
> {
    match value {
        None => Ok(Some(ValueModel::Signed(0))),
        Some(ValueModel::Signed(n)) => if signed_fits(n, length) {
            Ok(None)
        } else {
            Err(FieldError::NumberTooWide)
        },
        Some(_) => Err(FieldError::ValueTypeMismatch),
    }
}

/// The outcome for a fixed point field: no value defaults to `0.0` (all bits zero); a value
/// must be a floating point number, within range as `in_range` says.
pub open spec fn fixed_outcome(value: Option<ValueModel>, in_range: bool) -> Result<
    Option<ValueModel>,
    FieldError,
> {
    match value {
        None => Ok(Some(ValueModel::Float(FloatBits(0)))),
        Some(ValueModel::Float(_)) => if in_range {
            Ok(None)
        } else {
            Err(FieldError::FixedOutOfRange)
        },
        Some(_) => Err(FieldError::FixedValueTypeMismatch),
    }
}

/// What resolving a field's value gives: an error, a default value to set, or nothing to change.
pub open spec fn resolve_outcome(ft: FieldType, value: Option<ValueModel>, fixed_in_range: bool) -> Result<
    Option<ValueModel>,
    FieldError,
> {
    match ft {
        FieldType::String(length) => string_outcome(length, value),
        FieldType::Enum { length, map } => enum_outcome(length, map@, value),
        FieldType::Bit => bit_outcome(value),
        FieldType::Unsigned(length) => unsigned_outcome(length, value),
        FieldType::Signed(length) => signed_outcome(length, value),
        FieldType::UFixed { .. } => fixed_outcome(value, fixed_in_range),
        FieldType::SFixed { .. } => fixed_outcome(value, fixed_in_range),
    }
}

/// The inputs on which checking a value's width is defined: a signed number has a sign bit,
/// so its type is at least one bit long.
pub open spec fn resolve_defined(ft: FieldType, value: Option<ValueModel>) -> bool {
    match (ft, value) {
        (FieldType::Signed(length), Some(ValueModel::Signed(_))) => 1 <= length,
        _ => true,
    }
}

/// The result of a private check by its model.
pub open spec fn outcome_model(r: Result<Option<Value>, FieldError>) -> Result<
    Option<ValueModel>,
    FieldError,
> {
    match r {
        Ok(v) => Ok(value_model(v)),
        Err(e) => Err(e),
    }
}

/// `2^e` as a `u64`.
fn pow2_u64(e: u32) -> (r: u64)
    requires
        e < 64,
    ensures
        r as nat == pow2(e as nat),
{
    let mut r: u64 = 1;
    let mut i: u32 = 0;
    proof {
        vstd::arithmetic::power2::lemma2_to64();
    }
    while i < e
        invariant
            i <= e < 64,
            r as nat == pow2(i as nat),
        decreases e - i,
    {
        proof {
            vstd::arithmetic::power2::lemma_pow2_unfold((i + 1) as nat);
            vstd::arithmetic::power2::lemma_pow2_strictly_increases((i + 1) as nat, 64);
            vstd::arithmetic::power2::lemma2_to64();
        }
        r = r * 2;
        i = i + 1;
    }
    r
}

/// Whether `n` fits in `length` bits. Every `u64` fits in 64 bits or more; below that the
/// bound `2^length` is computed, and it fits in a `u64`.
fn fits_unsigned(n: u64, length: u32) -> (r: bool)
    ensures
        r == (n <= unsigned_max(length)),
{
    if length >= 64 {
        proof {
            vstd::arithmetic::power2::lemma2_to64_rest();
            if length > 64 {
                vstd::arithmetic::power2::lemma_pow2_strictly_increases(64, length as nat);
            }
        }
        true
    } else {
        proof {
            vstd::arithmetic::power2::lemma_pow2_pos(length as nat);
        }
        n <= pow2_u64(length) - 1
    }
}

/// The inputs on which a field type's text is defined: the length of an enumerated, unsigned
/// or signed type is at least one, since the text shows `length - 1`.
pub open spec fn text_defined(ft: FieldType) -> bool {
    match ft {
        FieldType::Enum { length, .. } => length >= 1,
        FieldType::Unsigned(length) => length >= 1,
        FieldType::Signed(length) => length >= 1,
        _ => true,
    }
}

/// The vhdl text of a field type. An enumerated type is followed by its map's text, with keys
/// padded to `width` hexadecimal digits where padding applies.
pub open spec fn field_type_text(ft: FieldType, width: nat) -> Seq<char> {
    match ft {
        FieldType::Bit => "std_logic"@,
        FieldType::Enum { length, map } => "std_logic_vector("@ + digits((length - 1) as nat, 10)
            + " downto 0):<br>"@ + enum_map_text(map@, width),
        FieldType::Unsigned(length) => "unsigned("@ + digits((length - 1) as nat, 10)
            + " downto 0)"@,
        FieldType::Signed(length) => "signed("@ + digits((length - 1) as nat, 10) + " downto 0)"@,
        FieldType::UFixed { high, low } => "ufixed("@ + signed_decimal(high as int) + " downto "@
            + signed_decimal(low as int) + ")"@,
        FieldType::SFixed { high, low } => "sfixed("@ + signed_decimal(high as int) + " downto "@
            + signed_decimal(low as int) + ")"@,
        FieldType::String(length) => "string("@ + digits(length as nat, 10) + " downto 1)"@,
    }
}

impl FieldType {
    /// The vhdl text of this type; `enum_width` is the number of hexadecimal digits to which
    /// the keys of an enumeration map are padded when its largest key is sixteen or more.
    pub fn display_text(&self, enum_width: usize) -> (r: String)
        requires
            text_defined(*self),
        ensures
            r@ == field_type_text(*self, enum_width as nat),
    {
        let mut out = String::new();
        match self {
            FieldType::Bit => {
                out.append("std_logic");
            },
            FieldType::Enum { length, map } => {
                out.append("std_logic_vector(");
                push_digits(&mut out, (*length - 1) as u64, 10);
                out.append(" downto 0):<br>");
                let text = map.display_text(enum_width);
                out.append(text.as_str());
            },
            FieldType::Unsigned(length) => {
                out.append("unsigned(");
                push_digits(&mut out, (*length - 1) as u64, 10);
                out.append(" downto 0)");
            },
            FieldType::Signed(length) => {
                out.append("signed(");
                push_digits(&mut out, (*length - 1) as u64, 10);
                out.append(" downto 0)");
            },
            FieldType::UFixed { high, low } => {
                out.append("ufixed(");
                push_signed_decimal(&mut out, *high as i64);
                out.append(" downto ");
                push_signed_decimal(&mut out, *low as i64);
                out.append(")");
            },
            FieldType::SFixed { high, low } => {
                out.append("sfixed(");
                push_signed_decimal(&mut out, *high as i64);
                out.append(" downto ");
                push_signed_decimal(&mut out, *low as i64);
                out.append(")");
            },
            FieldType::String(length) => {
                out.append("string(");
                push_digits(&mut out, *length as u64, 10);
                out.append(" downto 1)");
            },
        }
        out
    }
}

impl Field {
    /// The length of the field in bits.
    pub fn length(&self) -> (r: u32)
        requires
            length_defined(self.field_type),
        ensures
            r == field_length(self.field_type),
    {
        match &self.field_type {
            FieldType::Bit => 1,
            FieldType::Enum { length, .. } => *length,
            FieldType::Unsigned(length) => *length,
            FieldType::Signed(length) => *length,
            FieldType::UFixed { high, low } => (*high - *low + 1) as u32,
            FieldType::SFixed { high, low } => (*high - *low + 1) as u32,
            FieldType::String(length) => *length * 8u32,
        }
    }

    /// The bit offset, if one is known.
    pub fn get_offset(&self) -> (r: Option<u64>)
        ensures
            r == self.offset,
    {
        self.offset
    }

    /// Sets the offset when none was given; an offset that was given is never overwritten.
    pub fn set_offset(&mut self, value: u64) -> (r: Result<(), FieldError>)
        ensures
            old(self).offset is None ==> r is Ok && final(self).offset == Some(value),
            old(self).offset is Some ==> r == Err::<(), FieldError>(FieldError::OffsetAlreadySet)
                && final(self).offset == old(self).offset,
            final(self).name == old(self).name,
            final(self).access == old(self).access,
            final(self).field_type == old(self).field_type,
            final(self).value == old(self).value,
            final(self).unit == old(self).unit,
            final(self).min == old(self).min,
            final(self).max == old(self).max,
    {
        if self.offset.is_none() {
            self.offset = Some(value);
            Ok(())
        } else {
            Err(FieldError::OffsetAlreadySet)
        }
    }

    /// Checks the field's value against its type and, where no value was given, sets the
    /// type's default. `fixed_in_range` says whether a floating point value of a fixed point
    /// field lies within the range its type represents; it is consulted for nothing else.
    pub fn resolve_value(&mut self, fixed_in_range: bool) -> (r: Result<(), FieldError>)
        requires
            resolve_defined(old(self).field_type, value_model(old(self).value)),
        ensures
            match resolve_outcome(old(self).field_type, value_model(old(self).value), fixed_in_range) {
                Ok(Some(v)) => r is Ok && value_model(final(self).value) == Some(v),
                Ok(None) => r is Ok && final(self).value == old(self).value,
                Err(e) => r == Err::<(), FieldError>(e) && final(self).value == old(self).value,
            },
            final(self).name == old(self).name,
            final(self).offset == old(self).offset,
            final(self).access == old(self).access,
            final(self).field_type == old(self).field_type,
            final(self).unit == old(self).unit,
            final(self).min == old(self).min,
            final(self).max == old(self).max,
    {
        let result = match &self.field_type {
            FieldType::String(length) => self.resolve_field_type_string(*length),
            FieldType::Enum { length, map } => self.resolve_field_type_enum(*length, map),
            FieldType::Bit => self.resolve_field_type_bit(),
            FieldType::Unsigned(length) => self.resolve_field_type_unsigned(*length),
            FieldType::Signed(length) => self.resolve_field_type_signed(*length),
            FieldType::UFixed { .. } => self.resolve_field_type_fixed(fixed_in_range),
            FieldType::SFixed { .. } => self.resolve_field_type_fixed(fixed_in_range),
        };
        match result {
            Ok(update_value) => {
                if update_value.is_some() {
                    self.value = update_value;
                }
                Ok(())
            },
            Err(e) => Err(e),
        }
    }

    fn resolve_field_type_string(&self, length: u32) -> (r: Result<Option<Value>, FieldError>)
        ensures
            outcome_model(r) == string_outcome(length, value_model(self.value)),
    {
        match &self.value {
            Some(Value::String(string)) => {
                if (string.as_str().len() as u32) > length {
                    Err(FieldError::StringTooLong)
                } else {
                    Ok(None)
                }
            },
            Some(_) => Err(FieldError::ValueTypeMismatch),
            None => {
                let empty = String::new();
                Ok(Some(Value::String(empty)))
            },
        }
    }

    fn resolve_field_type_enum(&self, length: u32, map: &EnumMap) -> (r: Result<
        Option<Value>,
        FieldError,
    >)
        ensures
            outcome_model(r) == enum_outcome(length, map@, value_model(self.value)),
    {
        match &self.value {
            Some(Value::Unsigned(number)) => {
                if !fits_unsigned(*number, length) {
                    return Err(FieldError::NumberTooWide);
                }
                if !map.contains_key(*number) {
                    return Err(FieldError::EnumNumberNotInMap);
                }
                Ok(None)
            },
            Some(Value::String(string)) => {
                if !map.contains_value(string) {
                    Err(FieldError::EnumStringNotInMap)
                } else {
                    Ok(None)
                }
            },
            Some(_) => Err(FieldError::ValueTypeMismatch),
            None => {
                match map.first_value() {
                    Some(min_value) => Ok(Some(Value::String(min_value.clone()))),
                    None => Ok(Some(Value::String(String::new()))),
                }
            },
        }
    }

    fn resolve_field_type_bit(&self) -> (r: Result<Option<Value>, FieldError>)
        ensures
            outcome_model(r) == bit_outcome(value_model(self.value)),
    {
        match &self.value {
            Some(Value::Bool(..)) => Ok(None),
            Some(_) => Err(FieldError::ValueTypeMismatch),
            None => Ok(Some(Value::Bool(false))),
        }
    }

    fn resolve_field_type_unsigned(&self, length: u32) -> (r: Result<Option<Value>, FieldError>)
        ensures
            outcome_model(r) == unsigned_outcome(length, value_model(self.value)),
    {
        match &self.value {
            Some(Value::Unsigned(number)) => {
                if !fits_unsigned(*number, length) {
                    Err(FieldError::NumberTooWide)
                } else {
                    Ok(None)
                }
            },
            Some(_) => Err(FieldError::ValueTypeMismatch),
            None => Ok(Some(Value::Unsigned(0))),
        }
    }

    fn resolve_field_type_signed(&self, length: u32) -> (r: Result<Option<Value>, FieldError>)
        requires
            self.value matches Some(Value::Signed(_)) ==> 1 <= length,
        ensures
            outcome_model(r) == signed_outcome(length, value_model(self.value)),
    {
        match &self.value {
            Some(Value::Signed(number)) => {
                if length >= 64 {
                    proof {
                        vstd::arithmetic::power2::lemma2_to64_rest();
                        if length > 64 {
                            vstd::arithmetic::power2::lemma_pow2_strictly_increases(
                                63,
                                (length - 1) as nat,
                            );
                        }
                    }
                    return Ok(None);
                }
                let half = pow2_u64(length - 1);
                proof {
                    vstd::arithmetic::power2::lemma_pow2_strictly_increases(
                        (length - 1) as nat,
                        63,
                    );
                    vstd::arithmetic::power2::lemma2_to64_rest();
                }
                let half = half as i64;
                if (*number > half - 1) || (*number < -half) {
                    Err(FieldError::NumberTooWide)
                } else {
                    Ok(None)
                }
            },
            Some(_) => Err(FieldError::ValueTypeMismatch),
            None => Ok(Some(Value::Signed(0))),
        }
    }

    /// Fixed point fields: the range check itself is floating point and is made by the
    /// caller; here the value's kind and the default are decided.
    fn resolve_field_type_fixed(&self, in_range: bool) -> (r: Result<Option<Value>, FieldError>)
        ensures
            outcome_model(r) == fixed_outcome(value_model(self.value), in_range),
    {
        match &self.value {
            Some(Value::Float(..)) => if in_range {
                Ok(None)
            } else {
                Err(FieldError::FixedOutOfRange)
            },
            Some(_) => Err(FieldError::FixedValueTypeMismatch),
            None => Ok(Some(Value::Float(FloatBits(0)))),
        }
    }
}

/// The message for a string that holds a character outside ASCII.
pub open spec fn non_ascii_text(s: Seq<char>) -> Seq<char> {
    "string "@ + s + " contains non-ascii characters"@
}

/// String values must be ASCII: the string itself, or the message that refuses it.
pub fn ascii_only_string(string: String) -> (r: Result<String, String>)
    ensures
        vstd::utf8::is_ascii_chars(string@) ==> (r matches Ok(s) && s@ == string@),
        !vstd::utf8::is_ascii_chars(string@) ==> (r matches Err(m) && m@ == non_ascii_text(string@)),
{
    if string.is_ascii() {
        Ok(string)
    } else {
        let mut message = String::new();
        message.append("string ");
        message.append(string.as_str());
        message.append(" contains non-ascii characters");
        Err(message)
    }
}

/// The text of a value other than a floating point number: a string as it is, a boolean as
/// `true` or `false`, a number in decimal.
pub open spec fn value_text(v: ValueModel) -> Seq<char> {
    match v {
        ValueModel::String(s) => s,
        ValueModel::Bool(b) => if b {
            "true"@
        } else {
            "false"@
        },
        ValueModel::Unsigned(n) => digits(n as nat, 10),
        ValueModel::Signed(n) => signed_decimal(n as int),
        ValueModel::Float(_) => Seq::empty(),
    }
}

impl Value {
    /// The text of a value; floating point numbers are written by the caller.
    pub fn display_text(&self) -> (r: String)
        requires
            !(self is Float),
        ensures
            r@ == value_text(self@),
    {
        let mut out = String::new();
        match self {
            Value::String(s) => {
                out.append(s.as_str());
            },
            Value::Bool(b) => {
                if *b {
                    out.append("true");
                } else {
                    out.append("false");
                }
            },
            Value::Unsigned(n) => {
                push_digits(&mut out, *n, 10);
            },
            Value::Signed(n) => {
                push_signed_decimal(&mut out, *n);
            },
            Value::Float(_) => {},
        }
        out
    }
}

/// The value a field holds after a successful resolution: its own, or the type's default.
pub open spec fn resolved_value(ft: FieldType, value: Option<ValueModel>, fixed_in_range: bool) -> Option<
    ValueModel,
> {
    match resolve_outcome(ft, value, fixed_in_range) {
        Ok(Some(v)) => Some(v),
        _ => value,
    }
}

/// After a successful resolution a field holds a value, and resolving it again succeeds
/// without change (for a fixed point field, with its value found in range). The one
/// exception is an enumerated type with an empty map, whose default, the empty string, names
/// no value of the map.
pub proof fn lemma_resolve_settles(ft: FieldType, value: Option<ValueModel>, fixed_in_range: bool)
    requires
        resolve_outcome(ft, value, fixed_in_range) is Ok,
        !(ft matches FieldType::Enum { map, .. } && map@.dom().len() == 0),
    ensures
        resolved_value(ft, value, fixed_in_range) is Some,
        resolve_outcome(ft, resolved_value(ft, value, fixed_in_range), true) == Ok::<
            Option<ValueModel>,
            FieldError,
        >(None),
{
    match ft {
        FieldType::String(length) => {
            if value is None {
                assert(vstd::utf8::encode_utf8(Seq::<char>::empty()) =~= Seq::<u8>::empty());
            }
        },
        FieldType::Enum { length, map } => {
            if value is None {
                let m = map@;
                broadcast use vstd::std_specs::btree::group_btree_axioms;

                assert(m.dom() =~= map.0@.dom());
                crate::memory_map::serde_helpers::lemma_min_max_exist(m.dom());
                let k = min_key(m.dom());
                assert(m.contains_key(k) && m[k] == enum_default(m));
            }
        },
        FieldType::Signed(length) => {
            if value is None {
                vstd::arithmetic::power2::lemma_pow2_pos((length - 1) as nat);
            }
        },
        FieldType::Unsigned(length) => {
            if value is None {
                vstd::arithmetic::power2::lemma_pow2_pos(length as nat);
            }
        },
        _ => {},
    }
}

/// An enumerated field of `length` bits checks a number that is a key of its map against the
/// width exactly as an unsigned field of `length` bits does: the number is refused as too wide
/// exactly when it is `2^length` or more, so the largest number that fits, `2^length - 1`, is
/// accepted, and a number that fits is accepted unchanged.
pub proof fn lemma_enum_width(length: u32, map: EnumMap, n: u64, fixed_in_range: bool)
    requires
        map@.contains_key(n),
    ensures
        (resolve_outcome(FieldType::Enum { length, map }, Some(ValueModel::Unsigned(n)), fixed_in_range)
            == Err::<Option<ValueModel>, FieldError>(FieldError::NumberTooWide)) <==> n >= pow2(
            length as nat,
        ),
        (n < pow2(length as nat)) ==> resolve_outcome(
            FieldType::Enum { length, map },
            Some(ValueModel::Unsigned(n)),
            fixed_in_range,
        ) == Ok::<Option<ValueModel>, FieldError>(None),
        resolve_outcome(FieldType::Enum { length, map }, Some(ValueModel::Unsigned(n)), fixed_in_range)
            == resolve_outcome(FieldType::Unsigned(length), Some(ValueModel::Unsigned(n)), fixed_in_range),
{
}

/// A fixed point type `high downto low` has one bit for each subscript from `low` to `high`,
/// signed or not: both kinds are `high - low + 1` bits long.
pub proof fn lemma_fixed_length(high: i32, low: i32)
    requires
        length_defined(FieldType::UFixed { high, low }),
        low <= high,
    ensures
        field_length(FieldType::SFixed { high, low }) == field_length(FieldType::UFixed { high, low }),
        field_length(FieldType::UFixed { high, low }) as int == high - low + 1,
        field_length(FieldType::SFixed { high, low }) as int == Set::new(
            |i: int| low <= i <= high,
        ).len(),
{
    lemma_subscripts_len(low as int, high as int);
}

proof fn lemma_subscripts_len(low: int, high: int)
    requires
        low <= high + 1,
    ensures
        Set::new(|i: int| low <= i <= high).finite(),
        Set::new(|i: int| low <= i <= high).len() == high - low + 1,
    decreases high - low + 1,
{
    let s = Set::new(|i: int| low <= i <= high);
    if low == high + 1 {
        assert(s =~= Set::<int>::empty());
    } else {
        lemma_subscripts_len(low, high - 1);
        let t = Set::new(|i: int| low <= i <= high - 1);
        assert(s =~= t.insert(high));
    }
}

} // verus!
