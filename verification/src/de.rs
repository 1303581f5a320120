//! From runtime values to native values.
//!
//! The caller knows the shape it wants and asks a [`LuaDeserializer`] for it:
//! a scalar comes back as such, an aggregate as an access helper that yields
//! the deserializers of its members one by one. A value of another kind is an
//! error that names what was found.

use crate::encoding::{base64_bytes, decode_base64, text_is_short};
use crate::number::{integer_within, number_to_i64, number_to_u64};
use crate::single::{narrow, narrowed};
use crate::value::{
    array_shaped, key_position, lemma_view_kind, lemma_view_pairs, view_pairs, LuaValue, Value,
};
use vstd::prelude::*;
use vstd::string::StrSliceExecFns;

verus! {

/// What was found in place of what the caller asked for.
#[derive(Debug, Clone)]
pub enum Unexpected {
    Bool(bool),
    /// A number, by its bit pattern.
    Float(u64),
    Str(String),
    Bytes(Vec<u8>),
    Unit,
    /// A table, where no table or an array-shaped one was asked for.
    Table,
    /// A string of the runtime that is not valid UTF-8, where any value may stand.
    NonUtf8String,
    /// Text that is no base64, where bytes are asked for.
    NonBase64Data,
    /// A value of the runtime that has no representation.
    Unserializable,
}

/// An `Unexpected` as contracts see it.
pub enum UnexpectedView {
    Bool(bool),
    Float(u64),
    Str(Seq<char>),
    Bytes(Seq<u8>),
    Unit,
    Table,
    NonUtf8String,
    NonBase64Data,
    Unserializable,
}

impl View for Unexpected {
    type V = UnexpectedView;

    open spec fn view(&self) -> UnexpectedView {
        match self {
            Unexpected::Bool(b) => UnexpectedView::Bool(*b),
            Unexpected::Float(bits) => UnexpectedView::Float(*bits),
            Unexpected::Str(text) => UnexpectedView::Str(text@),
            Unexpected::Bytes(bytes) => UnexpectedView::Bytes(bytes@),
            Unexpected::Unit => UnexpectedView::Unit,
            Unexpected::Table => UnexpectedView::Table,
            Unexpected::NonUtf8String => UnexpectedView::NonUtf8String,
            Unexpected::NonBase64Data => UnexpectedView::NonBase64Data,
            Unexpected::Unserializable => UnexpectedView::Unserializable,
        }
    }
}

/// Why a value could not be decoded.
#[derive(Debug, Clone)]
pub enum DeserializeErrorKind {
    /// A failure that the caller describes.
    Custom(String),
    /// The value is of another kind than the one asked for, or is a number
    /// that the integer type asked for cannot hold exactly.
    InvalidType(Unexpected),
    /// The value is of the right kind, but not one that can be accepted.
    InvalidValue(Unexpected),
    /// The value has this many members, and another count was asked for.
    InvalidLength(usize),
    /// Bytes were asked of a deserializer that does not decode bytes.
    BytesUnsupported,
    /// A struct has no entry for this field, and the field has no default.
    MissingField(String),
    /// A struct has two entries for this field.
    DuplicateField(String),
    /// An enum has no variant of this tag.
    UnknownVariant(String),
}

/// A `DeserializeErrorKind` as contracts see it.
pub enum Mismatch {
    Custom(Seq<char>),
    InvalidType(UnexpectedView),
    InvalidValue(UnexpectedView),
    InvalidLength(usize),
    BytesUnsupported,
    MissingField(Seq<char>),
    DuplicateField(Seq<char>),
    UnknownVariant(Seq<char>),
}

/// An error of decoding.
#[derive(Debug, Clone)]
pub struct LuaDeserializeError {
    pub kind: DeserializeErrorKind,
}

impl View for LuaDeserializeError {
    type V = Mismatch;

    open spec fn view(&self) -> Mismatch {
        match self.kind {
            DeserializeErrorKind::Custom(text) => Mismatch::Custom(text@),
            DeserializeErrorKind::InvalidType(found) => Mismatch::InvalidType(found@),
            DeserializeErrorKind::InvalidValue(found) => Mismatch::InvalidValue(found@),
            DeserializeErrorKind::InvalidLength(len) => Mismatch::InvalidLength(len),
            DeserializeErrorKind::BytesUnsupported => Mismatch::BytesUnsupported,
            DeserializeErrorKind::MissingField(name) => Mismatch::MissingField(name@),
            DeserializeErrorKind::DuplicateField(name) => Mismatch::DuplicateField(name@),
            DeserializeErrorKind::UnknownVariant(name) => Mismatch::UnknownVariant(name@),
        }
    }
}

/// What decoding returns.
pub type DeResult<T> = Result<T, LuaDeserializeError>;

impl LuaDeserializeError {
    /// An error with a description of the caller's own.
    pub fn custom(msg: &str) -> (error: LuaDeserializeError)
        ensures
            error@ == Mismatch::Custom(msg@),
    {
        LuaDeserializeError { kind: DeserializeErrorKind::Custom(msg.to_owned()) }
    }

    /// The error of a value of the wrong kind.
    pub fn invalid_type(found: Unexpected) -> (error: LuaDeserializeError)
        ensures
            error@ == Mismatch::InvalidType(found@),
    {
        LuaDeserializeError { kind: DeserializeErrorKind::InvalidType(found) }
    }

    /// The error of a value of the right kind that cannot be accepted.
    pub fn invalid_value(found: Unexpected) -> (error: LuaDeserializeError)
        ensures
            error@ == Mismatch::InvalidValue(found@),
    {
        LuaDeserializeError { kind: DeserializeErrorKind::InvalidValue(found) }
    }

    /// The error of a struct without an entry for a field that needs one.
    pub fn missing_field(name: &str) -> (error: LuaDeserializeError)
        ensures
            error@ == Mismatch::MissingField(name@),
    {
        LuaDeserializeError { kind: DeserializeErrorKind::MissingField(name.to_owned()) }
    }

    /// The error of a struct with two entries for one field.
    pub fn duplicate_field(name: &str) -> (error: LuaDeserializeError)
        ensures
            error@ == Mismatch::DuplicateField(name@),
    {
        LuaDeserializeError { kind: DeserializeErrorKind::DuplicateField(name.to_owned()) }
    }

    /// The error of a tag that names no variant of the enum.
    pub fn unknown_variant(name: &str) -> (error: LuaDeserializeError)
        ensures
            error@ == Mismatch::UnknownVariant(name@),
    {
        LuaDeserializeError { kind: DeserializeErrorKind::UnknownVariant(name.to_owned()) }
    }

    /// The error of a value with `len` members where another count was asked for.
    pub fn invalid_length(len: usize) -> (error: LuaDeserializeError)
        ensures
            error@ == Mismatch::InvalidLength(len),
    {
        LuaDeserializeError { kind: DeserializeErrorKind::InvalidLength(len) }
    }
}

/// How a value is named where it is not what was asked for.
pub open spec fn unexpected_of(value: Value) -> UnexpectedView {
    match value {
        Value::String(text) => UnexpectedView::Str(text),
        Value::RawString(bytes) => UnexpectedView::Bytes(bytes),
        Value::Number(bits) => UnexpectedView::Float(bits),
        Value::Bool(b) => UnexpectedView::Bool(b),
        Value::Table(_) => UnexpectedView::Table,
        Value::Nil => UnexpectedView::Unit,
        Value::Opaque => UnexpectedView::Unserializable,
    }
}

/// The error of finding `value` where another kind was asked for.
pub open spec fn type_error(value: Value) -> Mismatch {
    Mismatch::InvalidType(unexpected_of(value))
}

/// Whether `r` is the failure `mismatch`.
pub open spec fn fails_with<T>(r: DeResult<T>, mismatch: Mismatch) -> bool {
    r matches Err(error) && error@ == mismatch
}

/// The error of finding `value` where another kind was asked for.
pub fn error(value: LuaValue) -> (error: LuaDeserializeError)
    ensures
        error@ == type_error(value@),
{
    LuaDeserializeError::invalid_type(
        match value {
            LuaValue::String(text) => Unexpected::Str(text),
            LuaValue::RawString(bytes) => Unexpected::Bytes(bytes),
            LuaValue::Number(bits) => Unexpected::Float(bits),
            LuaValue::Bool(b) => Unexpected::Bool(b),
            LuaValue::Table(_) => Unexpected::Table,
            LuaValue::Nil => Unexpected::Unit,
            LuaValue::Opaque => Unexpected::Unserializable,
        },
    )
}

/// The integer within `low ..= high` that a value equals, if it is a number
/// and equals one.
pub open spec fn integer_of(value: Value, low: int, high: int) -> Option<int> {
    match value {
        Value::Number(bits) => integer_within(bits, low, high),
        _ => None,
    }
}

/// Tells an array-shaped table from a map-shaped one: `Ok` with the pairs in
/// ascending key order where the key of the pair at each index `i` is the
/// number `i + 1`, and `Err` with the pairs as they came where any pair has
/// another key. An array-shaped table has its pairs in ascending key order as
/// it stands, so they come back as they came in either case.
pub fn is_vec(array: Vec<(LuaValue, LuaValue)>) -> (r: Result<
    Vec<(LuaValue, LuaValue)>,
    Vec<(LuaValue, LuaValue)>,
>)
    ensures
        match r {
            Ok(sorted) => array_shaped(view_pairs(array@)) && sorted == array,
            Err(unsorted) => !array_shaped(view_pairs(array@)) && unsorted == array,
        },
{
    proof {
        lemma_view_pairs(array@);
    }
    let mut index: usize = 0;
    while index < array.len()
        invariant
            index <= array.len(),
            view_pairs(array@).len() == array.len(),
            forall|i: int|
                0 <= i < array.len() ==> #[trigger] view_pairs(array@)[i] == (
                    array@[i].0@,
                    array@[i].1@,
                ),
            forall|i: int|
                0 <= i < index ==> key_position(#[trigger] view_pairs(array@)[i].0) == Some(i + 1),
        decreases array.len() - index,
    {
        let in_place = match &array[index].0 {
            LuaValue::Number(bits) => match number_to_u64(*bits) {
                Some(position) => position == (index as u64) + 1,
                None => false,
            },
            _ => false,
        };
        proof {
            lemma_view_kind(array@[index as int].0);
        }
        if !in_place {
            assert(key_position(view_pairs(array@)[index as int].0) != Some(index + 1));
            return Err(array);
        }
        index += 1;
    }
    Ok(array)
}

/// The pairs that an access helper has still to yield, in the order in which
/// it yields them. The helper holds them last-first, so that the next pair can
/// be taken off the end.
spec fn remaining(held: Seq<(LuaValue, LuaValue)>) -> Seq<(Value, Value)> {
    Seq::new(
        held.len(),
        |i: int| (held[held.len() - 1 - i].0@, held[held.len() - 1 - i].1@),
    )
}

/// The pairs of a table, last-first.
fn reversed(pairs: Vec<(LuaValue, LuaValue)>) -> (held: Vec<(LuaValue, LuaValue)>)
    ensures
        remaining(held@) == view_pairs(pairs@),
{
    let ghost given = pairs@;
    let mut pairs = pairs;
    let mut held: Vec<(LuaValue, LuaValue)> = Vec::new();
    while pairs.len() > 0
        invariant
            pairs@.len() + held@.len() == given.len(),
            pairs@ == given.take(pairs@.len() as int),
            forall|i: int| 0 <= i < held@.len() ==> held@[i] == given[given.len() - 1 - i],
        decreases pairs.len(),
    {
        let pair = pairs.pop().unwrap();
        held.push(pair);
    }
    proof {
        lemma_view_pairs(given);
        assert(remaining(held@) =~= view_pairs(given));
    }
    held
}

/// What `deserialize_any` found: the value by its own kind.
pub enum Visit {
    String(String),
    /// A number, by its bit pattern.
    Number(u64),
    Bool(bool),
    /// An array-shaped table.
    Sequence(LuaSeqAccess),
    /// A map-shaped table.
    Mapping(LuaMapAccess),
    Unit,
}

/// The bytes that a text stands for in base64. A text that is longer than an
/// allocation can be stands for none.
pub open spec fn bytes_of_text(text: Seq<char>) -> Option<Seq<u8>> {
    if text_is_short(text) {
        base64_bytes(text)
    } else {
        None
    }
}

/// What asking for any value finds: the value by its own kind, a table as a
/// sequence where it is array-shaped and as a mapping where it is not. A
/// string that is not valid UTF-8 and a value without representation are
/// errors.
pub open spec fn finds_any(r: DeResult<Visit>, value: Value, bytes: bool) -> bool {
    match value {
        Value::String(text) => r matches Ok(Visit::String(found)) && found@ == text,
        Value::RawString(_) => fails_with(r, Mismatch::InvalidType(UnexpectedView::NonUtf8String)),
        Value::Number(bits) => r matches Ok(Visit::Number(found)) && found == bits,
        Value::Bool(b) => r matches Ok(Visit::Bool(found)) && found == b,
        Value::Table(pairs) => if array_shaped(pairs) {
            r matches Ok(Visit::Sequence(access)) && access@ == pairs && access.decodes_bytes()
                == bytes
        } else {
            r matches Ok(Visit::Mapping(access)) && access@ == pairs && access.pending() is None
                && access.decodes_bytes() == bytes
        },
        Value::Nil => r matches Ok(Visit::Unit),
        Value::Opaque => fails_with(r, type_error(value)),
    }
}

/// What asking for a number finds: the bit pattern of a number, and an error
/// for a value of another kind.
pub open spec fn finds_number(r: DeResult<u64>, value: Value) -> bool {
    match value {
        Value::Number(bits) => r == Ok::<u64, LuaDeserializeError>(bits),
        _ => fails_with(r, type_error(value)),
    }
}

/// What asking for a string finds: the text of a string, and an error for a
/// value of another kind.
pub open spec fn finds_string(r: DeResult<String>, value: Value) -> bool {
    match value {
        Value::String(text) => r matches Ok(found) && found@ == text,
        _ => fails_with(r, type_error(value)),
    }
}

/// What asking for bytes finds: where bytes are not decoded, an error
/// whatever the value is; where they are, the bytes that a string stands for
/// in base64, an error for a string that is no base64, and an error for a
/// value of another kind.
pub open spec fn finds_bytes(r: DeResult<Vec<u8>>, value: Value, bytes: bool) -> bool {
    if !bytes {
        fails_with(r, Mismatch::BytesUnsupported)
    } else {
        match value {
            Value::String(text) => match bytes_of_text(text) {
                Some(held) => r matches Ok(found) && found@ == held,
                None => fails_with(r, Mismatch::InvalidValue(UnexpectedView::NonBase64Data)),
            },
            _ => fails_with(r, type_error(value)),
        }
    }
}

/// What asking for the unit value finds: success for nil, and an error for
/// any other value.
pub open spec fn finds_unit(r: DeResult<()>, value: Value) -> bool {
    match value {
        Value::Nil => r is Ok,
        _ => fails_with(r, type_error(value)),
    }
}

/// What asking for a tuple of `len` members finds: the pairs of an
/// array-shaped table of that length. A table of another length is an error
/// that tells its length, whatever its shape; a map-shaped table of that
/// length and a value of another kind are errors of type.
pub open spec fn finds_tuple(
    r: DeResult<LuaSeqAccess>,
    value: Value,
    len: usize,
    bytes: bool,
) -> bool {
    match value {
        Value::Table(pairs) => if pairs.len() != len {
            fails_with(r, Mismatch::InvalidLength(pairs.len() as usize)) && pairs.len()
                <= usize::MAX
        } else if array_shaped(pairs) {
            r matches Ok(access) && access@ == pairs && access.decodes_bytes() == bytes
        } else {
            fails_with(r, type_error(value))
        },
        _ => fails_with(r, type_error(value)),
    }
}

/// What asking for a map finds: the pairs of a table in the order in which
/// the table holds them, whatever its shape, and an error for a value of
/// another kind.
pub open spec fn finds_map(r: DeResult<LuaMapAccess>, value: Value, bytes: bool) -> bool {
    match value {
        Value::Table(pairs) => r matches Ok(access) && access@ == pairs && access.pending() is None
            && access.decodes_bytes() == bytes,
        _ => fails_with(r, type_error(value)),
    }
}

/// Decodes one runtime value into what the caller asks for.
#[derive(Debug, Clone)]
pub struct LuaDeserializer {
    value: LuaValue,
    base64_bytes: bool,
}

impl View for LuaDeserializer {
    type V = Value;

    /// The value to decode.
    closed spec fn view(&self) -> Value {
        self.value@
    }
}

impl LuaDeserializer {
    /// Whether this deserializer decodes bytes, from base64 text.
    pub closed spec fn decodes_bytes(&self) -> bool {
        self.base64_bytes
    }

    /// A deserializer of `value` that rejects requests for bytes.
    pub fn new(value: LuaValue) -> (deserializer: LuaDeserializer)
        ensures
            deserializer@ == value@,
            !deserializer.decodes_bytes(),
    {
        LuaDeserializer { value, base64_bytes: false }
    }

    /// A deserializer of `value` that decodes bytes from base64 text.
    pub fn with_base64_bytes(value: LuaValue) -> (deserializer: LuaDeserializer)
        ensures
            deserializer@ == value@,
            deserializer.decodes_bytes(),
    {
        LuaDeserializer { value, base64_bytes: true }
    }

    /// The value by its own kind: a table as a sequence where it is
    /// array-shaped and as a mapping where it is not.
    pub fn deserialize_any(self) -> (r: DeResult<Visit>)
        ensures
            finds_any(r, self@, self.decodes_bytes()),
    {
        proof {
            lemma_view_kind(self.value);
        }
        let base64_bytes = self.base64_bytes;
        match self.value {
            LuaValue::String(text) => Ok(Visit::String(text)),
            LuaValue::RawString(_) => Err(
                LuaDeserializeError::invalid_type(Unexpected::NonUtf8String),
            ),
            LuaValue::Number(bits) => Ok(Visit::Number(bits)),
            LuaValue::Bool(b) => Ok(Visit::Bool(b)),
            LuaValue::Table(pairs) => match is_vec(pairs) {
                Ok(sorted) => Ok(Visit::Sequence(LuaSeqAccess::over(sorted, base64_bytes))),
                Err(unsorted) => Ok(Visit::Mapping(LuaMapAccess::over(unsorted, base64_bytes))),
            },
            LuaValue::Nil => Ok(Visit::Unit),
            LuaValue::Opaque => Err(error(LuaValue::Opaque)),
        }
    }

    /// A boolean.
    pub fn deserialize_bool(self) -> (r: DeResult<bool>)
        ensures
            match self@ {
                Value::Bool(b) => r == Ok::<bool, LuaDeserializeError>(b),
                _ => fails_with(r, type_error(self@)),
            },
    {
        proof {
            lemma_view_kind(self.value);
        }
        match self.value {
            LuaValue::Bool(b) => Ok(b),
            other => Err(error(other)),
        }
    }

    /// The integer within `low ..= high` that the value equals.
    fn signed(self, low: i64, high: i64) -> (r: DeResult<i64>)
        ensures
            match integer_of(self@, low as int, high as int) {
                Some(n) => r == Ok::<i64, LuaDeserializeError>(n as i64),
                None => fails_with(r, type_error(self@)),
            },
    {
        proof {
            lemma_view_kind(self.value);
        }
        match &self.value {
            LuaValue::Number(bits) => match number_to_i64(*bits) {
                Some(n) => if low <= n && n <= high {
                    return Ok(n);
                },
                None => {},
            },
            _ => {},
        }
        Err(error(self.value))
    }

    /// A number becomes an `i8` where it has no fractional part and lies
    /// within the type.
    pub fn deserialize_i8(self) -> (r: DeResult<i8>)
        ensures
            match integer_of(self@, i8::MIN as int, i8::MAX as int) {
                Some(n) => r == Ok::<i8, LuaDeserializeError>(n as i8),
                None => fails_with(r, type_error(self@)),
            },
    {
        match self.signed(i8::MIN as i64, i8::MAX as i64) {
            Ok(n) => Ok(n as i8),
            Err(error) => Err(error),
        }
    }

    /// A number becomes an `i16` where it has no fractional part and lies
    /// within the type.
    pub fn deserialize_i16(self) -> (r: DeResult<i16>)
        ensures
            match integer_of(self@, i16::MIN as int, i16::MAX as int) {
                Some(n) => r == Ok::<i16, LuaDeserializeError>(n as i16),
                None => fails_with(r, type_error(self@)),
            },
    {
        match self.signed(i16::MIN as i64, i16::MAX as i64) {
            Ok(n) => Ok(n as i16),
            Err(error) => Err(error),
        }
    }

    /// A number becomes an `i32` where it has no fractional part and lies
    /// within the type.
    pub fn deserialize_i32(self) -> (r: DeResult<i32>)
        ensures
            match integer_of(self@, i32::MIN as int, i32::MAX as int) {
                Some(n) => r == Ok::<i32, LuaDeserializeError>(n as i32),
                None => fails_with(r, type_error(self@)),
            },
    {
        match self.signed(i32::MIN as i64, i32::MAX as i64) {
            Ok(n) => Ok(n as i32),
            Err(error) => Err(error),
        }
    }

    /// A number becomes an `i64` where it has no fractional part and lies
    /// within the type.
    pub fn deserialize_i64(self) -> (r: DeResult<i64>)
        ensures
            match integer_of(self@, i64::MIN as int, i64::MAX as int) {
                Some(n) => r == Ok::<i64, LuaDeserializeError>(n as i64),
                None => fails_with(r, type_error(self@)),
            },
    {
        self.signed(i64::MIN, i64::MAX)
    }

    /// A number becomes a `u8` where it has no fractional part and lies
    /// within the type.
    pub fn deserialize_u8(self) -> (r: DeResult<u8>)
        ensures
            match integer_of(self@, 0, u8::MAX as int) {
                Some(n) => r == Ok::<u8, LuaDeserializeError>(n as u8),
                None => fails_with(r, type_error(self@)),
            },
    {
        match self.signed(0, u8::MAX as i64) {
            Ok(n) => Ok(n as u8),
            Err(error) => Err(error),
        }
    }

    /// A number becomes a `u16` where it has no fractional part and lies
    /// within the type.
    pub fn deserialize_u16(self) -> (r: DeResult<u16>)
        ensures
            match integer_of(self@, 0, u16::MAX as int) {
                Some(n) => r == Ok::<u16, LuaDeserializeError>(n as u16),
                None => fails_with(r, type_error(self@)),
            },
    {
        match self.signed(0, u16::MAX as i64) {
            Ok(n) => Ok(n as u16),
            Err(error) => Err(error),
        }
    }

    /// A number becomes a `u32` where it has no fractional part and lies
    /// within the type.
    pub fn deserialize_u32(self) -> (r: DeResult<u32>)
        ensures
            match integer_of(self@, 0, u32::MAX as int) {
                Some(n) => r == Ok::<u32, LuaDeserializeError>(n as u32),
                None => fails_with(r, type_error(self@)),
            },
    {
        match self.signed(0, u32::MAX as i64) {
            Ok(n) => Ok(n as u32),
            Err(error) => Err(error),
        }
    }

    /// A number becomes a `u64` where it has no fractional part and lies
    /// within the type.
    pub fn deserialize_u64(self) -> (r: DeResult<u64>)
        ensures
            match integer_of(self@, 0, u64::MAX as int) {
                Some(n) => r == Ok::<u64, LuaDeserializeError>(n as u64),
                None => fails_with(r, type_error(self@)),
            },
    {
        proof {
            lemma_view_kind(self.value);
        }
        match &self.value {
            LuaValue::Number(bits) => match number_to_u64(*bits) {
                Some(n) => {
                    return Ok(n);
                },
                None => {},
            },
            _ => {},
        }
        Err(error(self.value))
    }

    /// A number as the single-precision number nearest to it, by its bit
    /// pattern. No double is refused: one that lies beyond the singles
    /// becomes an infinity.
    pub fn deserialize_f32(self) -> (r: DeResult<u32>)
        ensures
            match self@ {
                Value::Number(bits) => r == Ok::<u32, LuaDeserializeError>(narrowed(bits)),
                _ => fails_with(r, type_error(self@)),
            },
    {
        match self.deserialize_f64() {
            Ok(bits) => Ok(narrow(bits)),
            Err(error) => Err(error),
        }
    }

    /// A number, by its bit pattern.
    pub fn deserialize_f64(self) -> (r: DeResult<u64>)
        ensures
            finds_number(r, self@),
    {
        proof {
            lemma_view_kind(self.value);
        }
        match self.value {
            LuaValue::Number(bits) => Ok(bits),
            other => Err(error(other)),
        }
    }

    /// A string of exactly one character. A string of none or of several is
    /// an error that tells how many it has.
    pub fn deserialize_char(self) -> (r: DeResult<char>)
        ensures
            match self@ {
                Value::String(text) => if text.len() == 1 {
                    r == Ok::<char, LuaDeserializeError>(text[0])
                } else {
                    fails_with(r, Mismatch::InvalidLength(text.len() as usize))
                        && text.len() <= usize::MAX
                },
                _ => fails_with(r, type_error(self@)),
            },
    {
        proof {
            lemma_view_kind(self.value);
        }
        match self.value {
            LuaValue::String(text) => {
                let count = text.as_str().unicode_len();
                if count == 1 {
                    Ok(text.as_str().get_char(0))
                } else {
                    Err(LuaDeserializeError::invalid_length(count))
                }
            },
            other => Err(error(other)),
        }
    }

    /// As `deserialize_string`.
    pub fn deserialize_str(self) -> (r: DeResult<String>)
        ensures
            finds_string(r, self@),
    {
        self.deserialize_string()
    }

    /// The text of a string.
    pub fn deserialize_string(self) -> (r: DeResult<String>)
        ensures
            finds_string(r, self@),
    {
        proof {
            lemma_view_kind(self.value);
        }
        match self.value {
            LuaValue::String(text) => Ok(text),
            other => Err(error(other)),
        }
    }

    /// The bytes that a string stands for in base64, where the deserializer
    /// decodes bytes; where it does not, an error whatever the value is.
    pub fn deserialize_bytes(self) -> (r: DeResult<Vec<u8>>)
        ensures
            finds_bytes(r, self@, self.decodes_bytes()),
    {
        proof {
            lemma_view_kind(self.value);
        }
        if !self.base64_bytes {
            return Err(LuaDeserializeError { kind: DeserializeErrorKind::BytesUnsupported });
        }
        match self.value {
            LuaValue::String(text) => {
                if text.as_str().as_bytes().len() > isize::MAX as usize {
                    return Err(LuaDeserializeError::invalid_value(Unexpected::NonBase64Data));
                }
                match decode_base64(text.as_str()) {
                    Ok(bytes) => Ok(bytes),
                    Err(_) => Err(LuaDeserializeError::invalid_value(Unexpected::NonBase64Data)),
                }
            },
            other => Err(error(other)),
        }
    }

    /// As `deserialize_bytes`.
    pub fn deserialize_byte_buf(self) -> (r: DeResult<Vec<u8>>)
        ensures
            finds_bytes(r, self@, self.decodes_bytes()),
    {
        self.deserialize_bytes()
    }

    /// Nil is the absent value; any other value is present, and comes back to
    /// be decoded as what the option holds.
    pub fn deserialize_option(self) -> (r: Option<LuaDeserializer>)
        ensures
            match self@ {
                Value::Nil => r is None,
                _ => r == Some(self),
            },
    {
        proof {
            lemma_view_kind(self.value);
        }
        match self.value {
            LuaValue::Nil => None,
            _ => Some(self),
        }
    }

    /// The unit value, which nil stands for.
    pub fn deserialize_unit(self) -> (r: DeResult<()>)
        ensures
            finds_unit(r, self@),
    {
        proof {
            lemma_view_kind(self.value);
        }
        match self.value {
            LuaValue::Nil => Ok(()),
            other => Err(error(other)),
        }
    }

    /// A struct without fields, which nil stands for.
    pub fn deserialize_unit_struct(self, _name: &str) -> (r: DeResult<()>)
        ensures
            finds_unit(r, self@),
    {
        self.deserialize_unit()
    }

    /// A newtype is decoded from the value that it wraps: the deserializer
    /// comes back as it is.
    pub fn deserialize_newtype_struct(self, _name: &str) -> (r: LuaDeserializer)
        ensures
            r == self,
    {
        self
    }

    /// The elements of an array-shaped table, in ascending key order. A
    /// map-shaped table is an error, as is a value of another kind.
    pub fn deserialize_seq(self) -> (r: DeResult<LuaSeqAccess>)
        ensures
            match self@ {
                Value::Table(pairs) if array_shaped(pairs) => r matches Ok(access) && access@
                    == pairs && access.decodes_bytes() == self.decodes_bytes(),
                _ => fails_with(r, type_error(self@)),
            },
    {
        proof {
            lemma_view_kind(self.value);
        }
        let base64_bytes = self.base64_bytes;
        match self.value {
            LuaValue::Table(pairs) => match is_vec(pairs) {
                Ok(sorted) => Ok(LuaSeqAccess::over(sorted, base64_bytes)),
                Err(_) => Err(LuaDeserializeError::invalid_type(Unexpected::Table)),
            },
            other => Err(error(other)),
        }
    }

    /// The elements of an array-shaped table of exactly `len` pairs. A table
    /// of another length is an error that tells its length, whatever its
    /// shape.
    pub fn deserialize_tuple(self, len: usize) -> (r: DeResult<LuaSeqAccess>)
        ensures
            finds_tuple(r, self@, len, self.decodes_bytes()),
    {
        proof {
            lemma_view_kind(self.value);
        }
        let base64_bytes = self.base64_bytes;
        match self.value {
            LuaValue::Table(pairs) => {
                proof {
                    lemma_view_pairs(pairs@);
                }
                if pairs.len() != len {
                    return Err(LuaDeserializeError::invalid_length(pairs.len()));
                }
                match is_vec(pairs) {
                    Ok(sorted) => Ok(LuaSeqAccess::over(sorted, base64_bytes)),
                    Err(_) => Err(LuaDeserializeError::invalid_type(Unexpected::Table)),
                }
            },
            other => Err(error(other)),
        }
    }

    /// As `deserialize_tuple`.
    pub fn deserialize_tuple_struct(self, _name: &str, len: usize) -> (r: DeResult<
        LuaSeqAccess,
    >)
        ensures
            finds_tuple(r, self@, len, self.decodes_bytes()),
    {
        self.deserialize_tuple(len)
    }

    /// The pairs of a table in the order in which the table holds them,
    /// whatever its shape: an array-shaped table is a map keyed by positions.
    pub fn deserialize_map(self) -> (r: DeResult<LuaMapAccess>)
        ensures
            finds_map(r, self@, self.decodes_bytes()),
    {
        proof {
            lemma_view_kind(self.value);
        }
        let base64_bytes = self.base64_bytes;
        match self.value {
            LuaValue::Table(pairs) => Ok(LuaMapAccess::over(pairs, base64_bytes)),
            other => Err(error(other)),
        }
    }

    /// As `deserialize_map`.
    pub fn deserialize_struct(
        self,
        _name: &str,
        _fields: &[&str],
    ) -> (r: DeResult<LuaMapAccess>)
        ensures
            finds_map(r, self@, self.decodes_bytes()),
    {
        self.deserialize_map()
    }

    /// A string is the tag of a variant without payload. A table of one pair
    /// is the envelope of a variant: its key the tag, its value the payload.
    /// A table of no pair or of several is an error that tells its length.
    pub fn deserialize_enum(
        self,
        _name: &str,
        _variants: &[&str],
    ) -> (r: DeResult<LuaEnumAccess>)
        ensures
            match self@ {
                Value::String(text) => r matches Ok(access) && access.tag() == self@
                    && access.payload() == Value::Nil && access.decodes_bytes()
                    == self.decodes_bytes(),
                Value::Table(pairs) => if pairs.len() == 1 {
                    r matches Ok(access) && access.tag() == pairs[0].0 && access.payload()
                        == pairs[0].1 && access.decodes_bytes() == self.decodes_bytes()
                } else {
                    fails_with(r, Mismatch::InvalidLength(pairs.len() as usize))
                        && pairs.len() <= usize::MAX
                },
                _ => fails_with(r, type_error(self@)),
            },
    {
        proof {
            lemma_view_kind(self.value);
        }
        let base64_bytes = self.base64_bytes;
        match self.value {
            LuaValue::String(identifier) => {
                let tag = LuaValue::String(identifier);
                proof {
                    lemma_view_kind(tag);
                }
                Ok(LuaEnumAccess { tag, payload: LuaValue::Nil, base64_bytes })
            },
            LuaValue::Table(pairs) => {
                proof {
                    lemma_view_pairs(pairs@);
                }
                if pairs.len() != 1 {
                    return Err(LuaDeserializeError::invalid_length(pairs.len()));
                }
                let mut pairs = pairs;
                let (tag, payload) = pairs.pop().unwrap();
                Ok(LuaEnumAccess { tag, payload, base64_bytes })
            },
            other => Err(error(other)),
        }
    }

    /// As `deserialize_any`: what the value holds is for the caller to drop.
    pub fn deserialize_ignored_any(self) -> (r: DeResult<Visit>)
        ensures
            finds_any(r, self@, self.decodes_bytes()),
    {
        self.deserialize_any()
    }

    /// As `deserialize_string`.
    pub fn deserialize_identifier(self) -> (r: DeResult<String>)
        ensures
            finds_string(r, self@),
    {
        self.deserialize_string()
    }
}

/// Yields the elements of an array-shaped table, in ascending key order.
pub struct LuaSeqAccess {
    held: Vec<(LuaValue, LuaValue)>,
    base64_bytes: bool,
}

impl View for LuaSeqAccess {
    type V = Seq<(Value, Value)>;

    /// The pairs still to be yielded, the next one first.
    closed spec fn view(&self) -> Seq<(Value, Value)> {
        remaining(self.held@)
    }
}

impl LuaSeqAccess {
    /// Whether the deserializers that this helper yields decode bytes.
    pub closed spec fn decodes_bytes(&self) -> bool {
        self.base64_bytes
    }

    fn over(pairs: Vec<(LuaValue, LuaValue)>, base64_bytes: bool) -> (access: LuaSeqAccess)
        ensures
            access@ == view_pairs(pairs@),
            access.decodes_bytes() == base64_bytes,
    {
        LuaSeqAccess { held: reversed(pairs), base64_bytes }
    }

    /// The deserializer of the next element, or `None` when all have been
    /// yielded. The key of the pair is passed over.
    pub fn next_element_seed(&mut self) -> (r: Option<LuaDeserializer>)
        ensures
            final(self).decodes_bytes() == old(self).decodes_bytes(),
            match r {
                Some(element) => {
                    &&& old(self)@.len() > 0
                    &&& element@ == old(self)@[0].1
                    &&& element.decodes_bytes() == old(self).decodes_bytes()
                    &&& final(self)@ == old(self)@.drop_first()
                },
                None => old(self)@.len() == 0 && final(self)@ == old(self)@,
            },
    {
        let ghost before = self.held@;
        match self.held.pop() {
            Some((_, value)) => {
                assert(remaining(self.held@) =~= remaining(before).drop_first());
                Some(LuaDeserializer { value, base64_bytes: self.base64_bytes })
            },
            None => None,
        }
    }

    /// How many elements are still to be yielded.
    pub fn size_hint(&self) -> (r: Option<usize>)
        ensures
            r == Some(self@.len() as usize),
            self@.len() <= usize::MAX,
    {
        Some(self.held.len())
    }
}

/// Yields the pairs of a table in the order in which the table holds them.
/// After `next_key_seed` has yielded a key, the value of that pair waits for
/// `next_value_seed`.
pub struct LuaMapAccess {
    held: Vec<(LuaValue, LuaValue)>,
    waiting: Option<LuaValue>,
    base64_bytes: bool,
}

impl View for LuaMapAccess {
    type V = Seq<(Value, Value)>;

    /// The pairs still to be yielded, the next one first.
    closed spec fn view(&self) -> Seq<(Value, Value)> {
        remaining(self.held@)
    }
}

impl LuaMapAccess {
    /// Whether the deserializers that this helper yields decode bytes.
    pub closed spec fn decodes_bytes(&self) -> bool {
        self.base64_bytes
    }

    /// The value that waits for `next_value_seed`, if a key has been yielded
    /// and its value has not.
    pub closed spec fn pending(&self) -> Option<Value> {
        match self.waiting {
            Some(value) => Some(value@),
            None => None,
        }
    }

    fn over(pairs: Vec<(LuaValue, LuaValue)>, base64_bytes: bool) -> (access: LuaMapAccess)
        ensures
            access@ == view_pairs(pairs@),
            access.pending() is None,
            access.decodes_bytes() == base64_bytes,
    {
        LuaMapAccess { held: reversed(pairs), waiting: None, base64_bytes }
    }

    /// The deserializer of the next key, or `None` when all pairs have been
    /// yielded. The value of the pair then waits for `next_value_seed`.
    pub fn next_key_seed(&mut self) -> (r: Option<LuaDeserializer>)
        ensures
            final(self).decodes_bytes() == old(self).decodes_bytes(),
            match r {
                Some(key) => {
                    &&& old(self)@.len() > 0
                    &&& key@ == old(self)@[0].0
                    &&& key.decodes_bytes() == old(self).decodes_bytes()
                    &&& final(self)@ == old(self)@.drop_first()
                    &&& final(self).pending() == Some(old(self)@[0].1)
                },
                None => {
                    &&& old(self)@.len() == 0
                    &&& final(self)@ == old(self)@
                    &&& final(self).pending() == old(self).pending()
                },
            },
    {
        let ghost before = self.held@;
        match self.held.pop() {
            Some((key, value)) => {
                assert(remaining(self.held@) =~= remaining(before).drop_first());
                self.waiting = Some(value);
                Some(LuaDeserializer { value: key, base64_bytes: self.base64_bytes })
            },
            None => None,
        }
    }

    /// Whether a value waits for `next_value_seed`.
    pub fn has_pending(&self) -> (waits: bool)
        ensures
            waits == self.pending() is Some,
    {
        self.waiting.is_some()
    }

    /// The deserializer of the value that waits. It may be asked for only
    /// right after `next_key_seed` has yielded the key of its pair.
    pub fn next_value_seed(&mut self) -> (r: LuaDeserializer)
        requires
            old(self).pending() is Some,
        ensures
            r@ == old(self).pending()->Some_0,
            r.decodes_bytes() == old(self).decodes_bytes(),
            final(self).pending() is None,
            final(self)@ == old(self)@,
            final(self).decodes_bytes() == old(self).decodes_bytes(),
    {
        let mut waiting: Option<LuaValue> = None;
        std::mem::swap(&mut self.waiting, &mut waiting);
        LuaDeserializer { value: waiting.unwrap(), base64_bytes: self.base64_bytes }
    }

    /// The deserializers of the next key and of its value, or `None` when all
    /// pairs have been yielded. A value that waits is left waiting.
    pub fn next_entry_seed(&mut self) -> (r: Option<(LuaDeserializer, LuaDeserializer)>)
        ensures
            final(self).decodes_bytes() == old(self).decodes_bytes(),
            final(self).pending() == old(self).pending(),
            match r {
                Some((key, value)) => {
                    &&& old(self)@.len() > 0
                    &&& key@ == old(self)@[0].0
                    &&& value@ == old(self)@[0].1
                    &&& key.decodes_bytes() == old(self).decodes_bytes()
                    &&& value.decodes_bytes() == old(self).decodes_bytes()
                    &&& final(self)@ == old(self)@.drop_first()
                },
                None => old(self)@.len() == 0 && final(self)@ == old(self)@,
            },
    {
        let ghost before = self.held@;
        match self.held.pop() {
            Some((key, value)) => {
                assert(remaining(self.held@) =~= remaining(before).drop_first());
                Some(
                    (
                        LuaDeserializer { value: key, base64_bytes: self.base64_bytes },
                        LuaDeserializer { value, base64_bytes: self.base64_bytes },
                    ),
                )
            },
            None => None,
        }
    }

    /// How many pairs are still to be yielded.
    pub fn size_hint(&self) -> (r: Option<usize>)
        ensures
            r == Some(self@.len() as usize),
            self@.len() <= usize::MAX,
    {
        Some(self.held.len())
    }
}

/// The tag and the payload of an enum variant.
pub struct LuaEnumAccess {
    tag: LuaValue,
    payload: LuaValue,
    base64_bytes: bool,
}

impl LuaEnumAccess {
    /// Whether the deserializers that this helper yields decode bytes.
    pub closed spec fn decodes_bytes(&self) -> bool {
        self.base64_bytes
    }

    /// The value that names the variant.
    pub closed spec fn tag(&self) -> Value {
        self.tag@
    }

    /// The value that the variant carries; nil where the variant was given
    /// by its tag alone.
    pub closed spec fn payload(&self) -> Value {
        self.payload@
    }

    /// The deserializer of the tag, and the access to the payload.
    pub fn variant_seed(self) -> (r: (LuaDeserializer, LuaVariantAccess))
        ensures
            r.0@ == self.tag(),
            r.0.decodes_bytes() == self.decodes_bytes(),
            r.1@ == self.payload(),
            r.1.decodes_bytes() == self.decodes_bytes(),
    {
        (
            LuaDeserializer { value: self.tag, base64_bytes: self.base64_bytes },
            LuaVariantAccess { payload: self.payload, base64_bytes: self.base64_bytes },
        )
    }
}

/// The payload of an enum variant, to be decoded as the kind of variant that
/// the caller knows it to be.
pub struct LuaVariantAccess {
    payload: LuaValue,
    base64_bytes: bool,
}

impl View for LuaVariantAccess {
    type V = Value;

    /// The payload.
    closed spec fn view(&self) -> Value {
        self.payload@
    }
}

impl LuaVariantAccess {
    /// Whether the deserializers that this helper yields decode bytes.
    pub closed spec fn decodes_bytes(&self) -> bool {
        self.base64_bytes
    }

    /// A variant without payload has the payload nil.
    pub fn unit_variant(self) -> (r: DeResult<()>)
        ensures
            finds_unit(r, self@),
    {
        LuaDeserializer { value: self.payload, base64_bytes: self.base64_bytes }.deserialize_unit()
    }

    /// The deserializer of the payload, for a variant of one unnamed field.
    pub fn newtype_variant_seed(self) -> (r: LuaDeserializer)
        ensures
            r@ == self@,
            r.decodes_bytes() == self.decodes_bytes(),
    {
        LuaDeserializer { value: self.payload, base64_bytes: self.base64_bytes }
    }

    /// The fields of a tuple variant: the payload as a tuple of `len` elements.
    pub fn tuple_variant(self, len: usize) -> (r: DeResult<LuaSeqAccess>)
        ensures
            finds_tuple(r, self@, len, self.decodes_bytes()),
    {
        LuaDeserializer {
            value: self.payload,
            base64_bytes: self.base64_bytes,
        }.deserialize_tuple(len)
    }

    /// The fields of a struct variant: the payload as a map.
    pub fn struct_variant(self, fields: &[&str]) -> (r: DeResult<LuaMapAccess>)
        ensures
            finds_map(r, self@, self.decodes_bytes()),
    {
        LuaDeserializer {
            value: self.payload,
            base64_bytes: self.base64_bytes,
        }.deserialize_struct("", fields)
    }
}

} // verus!
