//! From native values to runtime values.
//!
//! A [`LuaSerializer`] turns one scalar into a runtime value. Aggregates are
//! built member by member: the serializer hands out a builder, each member is
//! added as the runtime value it has become, and `end` gives the finished
//! table. Nothing of a builder is seen before `end`.

use crate::encoding::{base64_text, encode_base64, text_fits};
use crate::number::{
    exponent_field, is_nan, lemma_compose, lemma_number_of, lemma_number_round_trip, magnitude,
    number_from_i64, number_from_u64, number_is_nan, number_of, scale, significand,
};
use crate::single::{widen, widened};
use crate::value::{
    array_shaped, envelope, lemma_view_pairs, lemma_view_pairs_push, view_pairs, LuaValue, Value,
};
use vstd::arithmetic::power2::{lemma2_to64, pow2};
use vstd::prelude::*;

verus! {

/// `String::push`: the character is appended to the string.
pub assume_specification[ std::string::String::push ](text: &mut std::string::String, ch: char)
    ensures
        final(text)@ == old(text)@.push(ch),
;

/// Why a value could not be encoded.
#[derive(Debug, Clone)]
pub enum SerializeErrorKind {
    /// An integer that no double equals exactly.
    Lossy,
    /// Bytes, where the serializer does not encode bytes.
    BytesUnsupported,
    /// A map key that encodes to nil.
    KeyNil,
    /// A map key that encodes to a number that is not a number.
    KeyNan,
    /// Bytes whose base64 text would be longer than a string can be.
    TextTooLong,
    /// A failure that the caller describes.
    Custom(String),
}

/// An error of encoding.
#[derive(Debug, Clone)]
pub struct LuaSerializeError {
    pub kind: SerializeErrorKind,
}

/// An error of encoding as contracts see it.
pub enum Refusal {
    Lossy,
    BytesUnsupported,
    KeyNil,
    KeyNan,
    TextTooLong,
    Custom(Seq<char>),
}

impl View for LuaSerializeError {
    type V = Refusal;

    open spec fn view(&self) -> Refusal {
        match self.kind {
            SerializeErrorKind::Lossy => Refusal::Lossy,
            SerializeErrorKind::BytesUnsupported => Refusal::BytesUnsupported,
            SerializeErrorKind::KeyNil => Refusal::KeyNil,
            SerializeErrorKind::KeyNan => Refusal::KeyNan,
            SerializeErrorKind::TextTooLong => Refusal::TextTooLong,
            SerializeErrorKind::Custom(text) => Refusal::Custom(text@),
        }
    }
}

/// What encoding returns.
pub type SerResult<T> = Result<T, LuaSerializeError>;

/// The description of an integer that no double equals.
pub const LOSSY: &'static str = "value cannot be losslessly represented as lua number (f64)";

/// The description of bytes handed to a serializer that does not encode bytes.
pub const BYTES_UNSUPPORTED: &'static str = "cannot serialize bytes; base64 bytes are switched off";

/// The description of a key that encodes to nil.
pub const KEY_NIL: &'static str = "unserializable key nil";

/// The description of a key that encodes to a number that is not a number.
pub const KEY_NAN: &'static str = "unserializable key NaN";

/// The description of bytes whose text would be too long.
pub const TEXT_TOO_LONG: &'static str = "bytes are too long to be encoded as text";

impl LuaSerializeError {
    /// An error with a description of the caller's own.
    pub fn custom(msg: &str) -> (error: LuaSerializeError)
        ensures
            error.kind matches SerializeErrorKind::Custom(text) && text@ == msg@,
    {
        LuaSerializeError { kind: SerializeErrorKind::Custom(msg.to_owned()) }
    }

    /// The description of the error.
    pub fn message(&self) -> (text: String)
        ensures
            text@ == (match self.kind {
                SerializeErrorKind::Lossy => LOSSY@,
                SerializeErrorKind::BytesUnsupported => BYTES_UNSUPPORTED@,
                SerializeErrorKind::KeyNil => KEY_NIL@,
                SerializeErrorKind::KeyNan => KEY_NAN@,
                SerializeErrorKind::TextTooLong => TEXT_TOO_LONG@,
                SerializeErrorKind::Custom(text) => text@,
            }),
    {
        match &self.kind {
            SerializeErrorKind::Lossy => LOSSY.to_owned(),
            SerializeErrorKind::BytesUnsupported => BYTES_UNSUPPORTED.to_owned(),
            SerializeErrorKind::KeyNil => KEY_NIL.to_owned(),
            SerializeErrorKind::KeyNan => KEY_NAN.to_owned(),
            SerializeErrorKind::TextTooLong => TEXT_TOO_LONG.to_owned(),
            SerializeErrorKind::Custom(text) => text.clone(),
        }
    }
}

/// What encoding the integer `n` gives: the number that stands for `n`, or the
/// error that no double equals it.
pub open spec fn encodes_integer(r: SerResult<LuaValue>, n: int) -> bool {
    match number_of(n) {
        Some(bits) => r matches Ok(value) && value@ == Value::Number(bits),
        None => r matches Err(error) && error.kind is Lossy,
    }
}

/// What encoding bytes gives: their base64 text where the serializer encodes
/// bytes and the text is one that a string can hold.
pub open spec fn encodes_bytes_as(r: SerResult<LuaValue>, bytes: Seq<u8>, enabled: bool) -> bool {
    if !enabled {
        r matches Err(error) && error.kind is BytesUnsupported
    } else if !text_fits(bytes.len()) {
        r matches Err(error) && error.kind is TextTooLong
    } else {
        r matches Ok(value) && value@ == Value::String(base64_text(bytes))
    }
}

/// The key under which the next element of a sequence goes: the number that
/// stands for its position, counted from 1.
pub open spec fn next_position(pairs: Seq<(Value, Value)>) -> Option<u64> {
    number_of(pairs.len() as int + 1)
}

/// What adding a member to a sequence does: the member goes to the end, under
/// the number of its position; where no double equals the position, nothing
/// is added and the result is the error of that.
pub open spec fn adds_member(
    r: SerResult<()>,
    before: Seq<(Value, Value)>,
    after: Seq<(Value, Value)>,
    member: Value,
) -> bool {
    match next_position(before) {
        Some(bits) => r is Ok && after == before.push((Value::Number(bits), member)),
        None => r matches Err(error) && error.kind is Lossy && after == before,
    }
}

/// Whether a runtime value can be the key of a table entry: neither nil nor a
/// number that is not a number.
pub open spec fn usable_key(key: Value) -> bool {
    match key {
        Value::Nil => false,
        Value::Number(bits) => !is_nan(bits),
        _ => true,
    }
}

/// The double that equals 2^64.
const TWO_TO_64: u64 = 0x43F0_0000_0000_0000;

proof fn lemma_two_to_64()
    ensures
        number_of(0x1_0000_0000_0000_0000) == Some(TWO_TO_64),
{
    lemma_compose(false, 1087, 0);
    lemma2_to64();
    assert(TWO_TO_64 == 1087 * 0x10_0000_0000_0000);
    assert(exponent_field(TWO_TO_64) == 1087);
    assert(significand(TWO_TO_64) == 0x10_0000_0000_0000);
    assert(scale(TWO_TO_64) == 12);
    assert(pow2(12) == 0x1000);
    assert(significand(TWO_TO_64) * pow2(12) == 0x1_0000_0000_0000_0000);
    assert(magnitude(TWO_TO_64) == Some(0x1_0000_0000_0000_0000nat));
    lemma_number_of(0x1_0000_0000_0000_0000, TWO_TO_64);
}

/// The number that a checked conversion found, as the result of encoding.
fn integer(found: Option<u64>) -> (r: SerResult<LuaValue>)
    ensures
        match found {
            Some(bits) => r matches Ok(value) && value@ == Value::Number(bits),
            None => r matches Err(error) && error.kind is Lossy,
        },
{
    match found {
        Some(bits) => Ok(LuaValue::Number(bits)),
        None => Err(LuaSerializeError { kind: SerializeErrorKind::Lossy }),
    }
}

/// The one-pair table that carries a variant's tag and payload.
fn wrap(variant: &str, payload: LuaValue) -> (table: LuaValue)
    ensures
        table@ == envelope(variant@, payload@),
{
    let mut pairs: Vec<(LuaValue, LuaValue)> = Vec::new();
    let tag = LuaValue::String(variant.to_owned());
    proof {
        lemma_view_pairs_push(pairs@, (tag, payload));
        assert(view_pairs(pairs@) =~= Seq::<(Value, Value)>::empty());
    }
    pairs.push((tag, payload));
    assert(view_pairs(pairs@) =~= seq![(Value::String(variant@), payload@)]);
    LuaValue::Table(pairs)
}

/// Encodes scalars and starts aggregates.
#[derive(Debug, Clone, Copy)]
pub struct LuaSerializer {
    base64_bytes: bool,
}

impl LuaSerializer {
    /// Whether this serializer encodes bytes, as base64 text.
    pub closed spec fn encodes_bytes(&self) -> bool {
        self.base64_bytes
    }

    /// A serializer that rejects bytes.
    pub fn new() -> (serializer: LuaSerializer)
        ensures
            !serializer.encodes_bytes(),
    {
        LuaSerializer { base64_bytes: false }
    }

    /// A serializer that encodes bytes as base64 text.
    pub fn with_base64_bytes() -> (serializer: LuaSerializer)
        ensures
            serializer.encodes_bytes(),
    {
        LuaSerializer { base64_bytes: true }
    }

    /// A boolean is a boolean.
    pub fn serialize_bool(self, v: bool) -> (r: SerResult<LuaValue>)
        ensures
            r matches Ok(value) && value@ == Value::Bool(v),
    {
        Ok(LuaValue::Bool(v))
    }

    /// A double equals every `i8`.
    pub fn serialize_i8(self, v: i8) -> (r: SerResult<LuaValue>)
        ensures
            r is Ok,
            encodes_integer(r, v as int),
    {
        integer(number_from_i64(v as i64))
    }

    /// A double equals every `i16`.
    pub fn serialize_i16(self, v: i16) -> (r: SerResult<LuaValue>)
        ensures
            r is Ok,
            encodes_integer(r, v as int),
    {
        integer(number_from_i64(v as i64))
    }

    /// A double equals every `i32`.
    pub fn serialize_i32(self, v: i32) -> (r: SerResult<LuaValue>)
        ensures
            r is Ok,
            encodes_integer(r, v as int),
    {
        integer(number_from_i64(v as i64))
    }

    /// Fails where no double equals `v`, rather than round it.
    pub fn serialize_i64(self, v: i64) -> (r: SerResult<LuaValue>)
        ensures
            encodes_integer(r, v as int),
    {
        integer(number_from_i64(v))
    }

    /// A double equals every `u8`.
    pub fn serialize_u8(self, v: u8) -> (r: SerResult<LuaValue>)
        ensures
            r is Ok,
            encodes_integer(r, v as int),
    {
        integer(number_from_u64(v as u64))
    }

    /// A double equals every `u16`.
    pub fn serialize_u16(self, v: u16) -> (r: SerResult<LuaValue>)
        ensures
            r is Ok,
            encodes_integer(r, v as int),
    {
        integer(number_from_u64(v as u64))
    }

    /// A double equals every `u32`.
    pub fn serialize_u32(self, v: u32) -> (r: SerResult<LuaValue>)
        ensures
            r is Ok,
            encodes_integer(r, v as int),
    {
        integer(number_from_u64(v as u64))
    }

    /// Fails where no double equals `v`, rather than round it.
    pub fn serialize_u64(self, v: u64) -> (r: SerResult<LuaValue>)
        ensures
            encodes_integer(r, v as int),
    {
        integer(number_from_u64(v))
    }

    /// A single-precision number, given by its bit pattern, is the double of
    /// the same value.
    pub fn serialize_f32(self, bits: u32) -> (r: SerResult<LuaValue>)
        ensures
            r matches Ok(value) && value@ == Value::Number(widened(bits)),
    {
        Ok(LuaValue::Number(widen(bits)))
    }

    /// A double, given by its bit pattern, is a number as it stands.
    pub fn serialize_f64(self, bits: u64) -> (r: SerResult<LuaValue>)
        ensures
            r matches Ok(value) && value@ == Value::Number(bits),
    {
        Ok(LuaValue::Number(bits))
    }

    /// A character is the string of that one character.
    pub fn serialize_char(self, v: char) -> (r: SerResult<LuaValue>)
        ensures
            r matches Ok(value) && value@ == Value::String(seq![v]),
    {
        let mut result = String::new();
        result.push(v);
        assert(result@ =~= seq![v]);
        Ok(LuaValue::String(result))
    }

    /// Text is a string.
    pub fn serialize_str(self, v: &str) -> (r: SerResult<LuaValue>)
        ensures
            r matches Ok(value) && value@ == Value::String(v@),
    {
        Ok(LuaValue::String(v.to_owned()))
    }

    /// Bytes become their base64 text where the serializer encodes bytes, and
    /// are an error where it does not. Bytes whose text would be longer than
    /// a string can be are an error too.
    pub fn serialize_bytes(self, v: &[u8]) -> (r: SerResult<LuaValue>)
        ensures
            encodes_bytes_as(r, v@, self.encodes_bytes()),
    {
        if !self.base64_bytes {
            return Err(LuaSerializeError { kind: SerializeErrorKind::BytesUnsupported });
        }
        // four symbols for every three bytes, and four for what is left over
        let groups = v.len() / 3;
        let longest = isize::MAX as usize;
        let most = if v.len() % 3 == 0 {
            longest / 4
        } else {
            (longest - 4) / 4
        };
        if groups > most {
            Err(LuaSerializeError { kind: SerializeErrorKind::TextTooLong })
        } else {
            Ok(LuaValue::String(encode_base64(v)))
        }
    }

    /// The option that holds nothing is nil.
    pub fn serialize_none(self) -> (r: SerResult<LuaValue>)
        ensures
            r matches Ok(value) && value@ == Value::Nil,
    {
        Ok(LuaValue::Nil)
    }

    /// A present optional value is encoded as the value itself.
    pub fn serialize_some(self, value: LuaValue) -> (r: SerResult<LuaValue>)
        ensures
            r == Ok::<LuaValue, LuaSerializeError>(value),
    {
        Ok(value)
    }

    /// The unit value is nil.
    pub fn serialize_unit(self) -> (r: SerResult<LuaValue>)
        ensures
            r matches Ok(value) && value@ == Value::Nil,
    {
        Ok(LuaValue::Nil)
    }

    /// A struct without fields is nil.
    pub fn serialize_unit_struct(self, _name: &str) -> (r: SerResult<LuaValue>)
        ensures
            r matches Ok(value) && value@ == Value::Nil,
    {
        Ok(LuaValue::Nil)
    }

    /// A variant without payload is its tag, as a string.
    pub fn serialize_unit_variant(
        self,
        _name: &str,
        _variant_index: u32,
        variant: &str,
    ) -> (r: SerResult<LuaValue>)
        ensures
            r matches Ok(value) && value@ == Value::String(variant@),
    {
        Ok(LuaValue::String(variant.to_owned()))
    }

    /// A newtype is encoded as the value it wraps.
    pub fn serialize_newtype_struct(self, _name: &str, value: LuaValue) -> (r: SerResult<
        LuaValue,
    >)
        ensures
            r == Ok::<LuaValue, LuaSerializeError>(value),
    {
        Ok(value)
    }

    /// A variant of one unnamed field is the envelope of its tag and that field.
    pub fn serialize_newtype_variant(
        self,
        _name: &str,
        _variant_index: u32,
        variant: &str,
        value: LuaValue,
    ) -> (r: SerResult<LuaValue>)
        ensures
            r matches Ok(table) && table@ == envelope(variant@, value@),
    {
        Ok(wrap(variant, value))
    }

    /// Starts a sequence. The length is a hint, and nothing rests on it.
    pub fn serialize_seq(self, _len: Option<usize>) -> (r: SerResult<LuaSerializeSeq>)
        ensures
            r matches Ok(builder) && builder@ == Seq::<(Value, Value)>::empty(),
    {
        Ok(LuaSerializeSeq::empty())
    }

    /// Starts a tuple, which is built as a sequence is.
    pub fn serialize_tuple(self, _len: usize) -> (r: SerResult<LuaSerializeSeq>)
        ensures
            r matches Ok(builder) && builder@ == Seq::<(Value, Value)>::empty(),
    {
        Ok(LuaSerializeSeq::empty())
    }

    /// Starts a struct of unnamed fields, which is built as a sequence is.
    pub fn serialize_tuple_struct(self, _name: &str, _len: usize) -> (r: SerResult<
        LuaSerializeSeq,
    >)
        ensures
            r matches Ok(builder) && builder@ == Seq::<(Value, Value)>::empty(),
    {
        Ok(LuaSerializeSeq::empty())
    }

    /// Starts a tuple variant: a sequence in the envelope of the variant's tag.
    pub fn serialize_tuple_variant(
        self,
        _name: &str,
        _variant_index: u32,
        variant: &str,
        _len: usize,
    ) -> (r: SerResult<LuaSerializeTupleVariant>)
        ensures
            r matches Ok(builder) && builder.tag() == variant@ && builder@ == Seq::<
                (Value, Value),
            >::empty(),
    {
        Ok(
            LuaSerializeTupleVariant {
                variant: variant.to_owned(),
                fields: LuaSerializeSeq::empty(),
            },
        )
    }

    /// Starts a map. The length is a hint, and nothing rests on it.
    pub fn serialize_map(self, _len: Option<usize>) -> (r: SerResult<LuaSerializeMap>)
        ensures
            r matches Ok(builder) && builder@ == Seq::<(Value, Value)>::empty(),
    {
        Ok(LuaSerializeMap::empty())
    }

    /// Starts a struct of named fields, which is built as a map is.
    pub fn serialize_struct(self, _name: &str, _len: usize) -> (r: SerResult<
        LuaSerializeMap,
    >)
        ensures
            r matches Ok(builder) && builder@ == Seq::<(Value, Value)>::empty(),
    {
        Ok(LuaSerializeMap::empty())
    }

    /// Starts a struct variant: a map in the envelope of the variant's tag.
    pub fn serialize_struct_variant(
        self,
        _name: &str,
        _variant_index: u32,
        variant: &str,
        _len: usize,
    ) -> (r: SerResult<LuaSerializeStructVariant>)
        ensures
            r matches Ok(builder) && builder.tag() == variant@ && builder@ == Seq::<
                (Value, Value),
            >::empty(),
    {
        Ok(
            LuaSerializeStructVariant {
                variant: variant.to_owned(),
                fields: LuaSerializeMap::empty(),
            },
        )
    }
}

/// Builds the table of a sequence, a tuple or a tuple struct. The key of each
/// element is its position, counted from 1, so the table is array-shaped.
pub struct LuaSerializeSeq {
    entries: Vec<(LuaValue, LuaValue)>,
}

impl View for LuaSerializeSeq {
    type V = Seq<(Value, Value)>;

    /// The pairs gathered so far.
    closed spec fn view(&self) -> Seq<(Value, Value)> {
        view_pairs(self.entries@)
    }
}

impl LuaSerializeSeq {
    #[verifier::type_invariant]
    spec fn positions_are_keys(&self) -> bool {
        array_shaped(view_pairs(self.entries@))
    }

    fn empty() -> (builder: LuaSerializeSeq)
        ensures
            builder@ == Seq::<(Value, Value)>::empty(),
    {
        let entries: Vec<(LuaValue, LuaValue)> = Vec::new();
        proof {
            lemma_view_pairs(entries@);
            assert(view_pairs(entries@) =~= Seq::<(Value, Value)>::empty());
        }
        LuaSerializeSeq { entries }
    }

    /// Adds `value` under the next position. A position that no double equals
    /// is an error and adds nothing.
    pub fn serialize_element(&mut self, value: LuaValue) -> (r: SerResult<()>)
        ensures
            adds_member(r, old(self)@, final(self)@, value@),
            old(self)@.len() < 0x20_0000_0000_0000 ==> r is Ok,
            array_shaped(final(self)@),
    {
        proof {
            use_type_invariant(&*self);
            lemma_view_pairs(self.entries@);
        }
        let len = self.entries.len() as u64;
        let position = if len == u64::MAX {
            // 2^64 is beyond `u64`, but a double equals it
            proof {
                lemma_two_to_64();
            }
            Some(TWO_TO_64)
        } else {
            number_from_u64(len + 1)
        };
        match position {
            Some(bits) => {
                let key = LuaValue::Number(bits);
                proof {
                    lemma_view_pairs_push(self.entries@, (key, value));
                    lemma_number_round_trip(len + 1);
                    assert(view_pairs(Seq::<(LuaValue, LuaValue)>::empty()) =~= Seq::<
                        (Value, Value),
                    >::empty());
                }
                // the pairs leave the builder while they grow, so that what
                // the builder holds is array-shaped at every moment
                let mut entries: Vec<(LuaValue, LuaValue)> = Vec::new();
                std::mem::swap(&mut self.entries, &mut entries);
                entries.push((key, value));
                std::mem::swap(&mut self.entries, &mut entries);
                Ok(())
            },
            None => Err(LuaSerializeError { kind: SerializeErrorKind::Lossy }),
        }
    }

    /// Adds a field of a tuple struct, as `serialize_element` adds an element.
    pub fn serialize_field(&mut self, value: LuaValue) -> (r: SerResult<()>)
        ensures
            adds_member(r, old(self)@, final(self)@, value@),
            old(self)@.len() < 0x20_0000_0000_0000 ==> r is Ok,
            array_shaped(final(self)@),
    {
        self.serialize_element(value)
    }

    /// The finished table.
    pub fn end(self) -> (r: SerResult<LuaValue>)
        ensures
            r matches Ok(table) && table@ == Value::Table(self@),
            array_shaped(self@),
    {
        proof {
            use_type_invariant(&self);
        }
        Ok(LuaValue::Table(self.entries))
    }
}

/// Builds the envelope of a tuple variant: the variant's tag, and under it the
/// array-shaped table of the fields.
pub struct LuaSerializeTupleVariant {
    variant: String,
    fields: LuaSerializeSeq,
}

impl View for LuaSerializeTupleVariant {
    type V = Seq<(Value, Value)>;

    /// The pairs of the fields gathered so far.
    closed spec fn view(&self) -> Seq<(Value, Value)> {
        self.fields@
    }
}

impl LuaSerializeTupleVariant {
    /// The variant's tag.
    pub closed spec fn tag(&self) -> Seq<char> {
        self.variant@
    }

    /// Adds `value` under the next position. A position that no double equals
    /// is an error and adds nothing.
    pub fn serialize_field(&mut self, value: LuaValue) -> (r: SerResult<()>)
        ensures
            final(self).tag() == old(self).tag(),
            adds_member(r, old(self)@, final(self)@, value@),
            old(self)@.len() < 0x20_0000_0000_0000 ==> r is Ok,
            array_shaped(final(self)@),
    {
        self.fields.serialize_element(value)
    }

    /// The finished envelope.
    pub fn end(self) -> (r: SerResult<LuaValue>)
        ensures
            r matches Ok(table) && table@ == envelope(self.tag(), Value::Table(self@)),
            array_shaped(self@),
    {
        let variant = self.variant;
        match self.fields.end() {
            Ok(payload) => Ok(wrap(variant.as_str(), payload)),
            Err(error) => Err(error),
        }
    }
}

/// What `serialize_key` and `serialize_entry` return for a key: the error of
/// the key that encodes to nil or to a number that is not a number, else
/// success.
pub open spec fn key_outcome(r: SerResult<()>, key: Value) -> bool {
    match key {
        Value::Nil => r matches Err(error) && error.kind is KeyNil,
        Value::Number(bits) if is_nan(bits) => r matches Err(error) && error.kind is KeyNan,
        _ => r is Ok,
    }
}

/// Tells a key that no table entry can have.
fn check_key(key: &LuaValue) -> (r: SerResult<()>)
    ensures
        key_outcome(r, key@),
        r is Ok <==> usable_key(key@),
{
    match key {
        LuaValue::Nil => Err(LuaSerializeError { kind: SerializeErrorKind::KeyNil }),
        LuaValue::Number(bits) => if number_is_nan(*bits) {
            Err(LuaSerializeError { kind: SerializeErrorKind::KeyNan })
        } else {
            Ok(())
        },
        _ => Ok(()),
    }
}

/// Builds the table of a map or a struct: the pairs in the order in which they
/// were added.
pub struct LuaSerializeMap {
    entries: Vec<(LuaValue, LuaValue)>,
}

impl View for LuaSerializeMap {
    type V = Seq<(Value, Value)>;

    /// The pairs gathered so far.
    closed spec fn view(&self) -> Seq<(Value, Value)> {
        view_pairs(self.entries@)
    }
}

impl LuaSerializeMap {
    fn empty() -> (builder: LuaSerializeMap)
        ensures
            builder@ == Seq::<(Value, Value)>::empty(),
    {
        let entries: Vec<(LuaValue, LuaValue)> = Vec::new();
        proof {
            lemma_view_pairs(entries@);
            assert(view_pairs(entries@) =~= Seq::<(Value, Value)>::empty());
        }
        LuaSerializeMap { entries }
    }

    /// Adds an entry with the key `key` and, for the time being, the value
    /// nil. A key that no entry can have is an error and adds nothing.
    pub fn serialize_key(&mut self, key: LuaValue) -> (r: SerResult<()>)
        ensures
            key_outcome(r, key@),
            final(self)@ == if usable_key(key@) {
                old(self)@.push((key@, Value::Nil))
            } else {
                old(self)@
            },
    {
        match check_key(&key) {
            Ok(()) => {
                proof {
                    lemma_view_pairs_push(self.entries@, (key, LuaValue::Nil));
                }
                self.entries.push((key, LuaValue::Nil));
                Ok(())
            },
            Err(error) => Err(error),
        }
    }

    /// Whether no entry has been added yet.
    pub fn is_empty(&self) -> (empty: bool)
        ensures
            empty == (self@.len() == 0),
    {
        proof {
            lemma_view_pairs(self.entries@);
        }
        self.entries.len() == 0
    }

    /// Gives the entry added last the value `value`.
    pub fn serialize_value(&mut self, value: LuaValue) -> (r: SerResult<()>)
        requires
            old(self)@.len() > 0,
        ensures
            r is Ok,
            final(self)@ == old(self)@.drop_last().push((old(self)@.last().0, value@)),
    {
        proof {
            lemma_view_pairs(self.entries@);
        }
        let ghost before = self.entries@;
        let (key, _) = self.entries.pop().unwrap();
        proof {
            lemma_view_pairs(before.drop_last());
            lemma_view_pairs_push(self.entries@, (key, value));
            assert(view_pairs(before.drop_last()) =~= view_pairs(before).drop_last());
        }
        self.entries.push((key, value));
        Ok(())
    }

    /// Adds the entry of `key` and `value`. A key that no entry can have is an
    /// error and adds nothing, whatever the value.
    pub fn serialize_entry(&mut self, key: LuaValue, value: LuaValue) -> (r: SerResult<()>)
        ensures
            key_outcome(r, key@),
            final(self)@ == if usable_key(key@) {
                old(self)@.push((key@, value@))
            } else {
                old(self)@
            },
    {
        match check_key(&key) {
            Ok(()) => {
                proof {
                    lemma_view_pairs_push(self.entries@, (key, value));
                }
                self.entries.push((key, value));
                Ok(())
            },
            Err(error) => Err(error),
        }
    }

    /// Adds the field of a struct: its name is the key.
    pub fn serialize_field(&mut self, key: &str, value: LuaValue) -> (r: SerResult<()>)
        ensures
            r is Ok,
            final(self)@ == old(self)@.push((Value::String(key@), value@)),
    {
        self.serialize_entry(LuaValue::String(key.to_owned()), value)
    }

    /// The finished table.
    pub fn end(self) -> (r: SerResult<LuaValue>)
        ensures
            r matches Ok(table) && table@ == Value::Table(self@),
    {
        Ok(LuaValue::Table(self.entries))
    }
}

/// Builds the envelope of a struct variant: the variant's tag, and under it
/// the table of the fields.
pub struct LuaSerializeStructVariant {
    variant: String,
    fields: LuaSerializeMap,
}

impl View for LuaSerializeStructVariant {
    type V = Seq<(Value, Value)>;

    /// The pairs of the fields gathered so far.
    closed spec fn view(&self) -> Seq<(Value, Value)> {
        self.fields@
    }
}

impl LuaSerializeStructVariant {
    /// The variant's tag.
    pub closed spec fn tag(&self) -> Seq<char> {
        self.variant@
    }

    /// Adds a field: its name is the key.
    pub fn serialize_field(&mut self, key: &str, value: LuaValue) -> (r: SerResult<()>)
        ensures
            r is Ok,
            final(self).tag() == old(self).tag(),
            final(self)@ == old(self)@.push((Value::String(key@), value@)),
    {
        self.fields.serialize_field(key, value)
    }

    /// The finished envelope.
    pub fn end(self) -> (r: SerResult<LuaValue>)
        ensures
            r matches Ok(table) && table@ == envelope(self.tag(), Value::Table(self@)),
    {
        let variant = self.variant;
        match self.fields.end() {
            Ok(payload) => Ok(wrap(variant.as_str(), payload)),
            Err(error) => Err(error),
        }
    }
}

} // verus!
