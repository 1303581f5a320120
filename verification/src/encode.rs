//! Whole native values to runtime values.
//!
//! `encode` says, as a function of the native value alone, what runtime value
//! it becomes or why it cannot become one. [`LuaSerializer::encode`] walks the
//! value and builds that result from the serializer's steps.

use crate::encoding::{base64_text, text_fits};
use crate::native::{
    lemma_view_entries, lemma_view_fields, lemma_view_items, lemma_view_native, view_entries,
    view_fields, view_items, Native, NativeView,
};
use crate::number::{is_nan, number_of};
use crate::ser::{LuaSerializer, Refusal, SerResult};
use crate::single::widened;
use crate::value::{envelope, LuaValue, Value};
use vstd::prelude::*;

verus! {

/// The number that stands for an integer, or the refusal to round it.
pub open spec fn encode_integer(n: int) -> Result<Value, Refusal> {
    match number_of(n) {
        Some(bits) => Ok(Value::Number(bits)),
        None => Err(Refusal::Lossy),
    }
}

/// Why a runtime value cannot be the key of a table entry, if it cannot.
pub open spec fn key_refusal(key: Value) -> Option<Refusal> {
    match key {
        Value::Nil => Some(Refusal::KeyNil),
        Value::Number(bits) if is_nan(bits) => Some(Refusal::KeyNan),
        _ => None,
    }
}

/// The table of the given pairs, if there are pairs.
pub open spec fn table_of(pairs: Result<Seq<(Value, Value)>, Refusal>) -> Result<Value, Refusal> {
    match pairs {
        Ok(pairs) => Ok(Value::Table(pairs)),
        Err(refusal) => Err(refusal),
    }
}

/// The pairs gathered so far, followed by those that are still to come.
pub open spec fn followed_by(
    gathered: Seq<(Value, Value)>,
    rest: Result<Seq<(Value, Value)>, Refusal>,
) -> Result<Seq<(Value, Value)>, Refusal> {
    match rest {
        Ok(rest) => Ok(gathered + rest),
        Err(refusal) => Err(refusal),
    }
}

/// The runtime value that a native value becomes, or the first refusal met on
/// the way through it. `bytes` tells whether bytes are encoded, as base64
/// text, or refused.
pub open spec fn encode(value: NativeView, bytes: bool) -> Result<Value, Refusal>
    decreases value, 1nat,
{
    match value {
        NativeView::Unit => Ok(Value::Nil),
        NativeView::Bool(b) => Ok(Value::Bool(b)),
        NativeView::I8(n) => encode_integer(n as int),
        NativeView::I16(n) => encode_integer(n as int),
        NativeView::I32(n) => encode_integer(n as int),
        NativeView::I64(n) => encode_integer(n as int),
        NativeView::U8(n) => encode_integer(n as int),
        NativeView::U16(n) => encode_integer(n as int),
        NativeView::U32(n) => encode_integer(n as int),
        NativeView::U64(n) => encode_integer(n as int),
        NativeView::F32(bits) => Ok(Value::Number(widened(bits))),
        NativeView::F64(bits) => Ok(Value::Number(bits)),
        NativeView::Char(c) => Ok(Value::String(seq![c])),
        NativeView::Str(text) => Ok(Value::String(text)),
        NativeView::Bytes(held) => if !bytes {
            Err(Refusal::BytesUnsupported)
        } else if !text_fits(held.len()) {
            Err(Refusal::TextTooLong)
        } else {
            Ok(Value::String(base64_text(held)))
        },
        NativeView::Absent => Ok(Value::Nil),
        NativeView::Present(inner) => encode(*inner, bytes),
        NativeView::Newtype(inner) => encode(*inner, bytes),
        NativeView::Sequence(items) => table_of(encode_items(items, 0, bytes)),
        NativeView::Tuple(items) => table_of(encode_items(items, 0, bytes)),
        NativeView::Mapping(entries) => table_of(encode_entries(entries, bytes)),
        NativeView::Struct(fields) => table_of(encode_fields(fields, bytes)),
        NativeView::UnitVariant(tag) => Ok(Value::String(tag)),
        NativeView::Variant(tag, payload) => match encode(*payload, bytes) {
            Ok(payload) => Ok(envelope(tag, payload)),
            Err(refusal) => Err(refusal),
        },
    }
}

/// The pairs of the members of a sequence, where `start` members stand before
/// them: the key of each is its position, counted from 1.
pub open spec fn encode_items(items: Seq<NativeView>, start: nat, bytes: bool) -> Result<
    Seq<(Value, Value)>,
    Refusal,
>
    decreases items, 0nat,
{
    if items.len() == 0 {
        Ok(Seq::empty())
    } else {
        match encode(items[0], bytes) {
            Err(refusal) => Err(refusal),
            Ok(member) => match number_of(start as int + 1) {
                None => Err(Refusal::Lossy),
                Some(position) => followed_by(
                    seq![(Value::Number(position), member)],
                    encode_items(items.drop_first(), start + 1, bytes),
                ),
            },
        }
    }
}

/// The pairs of the entries of a map. A key is refused as soon as it is
/// encoded, before its value is looked at.
pub open spec fn encode_entries(entries: Seq<(NativeView, NativeView)>, bytes: bool) -> Result<
    Seq<(Value, Value)>,
    Refusal,
>
    decreases entries, 0nat,
{
    if entries.len() == 0 {
        Ok(Seq::empty())
    } else {
        match encode(entries[0].0, bytes) {
            Err(refusal) => Err(refusal),
            Ok(key) => match key_refusal(key) {
                Some(refusal) => Err(refusal),
                None => match encode(entries[0].1, bytes) {
                    Err(refusal) => Err(refusal),
                    Ok(value) => followed_by(
                        seq![(key, value)],
                        encode_entries(entries.drop_first(), bytes),
                    ),
                },
            },
        }
    }
}

/// The pairs of the fields of a struct: the key of each is its name.
pub open spec fn encode_fields(fields: Seq<(Seq<char>, NativeView)>, bytes: bool) -> Result<
    Seq<(Value, Value)>,
    Refusal,
>
    decreases fields, 0nat,
{
    if fields.len() == 0 {
        Ok(Seq::empty())
    } else {
        match encode(fields[0].1, bytes) {
            Err(refusal) => Err(refusal),
            Ok(value) => followed_by(
                seq![(Value::String(fields[0].0), value)],
                encode_fields(fields.drop_first(), bytes),
            ),
        }
    }
}

/// Whether an entry of a map can be encoded: its key to a value that an entry
/// can have as key, and its value to any value.
pub open spec fn sound_entry(entry: (NativeView, NativeView), bytes: bool) -> bool {
    &&& encode(entry.0, bytes) matches Ok(key) && key_refusal(key) is None
    &&& encode(entry.1, bytes) is Ok
}

/// The entries of a map with a key that encodes to nil, or to a number that
/// is not a number, are refused.
proof fn lemma_entries_refused(entries: Seq<(NativeView, NativeView)>, at: int, bytes: bool)
    requires
        0 <= at < entries.len(),
        encode(entries[at].0, bytes) matches Ok(key) && key_refusal(key) is Some,
    ensures
        encode_entries(entries, bytes) is Err,
        (forall|j: int| 0 <= j < at ==> sound_entry(#[trigger] entries[j], bytes))
            ==> encode_entries(entries, bytes) == Err::<Seq<(Value, Value)>, Refusal>(
            key_refusal(encode(entries[at].0, bytes)->Ok_0)->Some_0,
        ),
    decreases at,
{
    if at > 0 {
        let rest = entries.drop_first();
        assert(rest[at - 1] == entries[at]);
        lemma_entries_refused(rest, at - 1, bytes);
        if forall|j: int| 0 <= j < at ==> sound_entry(#[trigger] entries[j], bytes) {
            assert(sound_entry(entries[0], bytes));
            assert forall|j: int| 0 <= j < at - 1 implies sound_entry(
                #[trigger] rest[j],
                bytes,
            ) by {
                assert(rest[j] == entries[j + 1]);
            }
        }
    }
}

/// A map with a key that encodes to nil, or to a number that is not a
/// number, is never encoded: no table comes back, whatever else the map
/// holds. Where every entry before that key can be encoded, the refusal is
/// the one of that key.
pub proof fn lemma_unusable_key(entries: Seq<(NativeView, NativeView)>, at: int, bytes: bool)
    requires
        0 <= at < entries.len(),
        encode(entries[at].0, bytes) matches Ok(key) && key_refusal(key) is Some,
    ensures
        encode(NativeView::Mapping(entries), bytes) is Err,
        (forall|j: int| 0 <= j < at ==> sound_entry(#[trigger] entries[j], bytes)) ==> encode(
            NativeView::Mapping(entries),
            bytes,
        ) == Err::<Value, Refusal>(key_refusal(encode(entries[at].0, bytes)->Ok_0)->Some_0),
{
    lemma_entries_refused(entries, at, bytes);
}

/// Whether `r` is what `expected` says: the value, or the refusal.
pub open spec fn encoded(r: SerResult<LuaValue>, expected: Result<Value, Refusal>) -> bool {
    match expected {
        Ok(value) => r matches Ok(found) && found@ == value,
        Err(refusal) => r matches Err(error) && error@ == refusal,
    }
}

impl LuaSerializer {
    /// The runtime value that `value` becomes.
    pub fn encode(self, value: &Native) -> (r: SerResult<LuaValue>)
        ensures
            encoded(r, encode(value@, self.encodes_bytes())),
        decreases value, 1nat,
    {
        proof {
            lemma_view_native(*value);
        }
        match value {
            Native::Unit => self.serialize_unit(),
            Native::Bool(b) => self.serialize_bool(*b),
            Native::I8(n) => self.serialize_i8(*n),
            Native::I16(n) => self.serialize_i16(*n),
            Native::I32(n) => self.serialize_i32(*n),
            Native::I64(n) => self.serialize_i64(*n),
            Native::U8(n) => self.serialize_u8(*n),
            Native::U16(n) => self.serialize_u16(*n),
            Native::U32(n) => self.serialize_u32(*n),
            Native::U64(n) => self.serialize_u64(*n),
            Native::F32(bits) => self.serialize_f32(*bits),
            Native::F64(bits) => self.serialize_f64(*bits),
            Native::Char(c) => self.serialize_char(*c),
            Native::Str(text) => self.serialize_str(text.as_str()),
            Native::Bytes(held) => self.serialize_bytes(held.as_slice()),
            Native::Absent => self.serialize_none(),
            Native::Present(inner) => match self.encode(&**inner) {
                Ok(inner) => self.serialize_some(inner),
                Err(error) => Err(error),
            },
            Native::Newtype(inner) => match self.encode(&**inner) {
                Ok(inner) => self.serialize_newtype_struct("", inner),
                Err(error) => Err(error),
            },
            Native::Sequence(items) => self.encode_items(items),
            Native::Tuple(items) => self.encode_items(items),
            Native::Mapping(entries) => self.encode_entries(entries),
            Native::Struct(fields) => self.encode_fields(fields),
            Native::UnitVariant(tag) => self.serialize_unit_variant("", 0, tag.as_str()),
            Native::Variant(tag, payload) => match &**payload {
                Native::Tuple(items) => {
                    proof {
                        reveal_with_fuel(encode, 2);
                        lemma_view_native(**payload);
                    }
                    self.encode_tuple_variant(tag, items)
                },
                Native::Struct(fields) => {
                    proof {
                        reveal_with_fuel(encode, 2);
                        lemma_view_native(**payload);
                    }
                    self.encode_struct_variant(tag, fields)
                },
                other => match self.encode(other) {
                    Ok(payload) => self.serialize_newtype_variant("", 0, tag.as_str(), payload),
                    Err(error) => Err(error),
                },
            },
        }
    }

    /// The envelope of a tuple variant.
    fn encode_tuple_variant(self, tag: &String, items: &Vec<Native>) -> (r: SerResult<LuaValue>)
        ensures
            encoded(
                r,
                match encode_items(view_items(items@), 0, self.encodes_bytes()) {
                    Ok(pairs) => Ok(envelope(tag@, Value::Table(pairs))),
                    Err(refusal) => Err(refusal),
                },
            ),
        decreases items, 0nat,
    {
        let ghost all = view_items(items@);
        let ghost bytes = self.encodes_bytes();
        proof {
            lemma_view_items(items@);
        }
        let mut builder = match self.serialize_tuple_variant("", 0, tag.as_str(), items.len()) {
            Ok(builder) => builder,
            Err(error) => {
                return Err(error);
            },
        };
        let mut i: usize = 0;
        assert(all.skip(0) =~= all);
        while i < items.len()
            invariant
                i <= items.len(),
                bytes == self.encodes_bytes(),
                all == view_items(items@),
                all.len() == items.len(),
                forall|j: int| 0 <= j < items.len() ==> #[trigger] all[j] == items@[j]@,
                builder@.len() == i,
                builder.tag() == tag@,
                encode_items(all, 0, bytes) == followed_by(
                    builder@,
                    encode_items(all.skip(i as int), i as nat, bytes),
                ),
            decreases items.len() - i,
        {
            let ghost rest = all.skip(i as int);
            let ghost gathered = builder@;
            proof {
                assert(rest[0] == all[i as int]);
                assert(rest.drop_first() =~= all.skip(i + 1));
            }
            let member = match self.encode(&items[i]) {
                Ok(member) => member,
                Err(error) => {
                    return Err(error);
                },
            };
            match builder.serialize_field(member) {
                Ok(()) => {},
                Err(error) => {
                    return Err(error);
                },
            }
            proof {
                let position = number_of(i + 1)->Some_0;
                let pair = (Value::Number(position), member@);
                match encode_items(all.skip(i + 1), (i + 1) as nat, bytes) {
                    Ok(tail) => {
                        assert(gathered + (seq![pair] + tail) =~= gathered.push(pair) + tail);
                    },
                    Err(_) => {},
                }
            }
            i += 1;
        }
        proof {
            assert(all.skip(i as int) =~= Seq::<NativeView>::empty());
            assert(builder@ + Seq::<(Value, Value)>::empty() =~= builder@);
        }
        builder.end()
    }

    /// The envelope of a struct variant.
    fn encode_struct_variant(self, tag: &String, fields: &Vec<(String, Native)>) -> (r: SerResult<
        LuaValue,
    >)
        ensures
            encoded(
                r,
                match encode_fields(view_fields(fields@), self.encodes_bytes()) {
                    Ok(pairs) => Ok(envelope(tag@, Value::Table(pairs))),
                    Err(refusal) => Err(refusal),
                },
            ),
        decreases fields, 0nat,
    {
        let ghost all = view_fields(fields@);
        let ghost bytes = self.encodes_bytes();
        proof {
            lemma_view_fields(fields@);
        }
        let mut builder = match self.serialize_struct_variant("", 0, tag.as_str(), fields.len()) {
            Ok(builder) => builder,
            Err(error) => {
                return Err(error);
            },
        };
        let mut i: usize = 0;
        assert(all.skip(0) =~= all);
        while i < fields.len()
            invariant
                i <= fields.len(),
                bytes == self.encodes_bytes(),
                all == view_fields(fields@),
                all.len() == fields.len(),
                forall|j: int|
                    0 <= j < fields.len() ==> #[trigger] all[j] == (
                        fields@[j].0@,
                        fields@[j].1@,
                    ),
                builder.tag() == tag@,
                encode_fields(all, bytes) == followed_by(
                    builder@,
                    encode_fields(all.skip(i as int), bytes),
                ),
            decreases fields.len() - i,
        {
            let ghost rest = all.skip(i as int);
            let ghost gathered = builder@;
            proof {
                assert(rest[0] == all[i as int]);
                assert(rest.drop_first() =~= all.skip(i + 1));
            }
            let value = match self.encode(&fields[i].1) {
                Ok(value) => value,
                Err(error) => {
                    return Err(error);
                },
            };
            match builder.serialize_field(fields[i].0.as_str(), value) {
                Ok(()) => {},
                Err(error) => {
                    return Err(error);
                },
            }
            proof {
                let pair = (Value::String(fields@[i as int].0@), value@);
                match encode_fields(all.skip(i + 1), bytes) {
                    Ok(tail) => {
                        assert(gathered + (seq![pair] + tail) =~= gathered.push(pair) + tail);
                    },
                    Err(_) => {},
                }
            }
            i += 1;
        }
        proof {
            assert(all.skip(i as int) =~= Seq::<(Seq<char>, NativeView)>::empty());
            assert(builder@ + Seq::<(Value, Value)>::empty() =~= builder@);
        }
        builder.end()
    }

    /// The table of a sequence or a tuple.
    fn encode_items(self, items: &Vec<Native>) -> (r: SerResult<LuaValue>)
        ensures
            encoded(r, table_of(encode_items(view_items(items@), 0, self.encodes_bytes()))),
        decreases items, 0nat,
    {
        let ghost all = view_items(items@);
        let ghost bytes = self.encodes_bytes();
        proof {
            lemma_view_items(items@);
        }
        let mut builder = match self.serialize_seq(Some(items.len())) {
            Ok(builder) => builder,
            Err(error) => {
                return Err(error);
            },
        };
        let mut i: usize = 0;
        assert(all.skip(0) =~= all);
        while i < items.len()
            invariant
                i <= items.len(),
                bytes == self.encodes_bytes(),
                all == view_items(items@),
                all.len() == items.len(),
                forall|j: int| 0 <= j < items.len() ==> #[trigger] all[j] == items@[j]@,
                builder@.len() == i,
                encode_items(all, 0, bytes) == followed_by(
                    builder@,
                    encode_items(all.skip(i as int), i as nat, bytes),
                ),
            decreases items.len() - i,
        {
            let ghost rest = all.skip(i as int);
            let ghost gathered = builder@;
            proof {
                assert(rest[0] == all[i as int]);
                assert(rest.drop_first() =~= all.skip(i + 1));
            }
            let member = match self.encode(&items[i]) {
                Ok(member) => member,
                Err(error) => {
                    return Err(error);
                },
            };
            match builder.serialize_element(member) {
                Ok(()) => {},
                Err(error) => {
                    return Err(error);
                },
            }
            proof {
                let position = number_of(i + 1)->Some_0;
                let pair = (Value::Number(position), member@);
                match encode_items(all.skip(i + 1), (i + 1) as nat, bytes) {
                    Ok(tail) => {
                        assert(gathered + (seq![pair] + tail) =~= gathered.push(pair) + tail);
                    },
                    Err(_) => {},
                }
            }
            i += 1;
        }
        proof {
            assert(all.skip(i as int) =~= Seq::<NativeView>::empty());
            assert(builder@ + Seq::<(Value, Value)>::empty() =~= builder@);
        }
        builder.end()
    }

    /// The table of a map.
    fn encode_entries(self, entries: &Vec<(Native, Native)>) -> (r: SerResult<LuaValue>)
        ensures
            encoded(r, table_of(encode_entries(view_entries(entries@), self.encodes_bytes()))),
        decreases entries, 0nat,
    {
        let ghost all = view_entries(entries@);
        let ghost bytes = self.encodes_bytes();
        proof {
            lemma_view_entries(entries@);
        }
        let mut builder = match self.serialize_map(Some(entries.len())) {
            Ok(builder) => builder,
            Err(error) => {
                return Err(error);
            },
        };
        let mut i: usize = 0;
        assert(all.skip(0) =~= all);
        while i < entries.len()
            invariant
                i <= entries.len(),
                bytes == self.encodes_bytes(),
                all == view_entries(entries@),
                all.len() == entries.len(),
                forall|j: int|
                    0 <= j < entries.len() ==> #[trigger] all[j] == (
                        entries@[j].0@,
                        entries@[j].1@,
                    ),
                encode_entries(all, bytes) == followed_by(
                    builder@,
                    encode_entries(all.skip(i as int), bytes),
                ),
            decreases entries.len() - i,
        {
            let ghost rest = all.skip(i as int);
            let ghost gathered = builder@;
            proof {
                assert(rest[0] == all[i as int]);
                assert(rest.drop_first() =~= all.skip(i + 1));
            }
            let key = match self.encode(&entries[i].0) {
                Ok(key) => key,
                Err(error) => {
                    return Err(error);
                },
            };
            let ghost key_view = key@;
            match builder.serialize_key(key) {
                Ok(()) => {},
                Err(error) => {
                    return Err(error);
                },
            }
            let value = match self.encode(&entries[i].1) {
                Ok(value) => value,
                Err(error) => {
                    return Err(error);
                },
            };
            match builder.serialize_value(value) {
                Ok(()) => {},
                Err(error) => {
                    return Err(error);
                },
            }
            proof {
                let pair = (key_view, value@);
                assert(builder@ =~= gathered.push(pair));
                match encode_entries(all.skip(i + 1), bytes) {
                    Ok(tail) => {
                        assert(gathered + (seq![pair] + tail) =~= gathered.push(pair) + tail);
                    },
                    Err(_) => {},
                }
            }
            i += 1;
        }
        proof {
            assert(all.skip(i as int) =~= Seq::<(NativeView, NativeView)>::empty());
            assert(builder@ + Seq::<(Value, Value)>::empty() =~= builder@);
        }
        builder.end()
    }

    /// The table of a struct.
    fn encode_fields(self, fields: &Vec<(String, Native)>) -> (r: SerResult<LuaValue>)
        ensures
            encoded(r, table_of(encode_fields(view_fields(fields@), self.encodes_bytes()))),
        decreases fields, 0nat,
    {
        let ghost all = view_fields(fields@);
        let ghost bytes = self.encodes_bytes();
        proof {
            lemma_view_fields(fields@);
        }
        let mut builder = match self.serialize_struct("", fields.len()) {
            Ok(builder) => builder,
            Err(error) => {
                return Err(error);
            },
        };
        let mut i: usize = 0;
        assert(all.skip(0) =~= all);
        while i < fields.len()
            invariant
                i <= fields.len(),
                bytes == self.encodes_bytes(),
                all == view_fields(fields@),
                all.len() == fields.len(),
                forall|j: int|
                    0 <= j < fields.len() ==> #[trigger] all[j] == (
                        fields@[j].0@,
                        fields@[j].1@,
                    ),
                encode_fields(all, bytes) == followed_by(
                    builder@,
                    encode_fields(all.skip(i as int), bytes),
                ),
            decreases fields.len() - i,
        {
            let ghost rest = all.skip(i as int);
            let ghost gathered = builder@;
            proof {
                assert(rest[0] == all[i as int]);
                assert(rest.drop_first() =~= all.skip(i + 1));
            }
            let value = match self.encode(&fields[i].1) {
                Ok(value) => value,
                Err(error) => {
                    return Err(error);
                },
            };
            match builder.serialize_field(fields[i].0.as_str(), value) {
                Ok(()) => {},
                Err(error) => {
                    return Err(error);
                },
            }
            proof {
                let pair = (Value::String(fields@[i as int].0@), value@);
                match encode_fields(all.skip(i + 1), bytes) {
                    Ok(tail) => {
                        assert(gathered + (seq![pair] + tail) =~= gathered.push(pair) + tail);
                    },
                    Err(_) => {},
                }
            }
            i += 1;
        }
        proof {
            assert(all.skip(i as int) =~= Seq::<(Seq<char>, NativeView)>::empty());
            assert(builder@ + Seq::<(Value, Value)>::empty() =~= builder@);
        }
        builder.end()
    }
}

/// The runtime value that a native value becomes, bytes refused.
pub fn to_lua(value: &Native) -> (r: SerResult<LuaValue>)
    ensures
        encoded(r, encode(value@, false)),
{
    LuaSerializer::new().encode(value)
}

} // verus!
