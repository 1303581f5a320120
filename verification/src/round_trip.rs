//! What is encoded comes back.
//!
//! A native value that has become a runtime value is decoded, by the shape of
//! its type, to the value that it was. Three kinds of value are left out:
//! bytes, whose text is the work of another crate; an option that holds a
//! value which itself encodes to nil, for nil is the option that holds
//! nothing; and a single-precision value that is not a number and is not
//! quiet, which widening makes quiet.

use crate::decode::{
    decode, decode_entries, decode_fields, decode_items, decode_tuple, empty_slots, fill,
    find_field, find_variant, finish,
};
use crate::de::Mismatch;
use crate::encode::{encode, encode_entries, encode_fields, encode_items};
use crate::native::{Field, NativeView, Shape};
use crate::number::{lemma_number_round_trip, number_of};
use crate::ser::Refusal;
use crate::single::{
    lemma_single_comes_back, single_fraction_field, single_is_nan, SINGLE_QUIET_BIT,
};
use crate::value::{key_position, Value};
use vstd::prelude::*;

verus! {

/// Whether a native value is a value of the type that a shape describes. The
/// fields of a struct stand in the order of their declaration and have
/// different names; the tag of a variant names the variant.
pub open spec fn conforms(value: NativeView, shape: Shape) -> bool
    decreases value,
{
    match (value, shape) {
        (NativeView::Unit, Shape::Unit) => true,
        (NativeView::Bool(_), Shape::Bool) => true,
        (NativeView::I8(_), Shape::I8) => true,
        (NativeView::I16(_), Shape::I16) => true,
        (NativeView::I32(_), Shape::I32) => true,
        (NativeView::I64(_), Shape::I64) => true,
        (NativeView::U8(_), Shape::U8) => true,
        (NativeView::U16(_), Shape::U16) => true,
        (NativeView::U32(_), Shape::U32) => true,
        (NativeView::U64(_), Shape::U64) => true,
        (NativeView::F32(_), Shape::F32) => true,
        (NativeView::F64(_), Shape::F64) => true,
        (NativeView::Char(_), Shape::Char) => true,
        (NativeView::Str(_), Shape::Str) => true,
        (NativeView::Bytes(_), Shape::Bytes) => true,
        (NativeView::Absent, Shape::Optional(_)) => true,
        (NativeView::Present(held), Shape::Optional(inner)) => conforms(*held, *inner),
        (NativeView::Newtype(held), Shape::Newtype(inner)) => conforms(*held, *inner),
        (NativeView::Sequence(items), Shape::Sequence(inner)) => forall|i: int|
            0 <= i < items.len() ==> conforms(#[trigger] items[i], *inner),
        (NativeView::Tuple(items), Shape::Tuple(shapes)) => {
            &&& items.len() == shapes@.len()
            &&& forall|i: int| 0 <= i < items.len() ==> conforms(#[trigger] items[i], shapes@[i])
        },
        (NativeView::Mapping(entries), Shape::Mapping(keys, values)) => forall|i: int|
            0 <= i < entries.len() ==> conforms((#[trigger] entries[i]).0, *keys) && conforms(
                entries[i].1,
                *values,
            ),
        (NativeView::Struct(fields), Shape::Struct(declared)) => {
            &&& fields.len() == declared@.len()
            &&& forall|i: int|
                0 <= i < fields.len() ==> (#[trigger] fields[i]).0 == declared@[i].name@
                    && conforms(fields[i].1, declared@[i].shape)
            &&& forall|i: int, j: int|
                0 <= i < j < declared@.len() ==> (#[trigger] declared@[i]).name@
                    != (#[trigger] declared@[j]).name@
        },
        (NativeView::UnitVariant(tag), Shape::Enum(variants)) => {
            &&& find_variant(variants@, tag, 0) matches Some(j)
            &&& 0 <= j < variants@.len()
            &&& variants@[j].1 is Unit
        },
        (NativeView::Variant(tag, payload), Shape::Enum(variants)) => {
            &&& find_variant(variants@, tag, 0) matches Some(j)
            &&& 0 <= j < variants@.len()
            &&& !(variants@[j].1 is Unit)
            &&& conforms(*payload, variants@[j].1)
        },
        _ => false,
    }
}

/// Whether nothing in a native value is of the three kinds that do not come
/// back: bytes, an option that holds a value which encodes to nil, and a
/// single-precision value that is not a number and is not quiet.
pub open spec fn comes_back(value: NativeView, bytes: bool) -> bool
    decreases value,
{
    match value {
        NativeView::Bytes(_) => false,
        NativeView::F32(bits) => !single_is_nan(bits) || single_fraction_field(bits)
            >= SINGLE_QUIET_BIT,
        NativeView::Present(held) => encode(*held, bytes) != Ok::<Value, Refusal>(Value::Nil)
            && comes_back(*held, bytes),
        NativeView::Newtype(held) => comes_back(*held, bytes),
        NativeView::Sequence(items) => forall|i: int|
            0 <= i < items.len() ==> comes_back(#[trigger] items[i], bytes),
        NativeView::Tuple(items) => forall|i: int|
            0 <= i < items.len() ==> comes_back(#[trigger] items[i], bytes),
        NativeView::Mapping(entries) => forall|i: int|
            0 <= i < entries.len() ==> comes_back((#[trigger] entries[i]).0, bytes)
                && comes_back(entries[i].1, bytes),
        NativeView::Struct(fields) => forall|i: int|
            0 <= i < fields.len() ==> comes_back((#[trigger] fields[i]).1, bytes),
        NativeView::Variant(_, payload) => comes_back(*payload, bytes),
        _ => true,
    }
}

/// An integer that is encoded is decoded to itself, within any bounds that
/// hold it.
proof fn lemma_integer_comes_back(n: int, low: int, high: int)
    requires
        low <= n <= high,
        number_of(n) is Some,
    ensures
        crate::de::integer_of(Value::Number(number_of(n)->Some_0), low, high) == Some(n),
{
    lemma_number_round_trip(n);
}

/// The round trip of the members of a sequence.
proof fn lemma_items_come_back(items: Seq<NativeView>, start: nat, sequence: Shape, bytes: bool)
    requires
        sequence is Sequence,
        forall|i: int|
            0 <= i < items.len() ==> conforms(#[trigger] items[i], *sequence->Sequence_0),
        forall|i: int| 0 <= i < items.len() ==> comes_back(#[trigger] items[i], bytes),
        encode_items(items, start, bytes) is Ok,
    ensures
        ({
            let pairs = encode_items(items, start, bytes)->Ok_0;
            &&& pairs.len() == items.len()
            &&& forall|i: int|
                0 <= i < pairs.len() ==> key_position(#[trigger] pairs[i].0) == Some(
                    start + i + 1,
                )
            &&& decode_items(pairs, sequence, bytes) == Ok::<Seq<NativeView>, Mismatch>(items)
        }),
    decreases items, 0nat,
{
    let pairs = encode_items(items, start, bytes)->Ok_0;
    if items.len() == 0 {
        assert(items =~= Seq::<NativeView>::empty());
    } else {
        let first = items[0];
        let rest = items.drop_first();
        let member = encode(first, bytes)->Ok_0;
        let position = number_of(start as int + 1)->Some_0;
        let tail = encode_items(rest, start + 1, bytes)->Ok_0;
        assert(pairs == seq![(Value::Number(position), member)] + tail);
        assert forall|i: int| 0 <= i < rest.len() implies conforms(
            #[trigger] rest[i],
            *sequence->Sequence_0,
        ) && comes_back(rest[i], bytes) by {
            assert(rest[i] == items[i + 1]);
        }
        lemma_round_trip(first, *sequence->Sequence_0, bytes);
        lemma_items_come_back(rest, start + 1, sequence, bytes);
        lemma_number_round_trip(start as int + 1);
        assert(pairs[0] == (Value::Number(position), member));
        assert(pairs.drop_first() =~= tail);
        assert forall|i: int| 0 <= i < pairs.len() implies key_position(#[trigger] pairs[i].0)
            == Some(start + i + 1) by {
            if i > 0 {
                assert(pairs[i] == tail[i - 1]);
            }
        }
        assert(seq![first] + rest =~= items);
    }
}

/// The round trip of the members of a tuple, of which `start` stand before
/// the given ones.
proof fn lemma_tuple_comes_back(
    items: Seq<NativeView>,
    start: nat,
    shapes: Seq<Shape>,
    bytes: bool,
)
    requires
        start + items.len() == shapes.len(),
        forall|i: int| 0 <= i < items.len() ==> conforms(#[trigger] items[i], shapes[start + i]),
        forall|i: int| 0 <= i < items.len() ==> comes_back(#[trigger] items[i], bytes),
        encode_items(items, start, bytes) is Ok,
    ensures
        ({
            let pairs = encode_items(items, start, bytes)->Ok_0;
            &&& pairs.len() == items.len()
            &&& forall|i: int|
                0 <= i < pairs.len() ==> key_position(#[trigger] pairs[i].0) == Some(
                    start + i + 1,
                )
            &&& decode_tuple(pairs, shapes, start as int, bytes) == Ok::<
                Seq<NativeView>,
                Mismatch,
            >(items)
        }),
    decreases items, 0nat,
{
    let pairs = encode_items(items, start, bytes)->Ok_0;
    if items.len() == 0 {
        assert(items =~= Seq::<NativeView>::empty());
    } else {
        let first = items[0];
        let rest = items.drop_first();
        let member = encode(first, bytes)->Ok_0;
        let position = number_of(start as int + 1)->Some_0;
        let tail = encode_items(rest, start + 1, bytes)->Ok_0;
        assert(pairs == seq![(Value::Number(position), member)] + tail);
        assert forall|i: int| 0 <= i < rest.len() implies conforms(
            #[trigger] rest[i],
            shapes[start + 1 + i],
        ) && comes_back(rest[i], bytes) by {
            assert(rest[i] == items[i + 1]);
        }
        lemma_round_trip(first, shapes[start as int], bytes);
        lemma_tuple_comes_back(rest, start + 1, shapes, bytes);
        lemma_number_round_trip(start as int + 1);
        assert(pairs[0] == (Value::Number(position), member));
        assert(pairs.drop_first() =~= tail);
        assert forall|i: int| 0 <= i < pairs.len() implies key_position(#[trigger] pairs[i].0)
            == Some(start + i + 1) by {
            if i > 0 {
                assert(pairs[i] == tail[i - 1]);
            }
        }
        assert(seq![first] + rest =~= items);
    }
}

/// The round trip of the entries of a map.
proof fn lemma_entries_come_back(
    entries: Seq<(NativeView, NativeView)>,
    mapping: Shape,
    bytes: bool,
)
    requires
        mapping is Mapping,
        forall|i: int|
            0 <= i < entries.len() ==> conforms((#[trigger] entries[i]).0, *mapping->Mapping_0)
                && conforms(entries[i].1, *mapping->Mapping_1),
        forall|i: int|
            0 <= i < entries.len() ==> comes_back((#[trigger] entries[i]).0, bytes) && comes_back(
                entries[i].1,
                bytes,
            ),
        encode_entries(entries, bytes) is Ok,
    ensures
        decode_entries(encode_entries(entries, bytes)->Ok_0, mapping, bytes) == Ok::<
            Seq<(NativeView, NativeView)>,
            Mismatch,
        >(entries),
    decreases entries, 0nat,
{
    let pairs = encode_entries(entries, bytes)->Ok_0;
    if entries.len() == 0 {
        assert(entries =~= Seq::<(NativeView, NativeView)>::empty());
    } else {
        let first = entries[0];
        let rest = entries.drop_first();
        let key = encode(first.0, bytes)->Ok_0;
        let value = encode(first.1, bytes)->Ok_0;
        let tail = encode_entries(rest, bytes)->Ok_0;
        assert(pairs == seq![(key, value)] + tail);
        assert forall|i: int| 0 <= i < rest.len() implies conforms(
            (#[trigger] rest[i]).0,
            *mapping->Mapping_0,
        ) && conforms(rest[i].1, *mapping->Mapping_1) && comes_back(rest[i].0, bytes)
            && comes_back(rest[i].1, bytes) by {
            assert(rest[i] == entries[i + 1]);
        }
        lemma_round_trip(first.0, *mapping->Mapping_0, bytes);
        lemma_round_trip(first.1, *mapping->Mapping_1, bytes);
        lemma_entries_come_back(rest, mapping, bytes);
        assert(pairs[0] == (key, value));
        assert(pairs.drop_first() =~= tail);
        assert(seq![first] + rest =~= entries);
    }
}

/// The pairs of a struct that has been encoded: for each field its name and
/// what its value has become.
proof fn lemma_fields_encoded(fields: Seq<(Seq<char>, NativeView)>, bytes: bool)
    requires
        encode_fields(fields, bytes) is Ok,
    ensures
        ({
            let pairs = encode_fields(fields, bytes)->Ok_0;
            &&& pairs.len() == fields.len()
            &&& forall|i: int|
                0 <= i < fields.len() ==> encode((#[trigger] fields[i]).1, bytes) is Ok
            &&& forall|i: int|
                0 <= i < fields.len() ==> #[trigger] pairs[i] == (
                    Value::String(fields[i].0),
                    encode(fields[i].1, bytes)->Ok_0,
                )
        }),
    decreases fields.len(),
{
    let pairs = encode_fields(fields, bytes)->Ok_0;
    if fields.len() > 0 {
        let rest = fields.drop_first();
        let value = encode(fields[0].1, bytes)->Ok_0;
        let tail = encode_fields(rest, bytes)->Ok_0;
        assert(pairs == seq![(Value::String(fields[0].0), value)] + tail);
        lemma_fields_encoded(rest, bytes);
        assert forall|i: int| 0 <= i < fields.len() implies encode(
            (#[trigger] fields[i]).1,
            bytes,
        ) is Ok by {
            if i > 0 {
                assert(fields[i] == rest[i - 1]);
            }
        }
        assert forall|i: int| 0 <= i < fields.len() implies #[trigger] pairs[i] == (
            Value::String(fields[i].0),
            encode(fields[i].1, bytes)->Ok_0,
        ) by {
            if i > 0 {
                assert(fields[i] == rest[i - 1]);
                assert(pairs[i] == tail[i - 1]);
            }
        }
    }
}

/// Among fields of different names, a field is found by its name.
proof fn lemma_find_field(declared: Seq<Field>, place: int, from: int)
    requires
        0 <= from <= place < declared.len(),
        forall|i: int, j: int|
            0 <= i < j < declared.len() ==> (#[trigger] declared[i]).name@
                != (#[trigger] declared[j]).name@,
    ensures
        find_field(declared, declared[place].name@, from) == Some(place),
    decreases place - from,
{
    if from < place {
        lemma_find_field(declared, place, from + 1);
    }
}

/// The values of the first `count` fields, each in its slot, and no value in
/// the slots after them.
pub open spec fn slots_of(fields: Seq<(Seq<char>, NativeView)>, count: int) -> Seq<
    Option<NativeView>,
> {
    Seq::new(
        fields.len(),
        |j: int|
            if j < count {
                Some(fields[j].1)
            } else {
                None
            },
    )
}

/// Reading the pairs of an encoded struct from the pair `done` on fills the
/// slots that are still empty.
proof fn lemma_fill(
    fields: Seq<(Seq<char>, NativeView)>,
    declared: Seq<Field>,
    pairs: Seq<(Value, Value)>,
    done: int,
    bytes: bool,
)
    requires
        0 <= done <= fields.len(),
        fields.len() == declared.len(),
        pairs.len() == fields.len(),
        forall|i: int|
            0 <= i < fields.len() ==> (#[trigger] fields[i]).0 == declared[i].name@ && conforms(
                fields[i].1,
                declared[i].shape,
            ),
        forall|i: int, j: int|
            0 <= i < j < declared.len() ==> (#[trigger] declared[i]).name@
                != (#[trigger] declared[j]).name@,
        forall|i: int| 0 <= i < fields.len() ==> comes_back((#[trigger] fields[i]).1, bytes),
        forall|i: int| 0 <= i < fields.len() ==> encode((#[trigger] fields[i]).1, bytes) is Ok,
        forall|i: int|
            0 <= i < fields.len() ==> #[trigger] pairs[i] == (
                Value::String(fields[i].0),
                encode(fields[i].1, bytes)->Ok_0,
            ),
    ensures
        fill(pairs.skip(done), declared, slots_of(fields, done), bytes) == Ok::<
            Seq<Option<NativeView>>,
            Mismatch,
        >(slots_of(fields, fields.len() as int)),
    decreases fields, fields.len() - done,
{
    let rest = pairs.skip(done);
    if done == fields.len() {
        assert(rest.len() == 0);
    } else {
        let slots = slots_of(fields, done);
        assert(rest[0] == pairs[done]);
        assert(pairs[done] == (
            Value::String(fields[done].0),
            encode(fields[done].1, bytes)->Ok_0,
        ));
        lemma_find_field(declared, done, 0);
        assert(fields[done].0 == declared[done].name@);
        assert(slots[done] is None);
        lemma_round_trip(fields[done].1, declared[done].shape, bytes);
        assert(slots.update(done, Some(fields[done].1)) =~= slots_of(fields, done + 1));
        assert(rest.drop_first() =~= pairs.skip(done + 1));
        lemma_fill(fields, declared, pairs, done + 1, bytes);
    }
}

/// With a value in every slot, the fields come out as they were.
proof fn lemma_finish(fields: Seq<(Seq<char>, NativeView)>, declared: Seq<Field>, from: int)
    requires
        0 <= from <= fields.len(),
        fields.len() == declared.len(),
        forall|i: int| 0 <= i < fields.len() ==> (#[trigger] fields[i]).0 == declared[i].name@,
    ensures
        finish(declared, slots_of(fields, fields.len() as int), from) == Ok::<
            Seq<(Seq<char>, NativeView)>,
            Mismatch,
        >(fields.skip(from)),
    decreases fields.len() - from,
{
    let slots = slots_of(fields, fields.len() as int);
    if from == fields.len() {
        assert(fields.skip(from) =~= Seq::<(Seq<char>, NativeView)>::empty());
    } else {
        lemma_finish(fields, declared, from + 1);
        assert(slots[from] == Some(fields[from].1));
        assert(fields[from] == (declared[from].name@, fields[from].1));
        assert(seq![fields[from]] + fields.skip(from + 1) =~= fields.skip(from));
    }
}

/// A native value that is encoded comes back when it is decoded by the shape
/// of its type: for every value that conforms to the shape, holds none of
/// the three kinds that do not come back, and can be encoded at all,
/// decoding what it has become gives the value.
pub proof fn lemma_round_trip(value: NativeView, shape: Shape, bytes: bool)
    requires
        conforms(value, shape),
        comes_back(value, bytes),
        encode(value, bytes) is Ok,
    ensures
        decode(encode(value, bytes)->Ok_0, shape, bytes) == Ok::<NativeView, Mismatch>(value),
    decreases value, 1nat,
{
    let encoded = encode(value, bytes)->Ok_0;
    match value {
        NativeView::I8(n) => {
            lemma_integer_comes_back(n as int, i8::MIN as int, i8::MAX as int);
        },
        NativeView::I16(n) => {
            lemma_integer_comes_back(n as int, i16::MIN as int, i16::MAX as int);
        },
        NativeView::I32(n) => {
            lemma_integer_comes_back(n as int, i32::MIN as int, i32::MAX as int);
        },
        NativeView::I64(n) => {
            lemma_integer_comes_back(n as int, i64::MIN as int, i64::MAX as int);
        },
        NativeView::U8(n) => {
            lemma_integer_comes_back(n as int, 0, u8::MAX as int);
        },
        NativeView::U16(n) => {
            lemma_integer_comes_back(n as int, 0, u16::MAX as int);
        },
        NativeView::U32(n) => {
            lemma_integer_comes_back(n as int, 0, u32::MAX as int);
        },
        NativeView::U64(n) => {
            lemma_integer_comes_back(n as int, 0, u64::MAX as int);
        },
        NativeView::F32(bits) => {
            lemma_single_comes_back(bits);
        },
        NativeView::Char(c) => {
            assert(seq![c].len() == 1);
            assert(seq![c][0] == c);
        },
        NativeView::Present(held) => {
            lemma_round_trip(*held, *shape->Optional_0, bytes);
        },
        NativeView::Newtype(held) => {
            lemma_round_trip(*held, *shape->Newtype_0, bytes);
        },
        NativeView::Sequence(items) => {
            lemma_items_come_back(items, 0, shape, bytes);
        },
        NativeView::Tuple(items) => {
            lemma_tuple_comes_back(items, 0, shape->Tuple_0@, bytes);
        },
        NativeView::Mapping(entries) => {
            lemma_entries_come_back(entries, shape, bytes);
        },
        NativeView::Struct(fields) => {
            let declared = shape->Struct_0@;
            let pairs = encode_fields(fields, bytes)->Ok_0;
            lemma_fields_encoded(fields, bytes);
            assert(pairs.skip(0) =~= pairs);
            assert(slots_of(fields, 0) =~= empty_slots(declared.len()));
            lemma_fill(fields, declared, pairs, 0, bytes);
            lemma_finish(fields, declared, 0);
            assert(fields.skip(0) =~= fields);
            assert(decode_fields(pairs, declared, bytes) == Ok::<
                Seq<(Seq<char>, NativeView)>,
                Mismatch,
            >(fields));
        },
        NativeView::UnitVariant(tag) => {},
        NativeView::Variant(tag, payload) => {
            let variants = shape->Enum_0@;
            let j = find_variant(variants, tag, 0)->Some_0;
            lemma_round_trip(*payload, variants[j].1, bytes);
            let inner = encode(*payload, bytes)->Ok_0;
            assert(encoded == Value::Table(seq![(Value::String(tag), inner)]));
            assert(seq![(Value::String(tag), inner)].len() == 1);
            assert(seq![(Value::String(tag), inner)][0] == (Value::String(tag), inner));
        },
        _ => {},
    }
}

} // verus!
