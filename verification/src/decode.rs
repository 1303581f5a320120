//! Runtime values to whole native values.
//!
//! `decode` says, as a function of the runtime value and of the shape that
//! the caller expects, what native value comes out or which mismatch is met
//! first. [`LuaDeserializer::decode`] asks the deserializer and its access
//! helpers for the parts and builds that result.

use crate::de::{
    bytes_of_text, fails_with, integer_of, type_error, DeResult, LuaDeserializeError,
    LuaDeserializer, LuaMapAccess, LuaSeqAccess, Mismatch, UnexpectedView, Visit,
};
use crate::native::{
    lemma_view_entries_push, lemma_view_fields_push, lemma_view_items_push, lemma_view_native,
    view_entries, view_fields, view_items, Field, Native, NativeView, Shape,
};
use crate::single::narrowed;
use crate::value::{array_shaped, Value};
use vstd::pervasive::VecAdditionalExecFns;
use vstd::prelude::*;

verus! {

/// What walking through a value that nobody wants gives: nothing, unless the
/// walk meets a string that is not valid UTF-8 or a value without
/// representation. Of an array-shaped table the values are walked through, of
/// a map-shaped one the keys and the values.
pub open spec fn ignore(value: Value) -> Result<(), Mismatch>
    decreases value, 0nat,
{
    match value {
        Value::RawString(_) => Err(Mismatch::InvalidType(UnexpectedView::NonUtf8String)),
        Value::Opaque => Err(type_error(value)),
        Value::Table(pairs) => if array_shaped(pairs) {
            ignore_values(pairs)
        } else {
            ignore_entries(pairs)
        },
        _ => Ok(()),
    }
}

/// Walks through the values of the pairs, in order.
pub open spec fn ignore_values(rest: Seq<(Value, Value)>) -> Result<(), Mismatch>
    decreases rest, 0nat,
{
    if rest.len() == 0 {
        Ok(())
    } else {
        match ignore(rest[0].1) {
            Err(mismatch) => Err(mismatch),
            Ok(()) => ignore_values(rest.drop_first()),
        }
    }
}

/// Walks through the keys and values of the pairs, in order.
pub open spec fn ignore_entries(rest: Seq<(Value, Value)>) -> Result<(), Mismatch>
    decreases rest, 0nat,
{
    if rest.len() == 0 {
        Ok(())
    } else {
        match ignore(rest[0].0) {
            Err(mismatch) => Err(mismatch),
            Ok(()) => match ignore(rest[0].1) {
                Err(mismatch) => Err(mismatch),
                Ok(()) => ignore_entries(rest.drop_first()),
            },
        }
    }
}

/// The index of the first field of the given name, looked for from `from` on.
pub open spec fn find_field(fields: Seq<Field>, name: Seq<char>, from: int) -> Option<int>
    decreases fields.len() - from,
{
    if from < 0 || from >= fields.len() {
        None
    } else if fields[from].name@ == name {
        Some(from)
    } else {
        find_field(fields, name, from + 1)
    }
}

/// The index of the first variant of the given tag, looked for from `from` on.
pub open spec fn find_variant(variants: Seq<(String, Shape)>, tag: Seq<char>, from: int) -> Option<
    int,
>
    decreases variants.len() - from,
{
    if from < 0 || from >= variants.len() {
        None
    } else if variants[from].0@ == tag {
        Some(from)
    } else {
        find_variant(variants, tag, from + 1)
    }
}

/// The tag and the payload of an enum variant: a string is a tag without
/// payload, a table of one pair holds both.
pub open spec fn variant_parts(value: Value) -> Result<(Value, Value), Mismatch> {
    match value {
        Value::String(_) => Ok((value, Value::Nil)),
        Value::Table(pairs) => if pairs.len() == 1 {
            Ok(pairs[0])
        } else {
            Err(Mismatch::InvalidLength(pairs.len() as usize))
        },
        _ => Err(type_error(value)),
    }
}

/// The number of pairs of a table; 0 for a value of another kind.
pub open spec fn pair_count(value: Value) -> nat {
    match value {
        Value::Table(pairs) => pairs.len(),
        _ => 0,
    }
}

/// A member in front of the members that follow it.
pub open spec fn item_then(first: NativeView, rest: Result<Seq<NativeView>, Mismatch>) -> Result<
    Seq<NativeView>,
    Mismatch,
> {
    match rest {
        Ok(rest) => Ok(seq![first] + rest),
        Err(mismatch) => Err(mismatch),
    }
}

/// An entry in front of the entries that follow it.
pub open spec fn entry_then(
    first: (NativeView, NativeView),
    rest: Result<Seq<(NativeView, NativeView)>, Mismatch>,
) -> Result<Seq<(NativeView, NativeView)>, Mismatch> {
    match rest {
        Ok(rest) => Ok(seq![first] + rest),
        Err(mismatch) => Err(mismatch),
    }
}

/// A field in front of the fields that follow it.
pub open spec fn field_then(
    first: (Seq<char>, NativeView),
    rest: Result<Seq<(Seq<char>, NativeView)>, Mismatch>,
) -> Result<Seq<(Seq<char>, NativeView)>, Mismatch> {
    match rest {
        Ok(rest) => Ok(seq![first] + rest),
        Err(mismatch) => Err(mismatch),
    }
}

/// The value of a field after all entries have been read: what an entry gave
/// it, else its default, else nothing if it is an option.
pub open spec fn field_value(field: Field, slot: Option<NativeView>) -> Result<
    NativeView,
    Mismatch,
> {
    match slot {
        Some(value) => Ok(value),
        None => match field.default {
            Some(value) => Ok(value@),
            None => if field.shape is Optional {
                Ok(NativeView::Absent)
            } else {
                Err(Mismatch::MissingField(field.name@))
            },
        },
    }
}

/// The fields of a struct from `from` on, each with its value, in the order
/// of their declaration.
pub open spec fn finish(fields: Seq<Field>, slots: Seq<Option<NativeView>>, from: int) -> Result<
    Seq<(Seq<char>, NativeView)>,
    Mismatch,
>
    decreases fields.len() - from,
{
    if from < 0 || from >= fields.len() || from >= slots.len() {
        Ok(Seq::empty())
    } else {
        match field_value(fields[from], slots[from]) {
            Err(mismatch) => Err(mismatch),
            Ok(value) => field_then((fields[from].name@, value), finish(fields, slots, from + 1)),
        }
    }
}

/// The native value of the given shape that a runtime value stands for, or
/// the first mismatch met on the way through it. `bytes` tells whether bytes
/// are decoded, from base64 text, or refused.
pub open spec fn decode(value: Value, shape: Shape, bytes: bool) -> Result<NativeView, Mismatch>
    decreases shape, 1 + pair_count(value),
{
    match shape {
        Shape::Unit => match value {
            Value::Nil => Ok(NativeView::Unit),
            _ => Err(type_error(value)),
        },
        Shape::Bool => match value {
            Value::Bool(b) => Ok(NativeView::Bool(b)),
            _ => Err(type_error(value)),
        },
        Shape::I8 => match integer_of(value, i8::MIN as int, i8::MAX as int) {
            Some(n) => Ok(NativeView::I8(n as i8)),
            None => Err(type_error(value)),
        },
        Shape::I16 => match integer_of(value, i16::MIN as int, i16::MAX as int) {
            Some(n) => Ok(NativeView::I16(n as i16)),
            None => Err(type_error(value)),
        },
        Shape::I32 => match integer_of(value, i32::MIN as int, i32::MAX as int) {
            Some(n) => Ok(NativeView::I32(n as i32)),
            None => Err(type_error(value)),
        },
        Shape::I64 => match integer_of(value, i64::MIN as int, i64::MAX as int) {
            Some(n) => Ok(NativeView::I64(n as i64)),
            None => Err(type_error(value)),
        },
        Shape::U8 => match integer_of(value, 0, u8::MAX as int) {
            Some(n) => Ok(NativeView::U8(n as u8)),
            None => Err(type_error(value)),
        },
        Shape::U16 => match integer_of(value, 0, u16::MAX as int) {
            Some(n) => Ok(NativeView::U16(n as u16)),
            None => Err(type_error(value)),
        },
        Shape::U32 => match integer_of(value, 0, u32::MAX as int) {
            Some(n) => Ok(NativeView::U32(n as u32)),
            None => Err(type_error(value)),
        },
        Shape::U64 => match integer_of(value, 0, u64::MAX as int) {
            Some(n) => Ok(NativeView::U64(n as u64)),
            None => Err(type_error(value)),
        },
        Shape::F32 => match value {
            Value::Number(bits) => Ok(NativeView::F32(narrowed(bits))),
            _ => Err(type_error(value)),
        },
        Shape::F64 => match value {
            Value::Number(bits) => Ok(NativeView::F64(bits)),
            _ => Err(type_error(value)),
        },
        Shape::Char => match value {
            Value::String(text) => if text.len() == 1 {
                Ok(NativeView::Char(text[0]))
            } else {
                Err(Mismatch::InvalidLength(text.len() as usize))
            },
            _ => Err(type_error(value)),
        },
        Shape::Str => match value {
            Value::String(text) => Ok(NativeView::Str(text)),
            _ => Err(type_error(value)),
        },
        Shape::Bytes => if !bytes {
            Err(Mismatch::BytesUnsupported)
        } else {
            match value {
                Value::String(text) => match bytes_of_text(text) {
                    Some(held) => Ok(NativeView::Bytes(held)),
                    None => Err(Mismatch::InvalidValue(UnexpectedView::NonBase64Data)),
                },
                _ => Err(type_error(value)),
            }
        },
        Shape::Optional(inner) => match value {
            Value::Nil => Ok(NativeView::Absent),
            _ => match decode(value, *inner, bytes) {
                Ok(found) => Ok(NativeView::Present(Box::new(found))),
                Err(mismatch) => Err(mismatch),
            },
        },
        Shape::Newtype(inner) => match decode(value, *inner, bytes) {
            Ok(found) => Ok(NativeView::Newtype(Box::new(found))),
            Err(mismatch) => Err(mismatch),
        },
        Shape::Sequence(inner) => match value {
            Value::Table(pairs) if array_shaped(pairs) => match decode_items(
                pairs,
                shape,
                bytes,
            ) {
                Ok(items) => Ok(NativeView::Sequence(items)),
                Err(mismatch) => Err(mismatch),
            },
            _ => Err(type_error(value)),
        },
        Shape::Tuple(shapes) => match value {
            Value::Table(pairs) => if pairs.len() != shapes@.len() {
                Err(Mismatch::InvalidLength(pairs.len() as usize))
            } else if array_shaped(pairs) {
                match decode_tuple(pairs, shapes@, 0, bytes) {
                    Ok(items) => Ok(NativeView::Tuple(items)),
                    Err(mismatch) => Err(mismatch),
                }
            } else {
                Err(type_error(value))
            },
            _ => Err(type_error(value)),
        },
        Shape::Mapping(keys, values) => match value {
            Value::Table(pairs) => match decode_entries(pairs, shape, bytes) {
                Ok(entries) => Ok(NativeView::Mapping(entries)),
                Err(mismatch) => Err(mismatch),
            },
            _ => Err(type_error(value)),
        },
        Shape::Struct(fields) => match value {
            Value::Table(pairs) => match decode_fields(pairs, fields@, bytes) {
                Ok(found) => Ok(NativeView::Struct(found)),
                Err(mismatch) => Err(mismatch),
            },
            _ => Err(type_error(value)),
        },
        Shape::Enum(variants) => match variant_parts(value) {
            Err(mismatch) => Err(mismatch),
            Ok((tag, payload)) => match tag {
                Value::String(name) => match find_variant(variants@, name, 0) {
                    Some(j) if 0 <= j < variants@.len() => match variants@[j].1 {
                        Shape::Unit => match payload {
                            Value::Nil => Ok(NativeView::UnitVariant(name)),
                            _ => Err(type_error(payload)),
                        },
                        other => match decode(payload, other, bytes) {
                            Ok(found) => Ok(NativeView::Variant(name, Box::new(found))),
                            Err(mismatch) => Err(mismatch),
                        },
                    },
                    _ => Err(Mismatch::UnknownVariant(name)),
                },
                _ => Err(type_error(tag)),
            },
        },
    }
}

/// The members of a sequence of the shape `sequence`: the values of the
/// pairs, in order.
pub open spec fn decode_items(rest: Seq<(Value, Value)>, sequence: Shape, bytes: bool) -> Result<
    Seq<NativeView>,
    Mismatch,
>
    decreases sequence, rest.len(),
{
    match sequence {
        Shape::Sequence(inner) => if rest.len() == 0 {
            Ok(Seq::empty())
        } else {
            match decode(rest[0].1, *inner, bytes) {
                Err(mismatch) => Err(mismatch),
                Ok(first) => item_then(first, decode_items(rest.drop_first(), sequence, bytes)),
            }
        },
        _ => Ok(Seq::empty()),
    }
}

/// The members of a tuple: the values of the pairs, each of the shape that
/// stands at its place, the first pair at the place `from`.
pub open spec fn decode_tuple(
    rest: Seq<(Value, Value)>,
    shapes: Seq<Shape>,
    from: int,
    bytes: bool,
) -> Result<Seq<NativeView>, Mismatch>
    decreases shapes, 1 + rest.len(),
{
    if rest.len() == 0 || from < 0 || from >= shapes.len() {
        Ok(Seq::empty())
    } else {
        match decode(rest[0].1, shapes[from], bytes) {
            Err(mismatch) => Err(mismatch),
            Ok(first) => item_then(
                first,
                decode_tuple(rest.drop_first(), shapes, from + 1, bytes),
            ),
        }
    }
}

/// The entries of a map of the shape `mapping`: of each pair the key, then
/// the value.
pub open spec fn decode_entries(rest: Seq<(Value, Value)>, mapping: Shape, bytes: bool) -> Result<
    Seq<(NativeView, NativeView)>,
    Mismatch,
>
    decreases mapping, rest.len(),
{
    match mapping {
        Shape::Mapping(keys, values) => if rest.len() == 0 {
            Ok(Seq::empty())
        } else {
            match decode(rest[0].0, *keys, bytes) {
                Err(mismatch) => Err(mismatch),
                Ok(key) => match decode(rest[0].1, *values, bytes) {
                    Err(mismatch) => Err(mismatch),
                    Ok(value) => entry_then(
                        (key, value),
                        decode_entries(rest.drop_first(), mapping, bytes),
                    ),
                },
            }
        },
        _ => Ok(Seq::empty()),
    }
}

/// No value for any of `count` fields.
pub open spec fn empty_slots(count: nat) -> Seq<Option<NativeView>> {
    Seq::new(count, |j: int| None::<NativeView>)
}

/// The struct of the given fields that the pairs of a table stand for.
pub open spec fn decode_fields(
    rest: Seq<(Value, Value)>,
    fields: Seq<Field>,
    bytes: bool,
) -> Result<Seq<(Seq<char>, NativeView)>, Mismatch>
    decreases fields, 2 + rest.len(),
{
    match fill(rest, fields, empty_slots(fields.len()), bytes) {
        Ok(slots) => finish(fields, slots, 0),
        Err(mismatch) => Err(mismatch),
    }
}

/// What the entries of a table give the fields of a struct: `slots` holds,
/// for each field, the value that an entry has given it so far. The key of an
/// entry must be a string. An entry for a field that has a value already is
/// an error; an entry for no field is walked through and dropped.
pub open spec fn fill(
    rest: Seq<(Value, Value)>,
    fields: Seq<Field>,
    slots: Seq<Option<NativeView>>,
    bytes: bool,
) -> Result<Seq<Option<NativeView>>, Mismatch>
    decreases fields, 1 + rest.len(),
{
    if rest.len() == 0 {
        Ok(slots)
    } else {
        match rest[0].0 {
            Value::String(name) => match find_field(fields, name, 0) {
                Some(j) if 0 <= j < fields.len() && j < slots.len() => if slots[j] is Some {
                    Err(Mismatch::DuplicateField(name))
                } else {
                    match decode(rest[0].1, fields[j].shape, bytes) {
                        Err(mismatch) => Err(mismatch),
                        Ok(found) => fill(
                            rest.drop_first(),
                            fields,
                            slots.update(j, Some(found)),
                            bytes,
                        ),
                    }
                },
                _ => match ignore(rest[0].1) {
                    Err(mismatch) => Err(mismatch),
                    Ok(()) => fill(rest.drop_first(), fields, slots, bytes),
                },
            },
            key => Err(type_error(key)),
        }
    }
}

/// What has been gathered so far, followed by what is still to come.
pub open spec fn after<T>(gathered: Seq<T>, rest: Result<Seq<T>, Mismatch>) -> Result<
    Seq<T>,
    Mismatch,
> {
    match rest {
        Ok(rest) => Ok(gathered + rest),
        Err(mismatch) => Err(mismatch),
    }
}

/// Whether `r` is what `expected` says: the value, or the mismatch.
pub open spec fn decoded(r: DeResult<Native>, expected: Result<NativeView, Mismatch>) -> bool {
    match expected {
        Ok(value) => r matches Ok(found) && found@ == value,
        Err(mismatch) => fails_with(r, mismatch),
    }
}

/// The values that entries have given the fields of a struct, each by its view.
pub open spec fn view_slots(slots: Seq<Option<Native>>) -> Seq<Option<NativeView>> {
    Seq::new(
        slots.len(),
        |j: int|
            match slots[j] {
                Some(value) => Some(value@),
                None => None,
            },
    )
}

/// The place of the first field of the given name.
fn field_index(fields: &Vec<Field>, name: &String) -> (found: Option<usize>)
    ensures
        match find_field(fields@, name@, 0) {
            Some(j) => found == Some(j as usize) && 0 <= j < fields.len(),
            None => found is None,
        },
{
    let mut i: usize = 0;
    while i < fields.len()
        invariant
            i <= fields.len(),
            find_field(fields@, name@, 0) == find_field(fields@, name@, i as int),
        decreases fields.len() - i,
    {
        if fields[i].name == *name {
            return Some(i);
        }
        i += 1;
    }
    None
}

/// The place of the first variant of the given tag.
fn variant_index(variants: &Vec<(String, Shape)>, tag: &String) -> (found: Option<usize>)
    ensures
        match find_variant(variants@, tag@, 0) {
            Some(j) => found == Some(j as usize) && 0 <= j < variants.len(),
            None => found is None,
        },
{
    let mut i: usize = 0;
    while i < variants.len()
        invariant
            i <= variants.len(),
            find_variant(variants@, tag@, 0) == find_variant(variants@, tag@, i as int),
        decreases variants.len() - i,
    {
        if variants[i].0 == *tag {
            return Some(i);
        }
        i += 1;
    }
    None
}

/// The members of a sequence of the shape `sequence`.
fn read_items(source: LuaSeqAccess, sequence: &Shape) -> (r: DeResult<Vec<Native>>)
    ensures
        match decode_items(source@, *sequence, source.decodes_bytes()) {
            Ok(items) => r matches Ok(found) && view_items(found@) == items,
            Err(mismatch) => fails_with(r, mismatch),
        },
    decreases sequence, 0nat,
{
    let mut out: Vec<Native> = Vec::new();
    let inner = match sequence {
        Shape::Sequence(inner) => inner,
        _ => {
            assert(view_items(out@) =~= Seq::<NativeView>::empty());
            return Ok(out);
        },
    };
    let ghost all = source@;
    let ghost bytes = source.decodes_bytes();
    let mut access = source;
    proof {
        assert(view_items(out@) =~= Seq::<NativeView>::empty());
        match decode_items(all, *sequence, bytes) {
            Ok(items) => {
                assert(Seq::<NativeView>::empty() + items =~= items);
            },
            Err(_) => {},
        }
    }
    loop
        invariant
            *sequence == Shape::Sequence(*inner),
            all == source@,
            bytes == source.decodes_bytes(),
            access.decodes_bytes() == bytes,
            decode_items(all, *sequence, bytes) == after(
                view_items(out@),
                decode_items(access@, *sequence, bytes),
            ),
        ensures
            access@.len() == 0,
        decreases access@.len(),
    {
        let ghost rest = access@;
        let ghost gathered = view_items(out@);
        match access.next_element_seed() {
            None => {
                break ;
            },
            Some(element) => {
                let found = match element.decode(&**inner) {
                    Ok(found) => found,
                    Err(error) => {
                        return Err(error);
                    },
                };
                proof {
                    lemma_view_items_push(out@, found);
                    match decode_items(rest.drop_first(), *sequence, bytes) {
                        Ok(tail) => {
                            assert(gathered + (seq![found@] + tail) =~= gathered.push(found@)
                                + tail);
                        },
                        Err(_) => {},
                    }
                }
                out.push(found);
            },
        }
    }
    proof {
        assert(view_items(out@) + Seq::<NativeView>::empty() =~= view_items(out@));
    }
    Ok(out)
}

/// The members of a tuple of the given shapes.
fn read_tuple(source: LuaSeqAccess, shapes: &Vec<Shape>) -> (r: DeResult<Vec<Native>>)
    requires
        source@.len() == shapes.len(),
    ensures
        match decode_tuple(source@, shapes@, 0, source.decodes_bytes()) {
            Ok(items) => r matches Ok(found) && view_items(found@) == items,
            Err(mismatch) => fails_with(r, mismatch),
        },
    decreases shapes, 0nat,
{
    let mut out: Vec<Native> = Vec::new();
    let ghost all = source@;
    let ghost bytes = source.decodes_bytes();
    let mut access = source;
    let mut i: usize = 0;
    proof {
        assert(view_items(out@) =~= Seq::<NativeView>::empty());
        match decode_tuple(all, shapes@, 0, bytes) {
            Ok(items) => {
                assert(Seq::<NativeView>::empty() + items =~= items);
            },
            Err(_) => {},
        }
    }
    while i < shapes.len()
        invariant
            i <= shapes.len(),
            access@.len() == shapes.len() - i,
            all == source@,
            bytes == source.decodes_bytes(),
            access.decodes_bytes() == bytes,
            decode_tuple(all, shapes@, 0, bytes) == after(
                view_items(out@),
                decode_tuple(access@, shapes@, i as int, bytes),
            ),
        decreases shapes.len() - i,
    {
        let ghost rest = access@;
        let ghost gathered = view_items(out@);
        let element = access.next_element_seed().unwrap();
        let found = match element.decode(&shapes[i]) {
            Ok(found) => found,
            Err(error) => {
                return Err(error);
            },
        };
        proof {
            lemma_view_items_push(out@, found);
            match decode_tuple(rest.drop_first(), shapes@, i + 1, bytes) {
                Ok(tail) => {
                    assert(gathered + (seq![found@] + tail) =~= gathered.push(found@) + tail);
                },
                Err(_) => {},
            }
        }
        out.push(found);
        i += 1;
    }
    proof {
        assert(view_items(out@) + Seq::<NativeView>::empty() =~= view_items(out@));
    }
    Ok(out)
}

/// The entries of a map of the shape `mapping`.
fn read_entries(source: LuaMapAccess, mapping: &Shape) -> (r: DeResult<Vec<(Native, Native)>>)
    ensures
        match decode_entries(source@, *mapping, source.decodes_bytes()) {
            Ok(entries) => r matches Ok(found) && view_entries(found@) == entries,
            Err(mismatch) => fails_with(r, mismatch),
        },
    decreases mapping, 0nat,
{
    let mut out: Vec<(Native, Native)> = Vec::new();
    let (keys, values) = match mapping {
        Shape::Mapping(keys, values) => (keys, values),
        _ => {
            assert(view_entries(out@) =~= Seq::<(NativeView, NativeView)>::empty());
            return Ok(out);
        },
    };
    let ghost all = source@;
    let ghost bytes = source.decodes_bytes();
    let mut access = source;
    proof {
        assert(view_entries(out@) =~= Seq::<(NativeView, NativeView)>::empty());
        match decode_entries(all, *mapping, bytes) {
            Ok(entries) => {
                assert(Seq::<(NativeView, NativeView)>::empty() + entries =~= entries);
            },
            Err(_) => {},
        }
    }
    loop
        invariant
            *mapping == Shape::Mapping(*keys, *values),
            all == source@,
            bytes == source.decodes_bytes(),
            access.decodes_bytes() == bytes,
            decode_entries(all, *mapping, bytes) == after(
                view_entries(out@),
                decode_entries(access@, *mapping, bytes),
            ),
        ensures
            access@.len() == 0,
        decreases access@.len(),
    {
        let ghost rest = access@;
        let ghost gathered = view_entries(out@);
        match access.next_entry_seed() {
            None => {
                break ;
            },
            Some((key, value)) => {
                let key = match key.decode(&**keys) {
                    Ok(found) => found,
                    Err(error) => {
                        return Err(error);
                    },
                };
                let value = match value.decode(&**values) {
                    Ok(found) => found,
                    Err(error) => {
                        return Err(error);
                    },
                };
                proof {
                    lemma_view_entries_push(out@, (key, value));
                    match decode_entries(rest.drop_first(), *mapping, bytes) {
                        Ok(tail) => {
                            assert(gathered + (seq![(key@, value@)] + tail) =~= gathered.push(
                                (key@, value@),
                            ) + tail);
                        },
                        Err(_) => {},
                    }
                }
                out.push((key, value));
            },
        }
    }
    proof {
        assert(view_entries(out@) + Seq::<(NativeView, NativeView)>::empty() =~= view_entries(
            out@,
        ));
    }
    Ok(out)
}

/// The fields of a struct, from the pairs of a table.
fn read_fields(source: LuaMapAccess, fields: &Vec<Field>) -> (r: DeResult<
    Vec<(String, Native)>,
>)
    ensures
        match decode_fields(source@, fields@, source.decodes_bytes()) {
            Ok(found) => r matches Ok(held) && view_fields(held@) == found,
            Err(mismatch) => fails_with(r, mismatch),
        },
    decreases fields, 0nat,
{
    let ghost all = source@;
    let ghost bytes = source.decodes_bytes();
    let mut access = source;
    let mut slots: Vec<Option<Native>> = Vec::new();
    let mut i: usize = 0;
    while i < fields.len()
        invariant
            i <= fields.len(),
            slots.len() == i,
            forall|j: int| 0 <= j < i ==> slots@[j] is None,
        decreases fields.len() - i,
    {
        slots.push(None);
        i += 1;
    }
    assert(view_slots(slots@) =~= empty_slots(fields@.len()));
    loop
        invariant
            slots.len() == fields.len(),
            all == source@,
            bytes == source.decodes_bytes(),
            access.decodes_bytes() == bytes,
            fill(all, fields@, empty_slots(fields@.len()), bytes) == fill(
                access@,
                fields@,
                view_slots(slots@),
                bytes,
            ),
        ensures
            access@.len() == 0,
        decreases access@.len(),
    {
        let ghost before = view_slots(slots@);
        match access.next_key_seed() {
            None => {
                break ;
            },
            Some(key) => {
                let name = match key.deserialize_identifier() {
                    Ok(name) => name,
                    Err(error) => {
                        return Err(error);
                    },
                };
                let value = access.next_value_seed();
                match field_index(fields, &name) {
                    Some(j) => {
                        if slots[j].is_some() {
                            return Err(LuaDeserializeError::duplicate_field(name.as_str()));
                        }
                        let found = match value.decode(&fields[j].shape) {
                            Ok(found) => found,
                            Err(error) => {
                                return Err(error);
                            },
                        };
                        slots.set(j, Some(found));
                        assert(view_slots(slots@) =~= before.update(j as int, Some(found@)));
                    },
                    None => {
                        match value.ignore() {
                            Ok(()) => {},
                            Err(error) => {
                                return Err(error);
                            },
                        }
                    },
                }
            },
        }
    }
    let ghost filled = view_slots(slots@);
    let mut out: Vec<(String, Native)> = Vec::new();
    let mut j: usize = 0;
    proof {
        assert(view_fields(out@) =~= Seq::<(Seq<char>, NativeView)>::empty());
        match finish(fields@, filled, 0) {
            Ok(found) => {
                assert(Seq::<(Seq<char>, NativeView)>::empty() + found =~= found);
            },
            Err(_) => {},
        }
    }
    while j < fields.len()
        invariant
            j <= fields.len(),
            slots.len() == fields.len(),
            all == source@,
            bytes == source.decodes_bytes(),
            filled.len() == fields.len(),
            fill(all, fields@, empty_slots(fields@.len()), bytes) == Ok::<
                Seq<Option<NativeView>>,
                Mismatch,
            >(filled),
            forall|k: int| j <= k < fields.len() ==> view_slots(slots@)[k] == filled[k],
            finish(fields@, filled, 0) == after(
                view_fields(out@),
                finish(fields@, filled, j as int),
            ),
        decreases fields.len() - j,
    {
        let ghost gathered = view_fields(out@);
        let ghost before = view_slots(slots@);
        let mut slot: Option<Native> = None;
        slots.set_and_swap(j, &mut slot);
        proof {
            assert(before[j as int] == filled[j as int]);
            assert forall|k: int| j < k < fields.len() implies view_slots(slots@)[k]
                == filled[k] by {
                assert(before[k] == filled[k]);
            }
        }
        let value = match slot {
            Some(value) => value,
            None => match &fields[j].default {
                Some(value) => value.clone(),
                None => match &fields[j].shape {
                    Shape::Optional(_) => {
                        let absent = Native::Absent;
                        proof {
                            lemma_view_native(absent);
                        }
                        absent
                    },
                    _ => {
                        return Err(
                            LuaDeserializeError::missing_field(fields[j].name.as_str()),
                        );
                    },
                },
            },
        };
        let name = fields[j].name.clone();
        proof {
            lemma_view_fields_push(out@, (name, value));
            match finish(fields@, filled, j + 1) {
                Ok(tail) => {
                    assert(gathered + (seq![(name@, value@)] + tail) =~= gathered.push(
                        (name@, value@),
                    ) + tail);
                },
                Err(_) => {},
            }
        }
        out.push((name, value));
        j += 1;
    }
    proof {
        assert(view_fields(out@) + Seq::<(Seq<char>, NativeView)>::empty() =~= view_fields(out@));
    }
    Ok(out)
}

impl LuaDeserializer {
    /// Walks through a value that nobody wants, as a caller does that must
    /// pass over it.
    pub fn ignore(self) -> (r: DeResult<()>)
        ensures
            match ignore(self@) {
                Ok(()) => r is Ok,
                Err(mismatch) => fails_with(r, mismatch),
            },
        decreases self@,
    {
        let ghost whole = self@;
        match self.deserialize_ignored_any() {
            Err(error) => Err(error),
            Ok(Visit::Sequence(access)) => {
                let ghost pairs = access@;
                let ghost mut done: int = 0;
                let mut access = access;
                assert(pairs.skip(0) =~= pairs);
                loop
                    invariant
                        whole == self@,
                        whole == Value::Table(pairs),
                        0 <= done <= pairs.len(),
                        access@ == pairs.skip(done),
                        ignore(whole) == ignore_values(pairs),
                        ignore_values(pairs) == ignore_values(access@),
                    ensures
                        access@.len() == 0,
                    decreases access@.len(),
                {
                    match access.next_element_seed() {
                        None => {
                            break ;
                        },
                        Some(element) => {
                            proof {
                                assert(element@ == pairs[done].1);
                                assert(pairs.skip(done).drop_first() =~= pairs.skip(done + 1));
                            }
                            match element.ignore() {
                                Ok(()) => {},
                                Err(error) => {
                                    return Err(error);
                                },
                            }
                            proof {
                                done = done + 1;
                            }
                        },
                    }
                }
                Ok(())
            },
            Ok(Visit::Mapping(access)) => {
                let ghost pairs = access@;
                let ghost mut done: int = 0;
                let mut access = access;
                assert(pairs.skip(0) =~= pairs);
                loop
                    invariant
                        whole == self@,
                        whole == Value::Table(pairs),
                        0 <= done <= pairs.len(),
                        access@ == pairs.skip(done),
                        ignore(whole) == ignore_entries(pairs),
                        ignore_entries(pairs) == ignore_entries(access@),
                    ensures
                        access@.len() == 0,
                    decreases access@.len(),
                {
                    match access.next_entry_seed() {
                        None => {
                            break ;
                        },
                        Some((key, value)) => {
                            proof {
                                assert(key@ == pairs[done].0);
                                assert(value@ == pairs[done].1);
                                assert(pairs.skip(done).drop_first() =~= pairs.skip(done + 1));
                            }
                            match key.ignore() {
                                Ok(()) => {},
                                Err(error) => {
                                    return Err(error);
                                },
                            }
                            match value.ignore() {
                                Ok(()) => {},
                                Err(error) => {
                                    return Err(error);
                                },
                            }
                            proof {
                                done = done + 1;
                            }
                        },
                    }
                }
                Ok(())
            },
            Ok(_) => Ok(()),
        }
    }

    /// The native value of the given shape that the value stands for.
    pub fn decode(self, shape: &Shape) -> (r: DeResult<Native>)
        ensures
            decoded(r, decode(self@, *shape, self.decodes_bytes())),
        decreases shape, 2nat,
    {
        let found = match shape {
            Shape::Unit => match self.deserialize_unit() {
                Ok(()) => Native::Unit,
                Err(error) => {
                    return Err(error);
                },
            },
            Shape::Bool => match self.deserialize_bool() {
                Ok(b) => Native::Bool(b),
                Err(error) => {
                    return Err(error);
                },
            },
            Shape::I8 => match self.deserialize_i8() {
                Ok(n) => Native::I8(n),
                Err(error) => {
                    return Err(error);
                },
            },
            Shape::I16 => match self.deserialize_i16() {
                Ok(n) => Native::I16(n),
                Err(error) => {
                    return Err(error);
                },
            },
            Shape::I32 => match self.deserialize_i32() {
                Ok(n) => Native::I32(n),
                Err(error) => {
                    return Err(error);
                },
            },
            Shape::I64 => match self.deserialize_i64() {
                Ok(n) => Native::I64(n),
                Err(error) => {
                    return Err(error);
                },
            },
            Shape::U8 => match self.deserialize_u8() {
                Ok(n) => Native::U8(n),
                Err(error) => {
                    return Err(error);
                },
            },
            Shape::U16 => match self.deserialize_u16() {
                Ok(n) => Native::U16(n),
                Err(error) => {
                    return Err(error);
                },
            },
            Shape::U32 => match self.deserialize_u32() {
                Ok(n) => Native::U32(n),
                Err(error) => {
                    return Err(error);
                },
            },
            Shape::U64 => match self.deserialize_u64() {
                Ok(n) => Native::U64(n),
                Err(error) => {
                    return Err(error);
                },
            },
            Shape::F32 => match self.deserialize_f32() {
                Ok(bits) => Native::F32(bits),
                Err(error) => {
                    return Err(error);
                },
            },
            Shape::F64 => match self.deserialize_f64() {
                Ok(bits) => Native::F64(bits),
                Err(error) => {
                    return Err(error);
                },
            },
            Shape::Char => match self.deserialize_char() {
                Ok(c) => Native::Char(c),
                Err(error) => {
                    return Err(error);
                },
            },
            Shape::Str => match self.deserialize_string() {
                Ok(text) => Native::Str(text),
                Err(error) => {
                    return Err(error);
                },
            },
            Shape::Bytes => match self.deserialize_byte_buf() {
                Ok(held) => Native::Bytes(held),
                Err(error) => {
                    return Err(error);
                },
            },
            Shape::Optional(inner) => match self.deserialize_option() {
                None => Native::Absent,
                Some(present) => match present.decode(&**inner) {
                    Ok(found) => Native::Present(Box::new(found)),
                    Err(error) => {
                        return Err(error);
                    },
                },
            },
            Shape::Newtype(inner) => match self.deserialize_newtype_struct("").decode(&**inner) {
                Ok(found) => Native::Newtype(Box::new(found)),
                Err(error) => {
                    return Err(error);
                },
            },
            Shape::Sequence(_) => {
                return self.decode_sequence(shape);
            },
            Shape::Tuple(shapes) => {
                return self.decode_tuple(shapes);
            },
            Shape::Mapping(_, _) => {
                return self.decode_mapping(shape);
            },
            Shape::Struct(fields) => {
                return self.decode_struct(fields);
            },
            Shape::Enum(variants) => {
                return self.decode_enum(variants);
            },
        };
        proof {
            lemma_view_native(found);
        }
        Ok(found)
    }

    /// A sequence.
    fn decode_sequence(self, shape: &Shape) -> (r: DeResult<Native>)
        requires
            *shape is Sequence,
        ensures
            decoded(r, decode(self@, *shape, self.decodes_bytes())),
        decreases shape, 1nat,
    {
        let access = match self.deserialize_seq() {
            Ok(access) => access,
            Err(error) => {
                return Err(error);
            },
        };
        match read_items(access, shape) {
            Ok(items) => {
                let found = Native::Sequence(items);
                proof {
                    lemma_view_native(found);
                }
                Ok(found)
            },
            Err(error) => Err(error),
        }
    }

    /// A tuple of the given shapes.
    fn decode_tuple(self, shapes: &Vec<Shape>) -> (r: DeResult<Native>)
        ensures
            decoded(r, decode(self@, Shape::Tuple(*shapes), self.decodes_bytes())),
        decreases shapes, 1nat,
    {
        let access = match self.deserialize_tuple(shapes.len()) {
            Ok(access) => access,
            Err(error) => {
                return Err(error);
            },
        };
        match read_tuple(access, shapes) {
            Ok(items) => {
                let found = Native::Tuple(items);
                proof {
                    lemma_view_native(found);
                }
                Ok(found)
            },
            Err(error) => Err(error),
        }
    }

    /// A map.
    fn decode_mapping(self, shape: &Shape) -> (r: DeResult<Native>)
        requires
            *shape is Mapping,
        ensures
            decoded(r, decode(self@, *shape, self.decodes_bytes())),
        decreases shape, 1nat,
    {
        let access = match self.deserialize_map() {
            Ok(access) => access,
            Err(error) => {
                return Err(error);
            },
        };
        match read_entries(access, shape) {
            Ok(entries) => {
                let found = Native::Mapping(entries);
                proof {
                    lemma_view_native(found);
                }
                Ok(found)
            },
            Err(error) => Err(error),
        }
    }

    /// A struct of the given fields.
    fn decode_struct(self, fields: &Vec<Field>) -> (r: DeResult<Native>)
        ensures
            decoded(r, decode(self@, Shape::Struct(*fields), self.decodes_bytes())),
        decreases fields, 1nat,
    {
        let access = match self.deserialize_struct("", &[]) {
            Ok(access) => access,
            Err(error) => {
                return Err(error);
            },
        };
        match read_fields(access, fields) {
            Ok(held) => {
                let found = Native::Struct(held);
                proof {
                    lemma_view_native(found);
                }
                Ok(found)
            },
            Err(error) => Err(error),
        }
    }

    /// A variant of an enum of the given variants.
    fn decode_enum(self, variants: &Vec<(String, Shape)>) -> (r: DeResult<Native>)
        ensures
            decoded(r, decode(self@, Shape::Enum(*variants), self.decodes_bytes())),
        decreases variants, 1nat,
    {
        proof {
            reveal_with_fuel(decode, 2);
        }
        let access = match self.deserialize_enum("", &[]) {
            Ok(access) => access,
            Err(error) => {
                return Err(error);
            },
        };
        let (tag, variant) = access.variant_seed();
        let name = match tag.deserialize_identifier() {
            Ok(name) => name,
            Err(error) => {
                return Err(error);
            },
        };
        let j = match variant_index(variants, &name) {
            None => {
                return Err(LuaDeserializeError::unknown_variant(name.as_str()));
            },
            Some(j) => j,
        };
        let found = match &variants[j].1 {
            Shape::Unit => match variant.unit_variant() {
                Ok(()) => Native::UnitVariant(name),
                Err(error) => {
                    return Err(error);
                },
            },
            Shape::Tuple(shapes) => {
                let access = match variant.tuple_variant(shapes.len()) {
                    Ok(access) => access,
                    Err(error) => {
                        return Err(error);
                    },
                };
                match read_tuple(access, shapes) {
                    Ok(items) => {
                        let payload = Native::Tuple(items);
                        proof {
                            lemma_view_native(payload);
                        }
                        Native::Variant(name, Box::new(payload))
                    },
                    Err(error) => {
                        return Err(error);
                    },
                }
            },
            Shape::Struct(fields) => {
                let access = match variant.struct_variant(&[]) {
                    Ok(access) => access,
                    Err(error) => {
                        return Err(error);
                    },
                };
                match read_fields(access, fields) {
                    Ok(held) => {
                        let payload = Native::Struct(held);
                        proof {
                            lemma_view_native(payload);
                        }
                        Native::Variant(name, Box::new(payload))
                    },
                    Err(error) => {
                        return Err(error);
                    },
                }
            },
            other => match variant.newtype_variant_seed().decode(other) {
                Ok(found) => Native::Variant(name, Box::new(found)),
                Err(error) => {
                    return Err(error);
                },
            },
        };
        proof {
            lemma_view_native(found);
        }
        Ok(found)
    }
}

/// The native value of the given shape that a runtime value stands for,
/// requests for bytes refused.
pub fn from_lua(value: crate::value::LuaValue, shape: &Shape) -> (r: DeResult<Native>)
    ensures
        decoded(r, decode(value@, *shape, false)),
{
    LuaDeserializer::new(value).decode(shape)
}

} // verus!
