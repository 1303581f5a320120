use std::collections::{BTreeMap, BTreeSet};

use serde_hlua::de::{DeserializeErrorKind, LuaDeserializer, Unexpected, Visit};
use serde_hlua::from_lua;
use serde_hlua::native::{Field, Native, Shape};
use serde_hlua::value::LuaValue;

fn number(x: f64) -> LuaValue {
    LuaValue::Number(x.to_bits())
}

fn text(s: &str) -> LuaValue {
    LuaValue::String(s.to_owned())
}

/// The table that the runtime makes of `{ a, b, c }`.
fn array(items: Vec<LuaValue>) -> LuaValue {
    LuaValue::Table(
        items.into_iter().enumerate().map(|(i, item)| (number((i + 1) as f64), item)).collect(),
    )
}

/// The table that the runtime makes of `{ k = v, .. }`.
fn record(entries: Vec<(&str, LuaValue)>) -> LuaValue {
    LuaValue::Table(entries.into_iter().map(|(key, value)| (text(key), value)).collect())
}

fn single(x: f32) -> Native {
    Native::F32(x.to_bits())
}

fn word(s: &str) -> Native {
    Native::Str(s.to_owned())
}

fn field(name: &str, shape: Shape) -> Field {
    Field { name: name.to_owned(), shape, default: None }
}

fn field_or(name: &str, shape: Shape, default: Native) -> Field {
    Field { name: name.to_owned(), shape, default: Some(default) }
}

fn sequence_of(shape: Shape) -> Shape {
    Shape::Sequence(Box::new(shape))
}

fn unit_enum() -> Shape {
    Shape::Enum(vec![
        ("first".to_owned(), Shape::Unit),
        ("second".to_owned(), Shape::Unit),
        ("and_the_third".to_owned(), Shape::Unit),
    ])
}

fn simple_struct() -> Shape {
    Shape::Struct(vec![
        field("scalar", Shape::F32),
        field("string", Shape::Str),
        field("vector", sequence_of(Shape::U32)),
    ])
}

fn complex_enum() -> Shape {
    Shape::Enum(vec![
        ("scalar".to_owned(), Shape::Unit),
        ("tuple".to_owned(), Shape::Tuple(vec![Shape::F32, Shape::F32])),
        (
            "struct".to_owned(),
            Shape::Struct(vec![
                field_or("name", Shape::Str, word("")),
                field("contents", simple_struct()),
            ]),
        ),
    ])
}

fn nested_struct() -> Shape {
    Shape::Struct(vec![
        field("title", Shape::Str),
        field("first_name", Shape::Str),
        field("last_name", Shape::Str),
        field("data", complex_enum()),
    ])
}

fn simple_value(scalar: f32, string: &str, vector: Vec<u32>) -> Native {
    Native::Struct(vec![
        ("scalar".to_owned(), single(scalar)),
        ("string".to_owned(), word(string)),
        ("vector".to_owned(), Native::Sequence(vector.into_iter().map(Native::U32).collect())),
    ])
}

fn struct_variant(name: &str, contents: Native) -> Native {
    Native::Variant(
        "struct".to_owned(),
        Box::new(Native::Struct(vec![
            ("name".to_owned(), word(name)),
            ("contents".to_owned(), contents),
        ])),
    )
}

fn simple_table(scalar: f64, string: LuaValue, vector: Vec<f64>) -> LuaValue {
    record(vec![
        ("scalar", number(scalar)),
        ("string", string),
        ("vector", array(vector.into_iter().map(number).collect())),
    ])
}

fn struct_table(name: &str, contents: LuaValue) -> LuaValue {
    record(vec![("struct", record(vec![("name", text(name)), ("contents", contents)]))])
}

#[test]
fn sequence() {
    let table = || array(vec![text("a"), text("b"), text("c")]);
    assert_eq!(
        Native::Sequence(vec![word("a"), word("b"), word("c")]),
        from_lua(table(), &sequence_of(Shape::Str)).unwrap()
    );

    let found = match from_lua(table(), &sequence_of(Shape::Str)).unwrap() {
        Native::Sequence(items) => items
            .into_iter()
            .map(|item| match item {
                Native::Str(s) => s,
                other => panic!("not a string: {:?}", other),
            })
            .collect::<BTreeSet<String>>(),
        other => panic!("not a sequence: {:?}", other),
    };
    assert_eq!(
        vec!["a".to_owned(), "b".to_owned(), "c".to_owned()].into_iter().collect::<BTreeSet<_>>(),
        found
    );
}

#[test]
fn mapping() {
    let shape = Shape::Mapping(Box::new(Shape::Str), Box::new(Shape::F32));
    let table =
        record(vec![("first", number(1.0)), ("second", number(2.0)), ("third", number(3.25))]);
    let found = match from_lua(table, &shape).unwrap() {
        Native::Mapping(entries) => entries
            .into_iter()
            .map(|entry| match entry {
                (Native::Str(key), Native::F32(bits)) => (key, f32::from_bits(bits)),
                other => panic!("not an entry of a string and a number: {:?}", other),
            })
            .collect::<BTreeMap<String, f32>>(),
        other => panic!("not a mapping: {:?}", other),
    };
    let expected: BTreeMap<String, f32> =
        vec![("first".to_owned(), 1.0), ("second".to_owned(), 2.0), ("third".to_owned(), 3.25)]
            .into_iter()
            .collect();
    assert_eq!(expected, found);

    let table =
        record(vec![("first", number(1.0)), ("second", number(2.0)), ("third", text("3.25"))]);
    assert!(from_lua(table, &shape).is_err());
}

#[test]
fn de_structs() {
    assert_eq!(
        simple_value(1.0, "Hi!", vec![1, 2, 9]),
        from_lua(simple_table(1.0, text("Hi!"), vec![1.0, 2.0, 9.0]), &simple_struct()).unwrap()
    );

    assert!(
        from_lua(simple_table(1.0, text("Hi!"), vec![1.1, 2.0, 9.0]), &simple_struct()).is_err()
    );

    let nested = |string: LuaValue| {
        record(vec![
            ("title", text("Dr.")),
            ("first_name", text("Loretta")),
            ("last_name", text("Spanx")),
            ("data", struct_table("Beastly!", simple_table(1.0, string, vec![1.0, 2.0, 9.0]))),
        ])
    };
    assert_eq!(
        Native::Struct(vec![
            ("title".to_owned(), word("Dr.")),
            ("first_name".to_owned(), word("Loretta")),
            ("last_name".to_owned(), word("Spanx")),
            (
                "data".to_owned(),
                struct_variant("Beastly!", simple_value(1.0, "Hi!", vec![1, 2, 9]))
            ),
        ]),
        from_lua(nested(text("Hi!")), &nested_struct()).unwrap()
    );

    assert!(from_lua(nested(number(5.0)), &nested_struct()).is_err());
}

#[test]
fn de_enums() {
    assert_eq!(
        Native::UnitVariant("first".to_owned()),
        from_lua(text("first"), &unit_enum()).unwrap()
    );
    assert_eq!(
        Native::UnitVariant("second".to_owned()),
        from_lua(text("second"), &unit_enum()).unwrap()
    );
    assert_eq!(
        Native::UnitVariant("and_the_third".to_owned()),
        from_lua(text("and_the_third"), &unit_enum()).unwrap()
    );

    assert!(from_lua(text("fourth"), &unit_enum()).is_err());

    assert_eq!(
        Native::UnitVariant("scalar".to_owned()),
        from_lua(text("scalar"), &complex_enum()).unwrap()
    );

    assert_eq!(
        Native::Variant(
            "tuple".to_owned(),
            Box::new(Native::Tuple(vec![single(1.3), single(3.1)]))
        ),
        from_lua(
            record(vec![("tuple", array(vec![number(1.3), number(3.1)]))]),
            &complex_enum()
        )
        .unwrap()
    );

    assert_eq!(
        struct_variant("Beastly!", simple_value(1.0, "Hi!", vec![1, 2, 9])),
        from_lua(
            struct_table("Beastly!", simple_table(1.0, text("Hi!"), vec![1.0, 2.0, 9.0])),
            &complex_enum()
        )
        .unwrap()
    );

    assert_eq!(
        Native::Sequence(vec![
            struct_variant("Maria", simple_value(1.1, "arglebargle", vec![1])),
            struct_variant("Chelsea", simple_value(1.11, "French", vec![99, 99])),
            Native::Variant(
                "tuple".to_owned(),
                Box::new(Native::Tuple(vec![single(4.0), single(3.0)]))
            ),
            Native::UnitVariant("scalar".to_owned()),
            struct_variant(
                "Baljeet",
                simple_value(1.11, "corn on the 好 cob", vec![10, 9, 8, 7, 6, 5, 4, 3, 2, 1])
            ),
        ]),
        from_lua(
            array(vec![
                struct_table("Maria", simple_table(1.1, text("arglebargle"), vec![1.0])),
                struct_table("Chelsea", simple_table(1.11, text("French"), vec![99.0, 99.0])),
                record(vec![("tuple", array(vec![number(4.0), number(3.0)]))]),
                text("scalar"),
                struct_table(
                    "Baljeet",
                    simple_table(
                        1.11,
                        text("corn on the 好 cob"),
                        vec![10.0, 9.0, 8.0, 7.0, 6.0, 5.0, 4.0, 3.0, 2.0, 1.0]
                    )
                ),
            ]),
            &sequence_of(complex_enum())
        )
        .unwrap()
    );
}

#[test]
fn unit_limitations() {
    let fail_unit_struct = Shape::Struct(vec![field("value", Shape::Unit)]);
    let success_unit_struct = Shape::Struct(vec![field_or("value", Shape::Unit, Native::Unit)]);
    // the runtime keeps no entry whose value is nil: `{ value = nil }` is `{}`
    let empty = || LuaValue::Table(vec![]);
    assert!(from_lua(empty(), &fail_unit_struct).is_err());
    assert!(from_lua(empty(), &success_unit_struct).is_ok());
    assert!(from_lua(empty(), &fail_unit_struct).is_err());
    assert!(from_lua(empty(), &success_unit_struct).is_ok());
}

#[test]
fn a_missing_field_is_named() {
    let shape = Shape::Struct(vec![field("value", Shape::Unit)]);
    let error = from_lua(LuaValue::Table(vec![]), &shape).unwrap_err();
    match error.kind {
        DeserializeErrorKind::MissingField(name) => assert_eq!(name, "value"),
        other => panic!("another error: {:?}", other),
    }
    let found = from_lua(
        LuaValue::Table(vec![]),
        &Shape::Struct(vec![field_or("value", Shape::Unit, Native::Unit)]),
    );
    assert_eq!(found.unwrap(), Native::Struct(vec![("value".to_owned(), Native::Unit)]));
}

#[test]
fn a_missing_option_holds_nothing() {
    let shape = Shape::Struct(vec![field("maybe", Shape::Optional(Box::new(Shape::Bool)))]);
    assert_eq!(
        from_lua(LuaValue::Table(vec![]), &shape).unwrap(),
        Native::Struct(vec![("maybe".to_owned(), Native::Absent)])
    );
    assert_eq!(
        from_lua(record(vec![("maybe", LuaValue::Bool(true))]), &shape).unwrap(),
        Native::Struct(vec![("maybe".to_owned(), Native::Present(Box::new(Native::Bool(true))))])
    );
}

#[test]
fn a_field_given_twice_is_an_error() {
    let shape = Shape::Struct(vec![field("x", Shape::Bool)]);
    let table = record(vec![("x", LuaValue::Bool(true)), ("x", LuaValue::Bool(false))]);
    match from_lua(table, &shape).unwrap_err().kind {
        DeserializeErrorKind::DuplicateField(name) => assert_eq!(name, "x"),
        other => panic!("another error: {:?}", other),
    }
}

#[test]
fn an_entry_for_no_field_is_passed_over() {
    let shape = Shape::Struct(vec![field("x", Shape::Bool)]);
    let table = record(vec![
        ("other", array(vec![number(1.0), record(vec![("deep", text("down"))])])),
        ("x", LuaValue::Bool(true)),
    ]);
    assert_eq!(
        from_lua(table, &shape).unwrap(),
        Native::Struct(vec![("x".to_owned(), Native::Bool(true))])
    );
    // what is passed over is still walked through
    let table = record(vec![("other", array(vec![LuaValue::Opaque])), ("x", LuaValue::Bool(true))]);
    match from_lua(table, &shape).unwrap_err().kind {
        DeserializeErrorKind::InvalidType(Unexpected::Unserializable) => {}
        other => panic!("another error: {:?}", other),
    }
    let table = record(vec![("other", LuaValue::RawString(vec![0xff])), ("x", LuaValue::Bool(true))]);
    match from_lua(table, &shape).unwrap_err().kind {
        DeserializeErrorKind::InvalidType(Unexpected::NonUtf8String) => {}
        other => panic!("another error: {:?}", other),
    }
}

#[test]
fn a_struct_key_must_be_a_string() {
    let shape = Shape::Struct(vec![field("x", Shape::Bool)]);
    let table = LuaValue::Table(vec![(number(1.0), LuaValue::Bool(true))]);
    match from_lua(table, &shape).unwrap_err().kind {
        DeserializeErrorKind::InvalidType(Unexpected::Float(bits)) => {
            assert_eq!(bits, 1.0f64.to_bits())
        }
        other => panic!("another error: {:?}", other),
    }
}

#[test]
fn keys_one_two_three_in_order_are_a_sequence() {
    let table = LuaValue::Table(vec![
        (number(1.0), text("a")),
        (number(2.0), text("b")),
        (number(3.0), text("c")),
    ]);
    match LuaDeserializer::new(table).deserialize_any().unwrap() {
        Visit::Sequence(mut access) => {
            assert_eq!(access.size_hint(), Some(3));
            let mut found = vec![];
            while let Some(element) = access.next_element_seed() {
                found.push(element.deserialize_string().unwrap());
            }
            assert_eq!(found, vec!["a", "b", "c"]);
            assert_eq!(access.size_hint(), Some(0));
        }
        _ => panic!("not a sequence"),
    }
}

#[test]
fn keys_out_of_order_are_a_map() {
    let table = || {
        LuaValue::Table(vec![
            (number(2.0), text("b")),
            (number(1.0), text("a")),
            (number(3.0), text("c")),
        ])
    };
    match LuaDeserializer::new(table()).deserialize_any().unwrap() {
        Visit::Mapping(mut access) => {
            let mut keys = vec![];
            while let Some((key, value)) = access.next_entry_seed() {
                keys.push(key.deserialize_u8().unwrap());
                value.deserialize_string().unwrap();
            }
            assert_eq!(keys, vec![2, 1, 3]);
        }
        _ => panic!("not a mapping"),
    }
    assert!(LuaDeserializer::new(table()).deserialize_seq().is_err());
    assert!(serde_hlua::de::is_vec(vec![(number(2.0), text("b")), (number(1.0), text("a"))])
        .is_err());
}

#[test]
fn keys_with_a_gap_are_a_map() {
    let table = || {
        LuaValue::Table(vec![
            (number(1.0), text("a")),
            (number(2.0), text("b")),
            (number(4.0), text("d")),
        ])
    };
    let shape = Shape::Mapping(Box::new(Shape::U8), Box::new(Shape::Str));
    assert_eq!(
        from_lua(table(), &shape).unwrap(),
        Native::Mapping(vec![
            (Native::U8(1), word("a")),
            (Native::U8(2), word("b")),
            (Native::U8(4), word("d")),
        ])
    );
    match LuaDeserializer::new(table()).deserialize_any().unwrap() {
        Visit::Mapping(access) => assert_eq!(access.size_hint(), Some(3)),
        _ => panic!("not a mapping"),
    }
    match from_lua(table(), &sequence_of(Shape::Str)).unwrap_err().kind {
        DeserializeErrorKind::InvalidType(Unexpected::Table) => {}
        other => panic!("another error: {:?}", other),
    }
}

#[test]
fn a_key_that_is_no_number_makes_a_map() {
    let table = || {
        LuaValue::Table(vec![(number(1.0), text("a")), (text("two"), text("b"))])
    };
    assert!(matches!(
        LuaDeserializer::new(table()).deserialize_any().unwrap(),
        Visit::Mapping(_)
    ));
    assert!(serde_hlua::de::is_vec(vec![(number(1.0), text("a")), (text("two"), text("b"))])
        .is_err());
    assert!(from_lua(table(), &sequence_of(Shape::Str)).is_err());
}

#[test]
fn an_array_is_a_map_of_its_positions() {
    let table = array(vec![text("a"), text("b")]);
    let shape = Shape::Mapping(Box::new(Shape::U32), Box::new(Shape::Str));
    assert_eq!(
        from_lua(table, &shape).unwrap(),
        Native::Mapping(vec![(Native::U32(1), word("a")), (Native::U32(2), word("b"))])
    );
}

#[test]
fn any_value_by_its_kind() {
    assert!(matches!(
        LuaDeserializer::new(text("s")).deserialize_any().unwrap(),
        Visit::String(s) if s == "s"
    ));
    assert!(matches!(
        LuaDeserializer::new(number(2.5)).deserialize_any().unwrap(),
        Visit::Number(bits) if bits == 2.5f64.to_bits()
    ));
    assert!(matches!(
        LuaDeserializer::new(LuaValue::Bool(true)).deserialize_any().unwrap(),
        Visit::Bool(true)
    ));
    assert!(matches!(LuaDeserializer::new(LuaValue::Nil).deserialize_any().unwrap(), Visit::Unit));
    assert!(matches!(
        LuaDeserializer::new(LuaValue::Table(vec![])).deserialize_ignored_any().unwrap(),
        Visit::Sequence(_)
    ));
    match LuaDeserializer::new(LuaValue::RawString(vec![0xc0])).deserialize_any() {
        Err(error) => assert!(matches!(
            error.kind,
            DeserializeErrorKind::InvalidType(Unexpected::NonUtf8String)
        )),
        Ok(_) => panic!("a string that is no text was taken"),
    }
    match LuaDeserializer::new(LuaValue::Opaque).deserialize_any() {
        Err(error) => assert!(matches!(
            error.kind,
            DeserializeErrorKind::InvalidType(Unexpected::Unserializable)
        )),
        Ok(_) => panic!("a value without representation was taken"),
    }
}

#[test]
fn a_tuple_must_have_its_length() {
    let shape = Shape::Tuple(vec![Shape::F64, Shape::F64]);
    assert_eq!(
        from_lua(array(vec![number(1.3), number(3.1)]), &shape).unwrap(),
        Native::Tuple(vec![Native::F64(1.3f64.to_bits()), Native::F64(3.1f64.to_bits())])
    );
    match from_lua(array(vec![number(1.0), number(2.0), number(3.0)]), &shape).unwrap_err().kind {
        DeserializeErrorKind::InvalidLength(len) => assert_eq!(len, 3),
        other => panic!("another error: {:?}", other),
    }
    match from_lua(record(vec![("a", number(1.0)), ("b", number(2.0))]), &shape).unwrap_err().kind
    {
        DeserializeErrorKind::InvalidType(Unexpected::Table) => {}
        other => panic!("another error: {:?}", other),
    }
}

#[test]
fn an_envelope_has_one_entry() {
    let two = record(vec![
        ("tuple", array(vec![number(1.3), number(3.1)])),
        ("scalar", LuaValue::Nil),
    ]);
    match from_lua(two, &complex_enum()).unwrap_err().kind {
        DeserializeErrorKind::InvalidLength(len) => assert_eq!(len, 2),
        other => panic!("another error: {:?}", other),
    }
    match from_lua(LuaValue::Table(vec![]), &complex_enum()).unwrap_err().kind {
        DeserializeErrorKind::InvalidLength(len) => assert_eq!(len, 0),
        other => panic!("another error: {:?}", other),
    }
    match from_lua(text("fourth"), &unit_enum()).unwrap_err().kind {
        DeserializeErrorKind::UnknownVariant(name) => assert_eq!(name, "fourth"),
        other => panic!("another error: {:?}", other),
    }
    // a variant without payload may come in an envelope, if its payload is nil
    assert_eq!(
        from_lua(record(vec![("scalar", LuaValue::Nil)]), &complex_enum()).unwrap(),
        Native::UnitVariant("scalar".to_owned())
    );
    assert!(from_lua(record(vec![("scalar", number(1.0))]), &complex_enum()).is_err());
}

#[test]
fn the_steps_of_an_enum() {
    let envelope = record(vec![("tuple", array(vec![number(1.3), number(3.1)]))]);
    let access = LuaDeserializer::new(envelope).deserialize_enum("ComplexEnum", &[]).unwrap();
    let (tag, variant) = access.variant_seed();
    assert_eq!(tag.deserialize_identifier().unwrap(), "tuple");
    let mut fields = variant.tuple_variant(2).unwrap();
    let first = fields.next_element_seed().unwrap().deserialize_f64().unwrap();
    let second = fields.next_element_seed().unwrap().deserialize_f64().unwrap();
    assert!(fields.next_element_seed().is_none());
    assert_eq!((f64::from_bits(first), f64::from_bits(second)), (1.3, 3.1));

    let access = LuaDeserializer::new(text("first")).deserialize_enum("UnitEnum", &[]).unwrap();
    let (tag, variant) = access.variant_seed();
    assert_eq!(tag.deserialize_str().unwrap(), "first");
    assert!(variant.unit_variant().is_ok());

    let envelope = record(vec![("wrapped", number(7.0))]);
    let (_, variant) =
        LuaDeserializer::new(envelope).deserialize_enum("E", &[]).unwrap().variant_seed();
    assert_eq!(variant.newtype_variant_seed().deserialize_u16().unwrap(), 7);

    let envelope = record(vec![("point", record(vec![("x", number(1.0))]))]);
    let (_, variant) =
        LuaDeserializer::new(envelope).deserialize_enum("E", &[]).unwrap().variant_seed();
    let mut fields = variant.struct_variant(&["x"]).unwrap();
    assert_eq!(fields.size_hint(), Some(1));
    assert_eq!(fields.next_key_seed().unwrap().deserialize_string().unwrap(), "x");
    assert_eq!(fields.next_value_seed().deserialize_i64().unwrap(), 1);
    assert!(fields.next_key_seed().is_none());
}

#[test]
fn a_character_is_a_string_of_one() {
    assert_eq!(LuaDeserializer::new(text("x")).deserialize_char().unwrap(), 'x');
    assert_eq!(LuaDeserializer::new(text("好")).deserialize_char().unwrap(), '好');
    match LuaDeserializer::new(text("")).deserialize_char().unwrap_err().kind {
        DeserializeErrorKind::InvalidLength(len) => assert_eq!(len, 0),
        other => panic!("another error: {:?}", other),
    }
    match LuaDeserializer::new(text("你好，世界")).deserialize_char().unwrap_err().kind {
        DeserializeErrorKind::InvalidLength(len) => assert_eq!(len, 5),
        other => panic!("another error: {:?}", other),
    }
    match LuaDeserializer::new(number(1.0)).deserialize_char().unwrap_err().kind {
        DeserializeErrorKind::InvalidType(Unexpected::Float(_)) => {}
        other => panic!("another error: {:?}", other),
    }
}

#[test]
fn numbers_become_integers_only_exactly() {
    assert!(LuaDeserializer::new(number(1.5)).deserialize_i32().is_err());
    assert!(LuaDeserializer::new(number(1.5)).deserialize_u64().is_err());
    assert_eq!(LuaDeserializer::new(number(1.0)).deserialize_u8().unwrap(), 1);
    assert_eq!(LuaDeserializer::new(number(-0.0)).deserialize_u8().unwrap(), 0);
    assert_eq!(LuaDeserializer::new(number(255.0)).deserialize_u8().unwrap(), 255);
    assert!(LuaDeserializer::new(number(256.0)).deserialize_u8().is_err());
    assert!(LuaDeserializer::new(number(-1.0)).deserialize_u8().is_err());
    assert_eq!(LuaDeserializer::new(number(-128.0)).deserialize_i8().unwrap(), -128);
    assert!(LuaDeserializer::new(number(-129.0)).deserialize_i8().is_err());
    assert_eq!(LuaDeserializer::new(number(-32768.0)).deserialize_i16().unwrap(), -32768);
    assert_eq!(LuaDeserializer::new(number(65535.0)).deserialize_u16().unwrap(), 65535);
    assert_eq!(
        LuaDeserializer::new(number(4294967295.0)).deserialize_u32().unwrap(),
        4294967295
    );
    assert!(LuaDeserializer::new(number(4294967296.0)).deserialize_u32().is_err());
    assert_eq!(
        LuaDeserializer::new(number(-9223372036854775808.0)).deserialize_i64().unwrap(),
        std::i64::MIN
    );
    // 2^63 and 2^64 are doubles, and beyond the types
    assert!(LuaDeserializer::new(number(9223372036854775808.0)).deserialize_i64().is_err());
    assert_eq!(
        LuaDeserializer::new(number(9223372036854775808.0)).deserialize_u64().unwrap(),
        1u64 << 63
    );
    assert!(LuaDeserializer::new(number(18446744073709551616.0)).deserialize_u64().is_err());
    assert_eq!(
        LuaDeserializer::new(number(18446744073709549568.0)).deserialize_u64().unwrap(),
        18446744073709549568
    );
    assert!(LuaDeserializer::new(number(5e-324)).deserialize_i64().is_err());
    assert!(LuaDeserializer::new(number(0.5)).deserialize_i64().is_err());
    assert!(LuaDeserializer::new(number(1e300)).deserialize_u64().is_err());
    assert_eq!(
        LuaDeserializer::new(number(9007199254740993.0)).deserialize_i64().unwrap(),
        9007199254740992
    );
    match LuaDeserializer::new(number(1.5)).deserialize_u8().unwrap_err().kind {
        DeserializeErrorKind::InvalidType(Unexpected::Float(bits)) => {
            assert_eq!(f64::from_bits(bits), 1.5)
        }
        other => panic!("another error: {:?}", other),
    }
}

#[test]
fn options_units_and_newtypes() {
    assert!(LuaDeserializer::new(LuaValue::Nil).deserialize_option().is_none());
    let present = LuaDeserializer::new(number(3.0)).deserialize_option().unwrap();
    assert_eq!(present.deserialize_u8().unwrap(), 3);
    assert!(LuaDeserializer::new(LuaValue::Nil).deserialize_unit().is_ok());
    assert!(LuaDeserializer::new(LuaValue::Nil).deserialize_unit_struct("Marker").is_ok());
    assert!(LuaDeserializer::new(text("x")).deserialize_unit().is_err());
    let inner = LuaDeserializer::new(text("x")).deserialize_newtype_struct("Wrapper");
    assert_eq!(inner.deserialize_string().unwrap(), "x");
    assert_eq!(
        from_lua(number(3.0), &Shape::Optional(Box::new(Shape::U8))).unwrap(),
        Native::Present(Box::new(Native::U8(3)))
    );
    assert_eq!(
        from_lua(LuaValue::Nil, &Shape::Optional(Box::new(Shape::U8))).unwrap(),
        Native::Absent
    );
    assert_eq!(
        from_lua(text("x"), &Shape::Newtype(Box::new(Shape::Char))).unwrap(),
        Native::Newtype(Box::new(Native::Char('x')))
    );
    assert_eq!(from_lua(LuaValue::Nil, &Shape::Unit).unwrap(), Native::Unit);
    match from_lua(text("AQIDBA=="), &Shape::Bytes).unwrap_err().kind {
        DeserializeErrorKind::BytesUnsupported => {}
        other => panic!("another error: {:?}", other),
    }
    assert_eq!(
        LuaDeserializer::with_base64_bytes(text("AQIDBA==")).decode(&Shape::Bytes).unwrap(),
        Native::Bytes(vec![1, 2, 3, 4])
    );
}

#[test]
fn a_value_comes_after_its_key() {
    let table = record(vec![("a", number(1.0)), ("b", number(2.0))]);
    let mut access = LuaDeserializer::new(table).deserialize_map().unwrap();
    assert_eq!(access.size_hint(), Some(2));
    assert_eq!(access.next_key_seed().unwrap().deserialize_string().unwrap(), "a");
    assert_eq!(access.next_value_seed().deserialize_u8().unwrap(), 1);
    let (key, value) = access.next_entry_seed().unwrap();
    assert_eq!(key.deserialize_string().unwrap(), "b");
    assert_eq!(value.deserialize_u8().unwrap(), 2);
    assert!(access.next_key_seed().is_none());
    assert!(access.next_entry_seed().is_none());
    assert_eq!(access.size_hint(), Some(0));
}
