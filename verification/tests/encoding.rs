use serde_hlua::native::{Field, Native, Shape};
use serde_hlua::ser::{LuaSerializeError, LuaSerializer, SerializeErrorKind};
use serde_hlua::value::LuaValue;
use serde_hlua::{from_lua, to_lua};

fn number(x: f64) -> LuaValue {
    LuaValue::Number(x.to_bits())
}

fn text(s: &str) -> LuaValue {
    LuaValue::String(s.to_owned())
}

fn single(x: f32) -> Native {
    Native::F32(x.to_bits())
}

fn word(s: &str) -> Native {
    Native::Str(s.to_owned())
}

fn pairs(value: &LuaValue) -> &Vec<(LuaValue, LuaValue)> {
    match value {
        LuaValue::Table(pairs) => pairs,
        other => panic!("not a table: {:?}", other),
    }
}

/// What the runtime finds under `key`: nil where there is no entry.
fn at<'a>(table: &'a LuaValue, key: &LuaValue) -> &'a LuaValue {
    pairs(table).iter().find(|(k, _)| k == key).map(|(_, v)| v).unwrap_or(&LuaValue::Nil)
}

fn named<'a>(table: &'a LuaValue, key: &str) -> &'a LuaValue {
    at(table, &text(key))
}

/// The length that the runtime gives a table: the positions from 1 on that
/// hold a value other than nil.
fn length(table: &LuaValue) -> usize {
    let mut n = 0;
    while *at(table, &number((n + 1) as f64)) != LuaValue::Nil {
        n += 1;
    }
    n
}

/// The number of entries that the runtime keeps: those whose value is not nil.
fn count(table: &LuaValue) -> usize {
    pairs(table).iter().filter(|(_, v)| *v != LuaValue::Nil).count()
}

fn is_nan(value: &LuaValue) -> bool {
    match value {
        LuaValue::Number(bits) => f64::from_bits(*bits).is_nan(),
        _ => false,
    }
}

fn integers(items: &[i32]) -> Native {
    Native::Sequence(items.iter().map(|n| Native::I32(*n)).collect())
}

fn simple(x: f32, y: &str) -> Native {
    Native::Struct(vec![("x".to_owned(), single(x)), ("y".to_owned(), word(y))])
}

fn kind(r: Result<LuaValue, LuaSerializeError>) -> SerializeErrorKind {
    r.unwrap_err().kind
}

#[test]
fn array() {
    assert_eq!(length(&to_lua(&Native::Sequence(vec![])).unwrap()), 0);
    assert_eq!(
        length(&to_lua(&Native::Sequence(vec![Native::Unit, Native::Unit, Native::Unit])).unwrap()),
        0
    );

    let value = to_lua(&integers(&[1, 2, 3])).unwrap();
    assert_eq!(length(&value), 3);
    for (index, (key, entry)) in pairs(&value).iter().enumerate() {
        assert_eq!(*key, number((index + 1) as f64));
        assert_eq!(*entry, number((index + 1) as f64));
    }

    let value = to_lua(&Native::Tuple(vec![
        integers(&[1, 2, 3, 4, 5]),
        integers(&[1, 2, 3, 4, 5]),
    ]))
    .unwrap();
    assert_eq!(length(&value), 2);
    for (_, entry) in pairs(&value) {
        assert_eq!(length(entry), 5);
        for (index, (key, subentry)) in pairs(entry).iter().enumerate() {
            assert_eq!(*key, number((index + 1) as f64));
            assert_eq!(*subentry, number((index + 1) as f64));
        }
    }
}

#[test]
fn map() {
    assert_eq!(length(&to_lua(&Native::Mapping(vec![])).unwrap()), 0);

    let units = Native::Mapping(vec![
        (Native::I32(1), Native::Unit),
        (Native::I32(2), Native::Unit),
    ]);
    assert_eq!(length(&to_lua(&units).unwrap()), 0);

    let words = Native::Mapping(vec![
        (word("hello"), word("world")),
        (word("‰Ω†Â•Ω"), word("‰∏ñÁïå")),
    ]);
    let value = to_lua(&words).unwrap();
    assert_eq!(count(&value), 2);
    assert_eq!(*named(&value, "hello"), text("world"));
    assert_eq!(*named(&value, "‰Ω†Â•Ω"), text("‰∏ñÁïå"));

    let unit_keys = Native::Mapping(vec![
        (Native::Unit, word("world")),
        (Native::Unit, word("‰∏ñÁïå")),
    ]);
    assert!(to_lua(&unit_keys).is_err());

    assert!(LuaSerializer::new()
        .serialize_map(Some(1))
        .unwrap()
        .serialize_entry(number(std::f32::NAN as f64), text("hello"))
        .is_err());
}

#[test]
fn ser_structs() {
    let value = to_lua(&simple(std::f32::NAN, "‰∏ñÁïå")).unwrap();
    assert_eq!(count(&value), 2);
    assert!(is_nan(named(&value, "x")));
    assert_eq!(*named(&value, "y"), text("‰∏ñÁïå"));

    let nested = Native::Struct(vec![
        ("friend".to_owned(), simple(1.0, "easy")),
        (
            "list".to_owned(),
            Native::Sequence(vec![Native::U16(1), Native::U16(2), Native::U16(3)]),
        ),
    ]);
    let value = to_lua(&nested).unwrap();
    assert_eq!(*named(named(&value, "friend"), "x"), number(1.0));
    assert_eq!(*named(named(&value, "friend"), "y"), text("easy"));
    let list = named(&value, "list");
    assert_eq!(length(list), 3);
    assert_eq!(*at(list, &number(1.0)), number(1.0));
    assert_eq!(*at(list, &number(2.0)), number(2.0));
    assert_eq!(*at(list, &number(3.0)), number(3.0));

    let value = to_lua(&Native::Tuple(vec![simple(1.0, "first"), simple(2.0, "second")])).unwrap();
    assert_eq!(*named(at(&value, &number(1.0)), "x"), number(1.0));
    assert_eq!(*named(at(&value, &number(1.0)), "y"), text("first"));
    assert_eq!(*named(at(&value, &number(2.0)), "x"), number(2.0));
    assert_eq!(*named(at(&value, &number(2.0)), "y"), text("second"));
}

fn tuple_variant(a: f32, b: f32) -> Native {
    Native::Variant("TupleVariant".to_owned(), Box::new(Native::Tuple(vec![single(a), single(b)])))
}

fn struct_variant(x: &str, y: &str) -> Native {
    Native::Variant(
        "StructVariant".to_owned(),
        Box::new(Native::Struct(vec![("x".to_owned(), word(x)), ("y".to_owned(), word(y))])),
    )
}

#[test]
fn ser_enums() {
    assert_eq!(
        to_lua(&Native::UnitVariant("UnitVariant".to_owned())).unwrap(),
        text("UnitVariant")
    );
    assert_eq!(
        to_lua(&Native::UnitVariant("renamed_unit_variant".to_owned())).unwrap(),
        text("renamed_unit_variant")
    );

    let value = to_lua(&tuple_variant(-4294.0, std::f32::INFINITY)).unwrap();
    assert_eq!(count(&value), 1);
    let fields = named(&value, "TupleVariant");
    assert_eq!(length(fields), 2);
    assert_eq!(*at(fields, &number(1.0)), number(-4294.0));
    assert_eq!(*at(fields, &number(2.0)), number(1.0 / 0.0));

    let value = to_lua(&struct_variant("hello", "‰∏ñÁïå")).unwrap();
    assert_eq!(count(&value), 1);
    let fields = named(&value, "StructVariant");
    assert_eq!(count(fields), 2);
    assert_eq!(*named(fields, "x"), text("hello"));
    assert_eq!(*named(fields, "y"), text("‰∏ñÁïå"));

    let value = to_lua(&Native::Tuple(vec![
        Native::UnitVariant("UnitVariant".to_owned()),
        tuple_variant(1.0, 2.0),
        struct_variant("hiya", "globe"),
    ]))
    .unwrap();
    assert_eq!(length(&value), 3);
    assert_eq!(*at(&value, &number(1.0)), text("UnitVariant"));
    let second = named(at(&value, &number(2.0)), "TupleVariant");
    assert_eq!(*at(second, &number(1.0)), number(1.0));
    assert_eq!(*at(second, &number(2.0)), number(2.0));
    let third = named(at(&value, &number(3.0)), "StructVariant");
    assert_eq!(*named(third, "x"), text("hiya"));
    assert_eq!(*named(third, "y"), text("globe"));
}

#[test]
fn enum_formats() {
    // an enum that carries its tag among its fields is a struct with one field more
    let type_a = Native::Struct(vec![
        ("type".to_owned(), word("TypeA")),
        ("payload".to_owned(), single(1.5)),
    ]);
    let value = to_lua(&type_a).unwrap();
    assert_eq!(*named(&value, "type"), text("TypeA"));
    assert_eq!(*named(&value, "payload"), number(1.5));
    let type_b = Native::Struct(vec![
        ("type".to_owned(), word("TypeB")),
        ("payload".to_owned(), word("whoa!")),
    ]);
    let value = to_lua(&type_b).unwrap();
    assert_eq!(*named(&value, "type"), text("TypeB"));
    assert_eq!(*named(&value, "payload"), text("whoa!"));
    // an enum without tags is the value that its variant holds
    assert_eq!(to_lua(&single(1.5)).unwrap(), number(1.5));
    assert_eq!(to_lua(&word("yeehaw!")).unwrap(), text("yeehaw!"));
}

#[test]
fn integers_cross_only_exactly() {
    assert_eq!(
        LuaSerializer::new().serialize_i64(std::i64::MIN).unwrap(),
        number(-9223372036854775808.0)
    );
    assert!(matches!(
        kind(LuaSerializer::new().serialize_i64(std::i64::MIN + 1)),
        SerializeErrorKind::Lossy
    ));
    assert!(matches!(
        kind(LuaSerializer::new().serialize_i64(std::i64::MAX)),
        SerializeErrorKind::Lossy
    ));
    assert!(matches!(
        kind(LuaSerializer::new().serialize_u64(std::u64::MAX)),
        SerializeErrorKind::Lossy
    ));
    // up to 2^53 every integer is a double; beyond it, every second one, then every fourth
    assert_eq!(
        LuaSerializer::new().serialize_u64(9007199254740991).unwrap(),
        number(9007199254740991.0)
    );
    assert_eq!(
        LuaSerializer::new().serialize_u64(9007199254740992).unwrap(),
        number(9007199254740992.0)
    );
    assert!(LuaSerializer::new().serialize_u64(9007199254740993).is_err());
    assert_eq!(
        LuaSerializer::new().serialize_i64(-9007199254740994).unwrap(),
        number(-9007199254740994.0)
    );
    assert!(LuaSerializer::new().serialize_i64(-9007199254740993).is_err());
    assert!(LuaSerializer::new().serialize_u64(18014398509481986).is_err());
    assert_eq!(
        LuaSerializer::new().serialize_u64(18014398509481988).unwrap(),
        number(18014398509481988.0)
    );
    assert_eq!(
        LuaSerializer::new().serialize_u64(1 << 63).unwrap(),
        number(9223372036854775808.0)
    );
    assert_eq!(
        LuaSerializer::new().serialize_u64(0xFFFF_FFFF_FFFF_F800).unwrap(),
        number(18446744073709549568.0)
    );
    assert_eq!(LuaSerializer::new().serialize_i64(0).unwrap(), LuaValue::Number(0));
    assert_eq!(LuaSerializer::new().serialize_u64(0).unwrap(), LuaValue::Number(0));
    assert_eq!(LuaSerializer::new().serialize_i8(-128).unwrap(), number(-128.0));
    assert_eq!(LuaSerializer::new().serialize_i16(-32768).unwrap(), number(-32768.0));
    assert_eq!(LuaSerializer::new().serialize_i32(std::i32::MIN).unwrap(), number(-2147483648.0));
    assert_eq!(LuaSerializer::new().serialize_u32(std::u32::MAX).unwrap(), number(4294967295.0));
    for n in [1i64, 2, 3, 5, 7, 100, 1023, 1024, 1025, 65537, 123456789012345] {
        assert_eq!(LuaSerializer::new().serialize_i64(n).unwrap(), number(n as f64));
        assert_eq!(LuaSerializer::new().serialize_i64(-n).unwrap(), number(-n as f64));
    }
}

#[test]
fn a_character_is_a_string() {
    assert_eq!(LuaSerializer::new().serialize_char('x').unwrap(), text("x"));
    assert_eq!(LuaSerializer::new().serialize_char('好').unwrap(), text("好"));
}

#[test]
fn scalars_by_their_steps() {
    assert_eq!(LuaSerializer::new().serialize_none().unwrap(), LuaValue::Nil);
    assert_eq!(LuaSerializer::new().serialize_unit_struct("Marker").unwrap(), LuaValue::Nil);
    assert_eq!(LuaSerializer::new().serialize_some(number(1.0)).unwrap(), number(1.0));
    assert_eq!(
        LuaSerializer::new().serialize_newtype_struct("Wrapper", text("in")).unwrap(),
        text("in")
    );
    assert_eq!(
        LuaSerializer::new().serialize_unit_variant("E", 1, "second").unwrap(),
        text("second")
    );
    assert_eq!(
        LuaSerializer::new().serialize_newtype_variant("E", 0, "wrapped", number(7.0)).unwrap(),
        LuaValue::Table(vec![(text("wrapped"), number(7.0))])
    );
    assert_eq!(LuaSerializer::new().serialize_f32(1.5f32.to_bits()).unwrap(), number(1.5));
    assert_eq!(
        LuaSerializer::new().serialize_f32(0.1f32.to_bits()).unwrap(),
        number(0.1f32 as f64)
    );
}

#[test]
fn builders_by_their_steps() {
    let mut seq = LuaSerializer::new().serialize_seq(None).unwrap();
    seq.serialize_element(text("a")).unwrap();
    seq.serialize_element(text("b")).unwrap();
    assert_eq!(
        seq.end().unwrap(),
        LuaValue::Table(vec![(number(1.0), text("a")), (number(2.0), text("b"))])
    );

    let mut tuple = LuaSerializer::new().serialize_tuple_struct("Pair", 2).unwrap();
    tuple.serialize_field(number(1.0)).unwrap();
    tuple.serialize_field(number(2.0)).unwrap();
    assert_eq!(
        tuple.end().unwrap(),
        LuaValue::Table(vec![(number(1.0), number(1.0)), (number(2.0), number(2.0))])
    );
    assert_eq!(
        LuaSerializer::new().serialize_tuple(0).unwrap().end().unwrap(),
        LuaValue::Table(vec![])
    );

    let mut variant = LuaSerializer::new().serialize_tuple_variant("E", 2, "pair", 2).unwrap();
    variant.serialize_field(number(1.3)).unwrap();
    variant.serialize_field(number(3.1)).unwrap();
    assert_eq!(
        variant.end().unwrap(),
        LuaValue::Table(vec![(
            text("pair"),
            LuaValue::Table(vec![(number(1.0), number(1.3)), (number(2.0), number(3.1))])
        )])
    );

    let mut map = LuaSerializer::new().serialize_map(Some(2)).unwrap();
    map.serialize_key(text("k")).unwrap();
    assert_eq!(
        LuaSerializer::new().serialize_map(None).unwrap().end().unwrap(),
        LuaValue::Table(vec![])
    );
    map.serialize_value(number(1.0)).unwrap();
    map.serialize_entry(number(2.0), LuaValue::Bool(true)).unwrap();
    assert_eq!(
        map.end().unwrap(),
        LuaValue::Table(vec![(text("k"), number(1.0)), (number(2.0), LuaValue::Bool(true))])
    );

    let mut record = LuaSerializer::new().serialize_struct("Point", 2).unwrap();
    record.serialize_field("x", number(1.0)).unwrap();
    record.serialize_field("y", number(2.0)).unwrap();
    assert_eq!(
        record.end().unwrap(),
        LuaValue::Table(vec![(text("x"), number(1.0)), (text("y"), number(2.0))])
    );

    let mut variant = LuaSerializer::new().serialize_struct_variant("E", 3, "point", 1).unwrap();
    variant.serialize_field("x", number(1.0)).unwrap();
    assert_eq!(
        variant.end().unwrap(),
        LuaValue::Table(vec![(text("point"), LuaValue::Table(vec![(text("x"), number(1.0))]))])
    );
}

#[test]
fn a_key_that_no_entry_can_have() {
    let mut map = LuaSerializer::new().serialize_map(None).unwrap();
    map.serialize_entry(text("kept"), number(1.0)).unwrap();
    let error = map.serialize_key(LuaValue::Nil).unwrap_err();
    assert!(matches!(error.kind, SerializeErrorKind::KeyNil));
    assert_eq!(error.message(), "unserializable key nil");
    let error = map.serialize_key(number(0.0 / 0.0)).unwrap_err();
    assert!(matches!(error.kind, SerializeErrorKind::KeyNan));
    assert_eq!(error.message(), "unserializable key NaN");
    let error = map.serialize_entry(number(-(0.0f64 / 0.0)), text("v")).unwrap_err();
    assert!(matches!(error.kind, SerializeErrorKind::KeyNan));
    let error = map.serialize_entry(LuaValue::Nil, text("v")).unwrap_err();
    assert!(matches!(error.kind, SerializeErrorKind::KeyNil));
    // infinities are keys like any number
    map.serialize_entry(number(1.0 / 0.0), text("far")).unwrap();
    // what was refused has left no trace
    assert_eq!(
        map.end().unwrap(),
        LuaValue::Table(vec![(text("kept"), number(1.0)), (number(1.0 / 0.0), text("far"))])
    );

    assert!(matches!(
        kind(to_lua(&Native::Mapping(vec![(Native::F64((0.0f64 / 0.0).to_bits()), word("v"))]))),
        SerializeErrorKind::KeyNan
    ));
    assert!(matches!(
        kind(to_lua(&Native::Mapping(vec![(Native::Absent, word("v"))]))),
        SerializeErrorKind::KeyNil
    ));
    // the key is refused before its value is looked at
    assert!(matches!(
        kind(to_lua(&Native::Mapping(vec![(Native::Unit, Native::U64(std::u64::MAX))]))),
        SerializeErrorKind::KeyNil
    ));
}

#[test]
fn errors_say_what_they_are() {
    let error = LuaSerializer::new().serialize_u64(std::u64::MAX).unwrap_err();
    assert_eq!(error.message(), "value cannot be losslessly represented as lua number (f64)");
    let error = LuaSerializer::new().serialize_bytes(&[1]).unwrap_err();
    assert_eq!(error.message(), "cannot serialize bytes; base64 bytes are switched off");
    let error = LuaSerializeError::custom("made to measure");
    assert!(matches!(&error.kind, SerializeErrorKind::Custom(text) if text == "made to measure"));
    assert_eq!(error.message(), "made to measure");
    assert!(matches!(kind(to_lua(&Native::Bytes(vec![1, 2]))), SerializeErrorKind::BytesUnsupported));
    assert_eq!(
        LuaSerializer::with_base64_bytes().encode(&Native::Bytes(vec![1, 2, 3, 4])).unwrap(),
        text("AQIDBA==")
    );
}

fn comes_back(value: Native, shape: Shape) {
    let encoded = to_lua(&value).unwrap();
    assert_eq!(from_lua(encoded, &shape).unwrap(), value);
}

#[test]
fn what_is_encoded_comes_back() {
    comes_back(Native::Unit, Shape::Unit);
    comes_back(Native::Bool(true), Shape::Bool);
    comes_back(Native::I8(-7), Shape::I8);
    comes_back(Native::I16(-700), Shape::I16);
    comes_back(Native::I32(-70000), Shape::I32);
    comes_back(Native::I64(std::i64::MIN), Shape::I64);
    comes_back(Native::U8(7), Shape::U8);
    comes_back(Native::U16(700), Shape::U16);
    comes_back(Native::U32(70000), Shape::U32);
    comes_back(Native::U64(1 << 63), Shape::U64);
    comes_back(Native::F64(0.1f64.to_bits()), Shape::F64);
    comes_back(Native::F64((-0.0f64).to_bits()), Shape::F64);
    comes_back(Native::F64((0.0f64 / 0.0).to_bits()), Shape::F64);
    comes_back(single(0.1), Shape::F32);
    comes_back(Native::Char('好'), Shape::Char);
    comes_back(word("corn on the 好 cob"), Shape::Str);
    comes_back(Native::Absent, Shape::Optional(Box::new(Shape::Str)));
    comes_back(Native::Present(Box::new(word("x"))), Shape::Optional(Box::new(Shape::Str)));
    comes_back(Native::Newtype(Box::new(Native::Char('x'))), Shape::Newtype(Box::new(Shape::Char)));
    comes_back(integers(&[3, 2, 1]), Shape::Sequence(Box::new(Shape::I32)));
    comes_back(Native::Sequence(vec![]), Shape::Sequence(Box::new(Shape::I32)));
    comes_back(
        Native::Sequence(vec![Native::Unit, Native::Unit]),
        Shape::Sequence(Box::new(Shape::Unit)),
    );
    comes_back(
        Native::Tuple(vec![Native::Bool(false), word("x"), integers(&[1])]),
        Shape::Tuple(vec![Shape::Bool, Shape::Str, Shape::Sequence(Box::new(Shape::I32))]),
    );
    comes_back(
        Native::Mapping(vec![
            (Native::U8(2), word("two")),
            (Native::U8(1), word("one")),
            (Native::U8(2), word("again")),
        ]),
        Shape::Mapping(Box::new(Shape::U8), Box::new(Shape::Str)),
    );
    let point = || {
        Shape::Struct(vec![
            Field { name: "x".to_owned(), shape: Shape::F32, default: None },
            Field { name: "y".to_owned(), shape: Shape::Str, default: Some(word("")) },
            Field { name: "unit".to_owned(), shape: Shape::Unit, default: None },
        ])
    };
    let at = |x: f32, y: &str| {
        Native::Struct(vec![
            ("x".to_owned(), single(x)),
            ("y".to_owned(), word(y)),
            ("unit".to_owned(), Native::Unit),
        ])
    };
    comes_back(at(1.5, "up"), point());
    let shapes = || {
        Shape::Enum(vec![
            ("nothing".to_owned(), Shape::Unit),
            ("one".to_owned(), Shape::I64),
            ("pair".to_owned(), Shape::Tuple(vec![Shape::F32, Shape::F32])),
            ("point".to_owned(), point()),
        ])
    };
    comes_back(Native::UnitVariant("nothing".to_owned()), shapes());
    comes_back(Native::Variant("one".to_owned(), Box::new(Native::I64(-1))), shapes());
    comes_back(
        Native::Variant(
            "pair".to_owned(),
            Box::new(Native::Tuple(vec![single(1.0), single(2.0)])),
        ),
        shapes(),
    );
    comes_back(Native::Variant("point".to_owned(), Box::new(at(0.5, "left"))), shapes());
    comes_back(
        Native::Sequence(vec![
            Native::Variant("point".to_owned(), Box::new(at(0.5, "left"))),
            Native::UnitVariant("nothing".to_owned()),
        ]),
        Shape::Sequence(Box::new(shapes())),
    );
}

#[test]
fn an_option_around_nil_does_not_come_back() {
    let value = Native::Present(Box::new(Native::Unit));
    let shape = Shape::Optional(Box::new(Shape::Unit));
    assert_eq!(from_lua(to_lua(&value).unwrap(), &shape).unwrap(), Native::Absent);
    let value = Native::Present(Box::new(Native::Absent));
    let shape = Shape::Optional(Box::new(Shape::Optional(Box::new(Shape::Bool))));
    assert_eq!(from_lua(to_lua(&value).unwrap(), &shape).unwrap(), Native::Absent);
}

#[test]
fn values_are_compared_and_copied_by_what_they_hold() {
    let table = LuaValue::Table(vec![
        (number(1.0), text("a")),
        (text("k"), LuaValue::Table(vec![(LuaValue::Bool(true), LuaValue::RawString(vec![1, 2]))])),
        (LuaValue::Nil, LuaValue::Opaque),
    ]);
    let copy = table.clone();
    assert_eq!(table, copy);
    assert!(table.same(&copy));
    assert_ne!(table, LuaValue::Table(vec![]));
    assert_ne!(number(0.0), number(-0.0));
    assert_eq!(number(0.0 / 0.0), number(0.0 / 0.0));
    assert_ne!(text("a"), text("b"));
    assert_ne!(LuaValue::RawString(vec![1]), LuaValue::RawString(vec![2]));
    assert_ne!(LuaValue::Nil, LuaValue::Opaque);
    let native = Native::Struct(vec![(
        "list".to_owned(),
        Native::Mapping(vec![(Native::Char('k'), Native::Sequence(vec![Native::Unit]))]),
    )]);
    assert_eq!(native.clone(), native);
}
