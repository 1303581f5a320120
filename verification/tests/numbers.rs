use serde_hlua::de::{DeserializeErrorKind, LuaDeserializeError, LuaDeserializer, Unexpected};
use serde_hlua::number::{
    number_from_i64, number_from_u64, number_is_nan, number_to_i64, number_to_u64,
};
use serde_hlua::value::LuaValue;

/// A sequence of bit patterns that looks random and is the same at every run.
struct Patterns(u64);

impl Patterns {
    fn next(&mut self) -> u64 {
        self.0 ^= self.0 << 13;
        self.0 ^= self.0 >> 7;
        self.0 ^= self.0 << 17;
        self.0
    }
}

/// Integers of every length in bits, with many and with few bits set.
fn integers() -> Vec<u64> {
    let mut found = vec![0, 1, 2, 3, u64::MAX, u64::MAX - 1, 1 << 53, (1 << 53) + 1, (1 << 53) - 1];
    let mut patterns = Patterns(0x9E37_79B9_7F4A_7C15);
    for shift in 0..64 {
        found.push(1 << shift);
        found.push((1u64 << shift).wrapping_sub(1));
        found.push((1u64 << shift) + 1);
        for _ in 0..40 {
            let dense = patterns.next() >> shift;
            found.push(dense);
            let zeros = (patterns.next() % 64) as u32;
            found.push(dense.checked_shl(zeros).unwrap_or(0));
            found.push((dense >> zeros.min(63)) << zeros.min(63));
        }
    }
    found
}

/// Doubles of every exponent, whole and not, and the patterns around them.
fn doubles() -> Vec<u64> {
    let mut found = vec![
        0,
        1 << 63,
        f64::INFINITY.to_bits(),
        f64::NEG_INFINITY.to_bits(),
        f64::NAN.to_bits(),
        (-f64::NAN).to_bits(),
        0x7FF0_0000_0000_0001,
        0xFFF0_0000_0000_0001,
        0x7FFF_FFFF_FFFF_FFFF,
        1,
        0x000F_FFFF_FFFF_FFFF,
        0x0010_0000_0000_0000,
        f64::MAX.to_bits(),
        f64::MIN_POSITIVE.to_bits(),
    ];
    let mut patterns = Patterns(0x2545_F491_4F6C_DD1D);
    for _ in 0..20000 {
        found.push(patterns.next());
    }
    for n in integers() {
        let near = (n as f64).to_bits();
        found.extend([near, near + 1, near.wrapping_sub(1), near | (1 << 63)]);
        found.push((n as f64 + 0.5).to_bits());
        found.push((-(n as f64) - 0.5).to_bits());
    }
    found
}

#[test]
fn an_integer_becomes_the_double_that_equals_it() {
    for n in integers() {
        let double = n as f64;
        let exact = double < 18446744073709551616.0 && double as u64 == n;
        let expected = if exact { Some(double.to_bits()) } else { None };
        assert_eq!(number_from_u64(n), expected, "{}", n);

        let signed = n as i64;
        let double = signed as f64;
        let exact = double < 9223372036854775808.0 && double as i64 == signed;
        let expected = if exact { Some(double.to_bits()) } else { None };
        assert_eq!(number_from_i64(signed), expected, "{}", signed);
    }
}

#[test]
fn a_double_becomes_the_integer_that_it_equals() {
    for bits in doubles() {
        let double = f64::from_bits(bits);
        let whole = double.is_finite() && double.trunc() == double;
        let unsigned = if whole && double >= 0.0 && double < 18446744073709551616.0 {
            Some(double as u64)
        } else {
            None
        };
        assert_eq!(number_to_u64(bits), unsigned, "{:e} {:#x}", double, bits);
        let signed = if whole && double >= -9223372036854775808.0 && double < 9223372036854775808.0
        {
            Some(double as i64)
        } else {
            None
        };
        assert_eq!(number_to_i64(bits), signed, "{:e} {:#x}", double, bits);
        assert_eq!(number_is_nan(bits), double.is_nan(), "{:#x}", bits);
    }
}

#[test]
fn what_became_a_double_comes_back() {
    for n in integers() {
        if let Some(bits) = number_from_u64(n) {
            assert_eq!(number_to_u64(bits), Some(n));
        }
        if let Some(bits) = number_from_i64(n as i64) {
            assert_eq!(number_to_i64(bits), Some(n as i64));
        }
    }
}

#[test]
fn every_width_has_its_bounds() {
    for bits in doubles() {
        let double = f64::from_bits(bits);
        let whole = double.is_finite() && double.trunc() == double;
        let within = |low: f64, high: f64| whole && low <= double && double <= high;
        let number = || LuaDeserializer::new(LuaValue::Number(bits));
        assert_eq!(number().deserialize_i8().ok(), within(-128.0, 127.0).then(|| double as i8));
        assert_eq!(
            number().deserialize_i16().ok(),
            within(-32768.0, 32767.0).then(|| double as i16)
        );
        assert_eq!(
            number().deserialize_i32().ok(),
            within(-2147483648.0, 2147483647.0).then(|| double as i32)
        );
        assert_eq!(number().deserialize_u8().ok(), within(0.0, 255.0).then(|| double as u8));
        assert_eq!(number().deserialize_u16().ok(), within(0.0, 65535.0).then(|| double as u16));
        assert_eq!(
            number().deserialize_u32().ok(),
            within(0.0, 4294967295.0).then(|| double as u32)
        );
        assert_eq!(number().deserialize_i64().ok(), number_to_i64(bits));
        assert_eq!(number().deserialize_u64().ok(), number_to_u64(bits));
        assert_eq!(number().deserialize_f64().ok(), Some(bits));
    }
}

#[test]
fn a_value_nobody_wants_is_walked_through() {
    let fine = LuaValue::Table(vec![
        (LuaValue::String("k".to_owned()), LuaValue::Table(vec![])),
        (LuaValue::Bool(true), LuaValue::Nil),
    ]);
    assert!(LuaDeserializer::new(fine).ignore().is_ok());
    // in a map the keys are walked through too
    let table = LuaValue::Table(vec![(LuaValue::Opaque, LuaValue::Nil)]);
    match LuaDeserializer::new(table).ignore().unwrap_err().kind {
        DeserializeErrorKind::InvalidType(Unexpected::Unserializable) => {}
        other => panic!("another error: {:?}", other),
    }
    let table = LuaValue::Table(vec![(
        LuaValue::Number(1.0f64.to_bits()),
        LuaValue::Table(vec![(LuaValue::Number(1.0f64.to_bits()), LuaValue::RawString(vec![0xfe]))]),
    )]);
    match LuaDeserializer::new(table).ignore().unwrap_err().kind {
        DeserializeErrorKind::InvalidType(Unexpected::NonUtf8String) => {}
        other => panic!("another error: {:?}", other),
    }
}

#[test]
fn errors_made_by_hand() {
    assert!(matches!(
        LuaDeserializeError::custom("made to measure").kind,
        DeserializeErrorKind::Custom(text) if text == "made to measure"
    ));
    assert!(matches!(
        LuaDeserializeError::invalid_type(Unexpected::Unit).kind,
        DeserializeErrorKind::InvalidType(Unexpected::Unit)
    ));
    assert!(matches!(
        LuaDeserializeError::invalid_value(Unexpected::Bool(true)).kind,
        DeserializeErrorKind::InvalidValue(Unexpected::Bool(true))
    ));
    assert!(matches!(
        LuaDeserializeError::invalid_length(3).kind,
        DeserializeErrorKind::InvalidLength(3)
    ));
    assert!(matches!(
        LuaDeserializeError::missing_field("f").kind,
        DeserializeErrorKind::MissingField(name) if name == "f"
    ));
    assert!(matches!(
        LuaDeserializeError::duplicate_field("f").kind,
        DeserializeErrorKind::DuplicateField(name) if name == "f"
    ));
    assert!(matches!(
        LuaDeserializeError::unknown_variant("v").kind,
        DeserializeErrorKind::UnknownVariant(name) if name == "v"
    ));
    let found = serde_hlua::de::error(LuaValue::RawString(vec![1, 2]));
    assert!(matches!(
        found.kind,
        DeserializeErrorKind::InvalidType(Unexpected::Bytes(bytes)) if bytes == vec![1, 2]
    ));
    let found = serde_hlua::de::error(LuaValue::String("s".to_owned()));
    assert!(matches!(
        found.kind,
        DeserializeErrorKind::InvalidType(Unexpected::Str(text)) if text == "s"
    ));
    assert!(matches!(
        serde_hlua::de::error(LuaValue::Nil).kind,
        DeserializeErrorKind::InvalidType(Unexpected::Unit)
    ));
    assert!(matches!(
        serde_hlua::de::error(LuaValue::Bool(false)).kind,
        DeserializeErrorKind::InvalidType(Unexpected::Bool(false))
    ));
    assert!(matches!(
        serde_hlua::de::error(LuaValue::Table(vec![])).kind,
        DeserializeErrorKind::InvalidType(Unexpected::Table)
    ));
}
