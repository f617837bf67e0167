use luabins::{DecodeError, Key, NotNanBits, TypeIdentifier, Value};

fn number(x: f64) -> Value {
    Value::Number(x.to_bits())
}

fn text(s: &str) -> Value {
    Value::String(s.as_bytes().to_vec())
}

fn key_number(x: f64) -> Key {
    Key::Number(NotNanBits::new(x.to_bits()).unwrap())
}

/// Arity bound: a tuple of 251 values is rejected, 250 are accepted.
#[test]
fn arity_bound() {
    let too_many: Vec<Value> = (0..251).map(|_| Value::Nil).collect();
    assert!(luabins::try_save(&too_many).is_none());
    let just_enough: Vec<Value> = (0..250).map(|_| Value::Nil).collect();
    let bytes = luabins::try_save(&just_enough).unwrap();
    assert_eq!(bytes[0], 250);
    assert_eq!(bytes.len(), 251);
}

/// A table payload whose key tag is NIL fails with NilKeyDisallowed.
#[test]
fn nil_key_rejected() {
    let mut data: Vec<u8> = Vec::new();
    data.push(1);
    data.push(b'T');
    data.extend_from_slice(&0u32.to_le_bytes());
    data.extend_from_slice(&1u32.to_le_bytes());
    data.push(b'-'); // NIL tag in key position
    data.push(b'-');
    assert_eq!(luabins::load(&data).unwrap_err(), DecodeError::NilKeyDisallowed);
}

/// A table payload whose key is a NUMBER with NaN bits fails with
/// NaNKeyDisallowed.
#[test]
fn nan_key_rejected() {
    let mut data: Vec<u8> = Vec::new();
    data.push(1);
    data.push(b'T');
    data.extend_from_slice(&0u32.to_le_bytes());
    data.extend_from_slice(&1u32.to_le_bytes());
    data.push(b'N');
    data.extend_from_slice(&f64::NAN.to_le_bytes());
    data.push(b'-');
    assert_eq!(luabins::load(&data).unwrap_err(), DecodeError::NaNKeyDisallowed);
}

/// Multi-byte UTF-8 text survives an encode/decode round trip exactly.
#[test]
fn string_fidelity() {
    let original = "na\u{ef}ve \u{65e5}\u{672c} \u{1f980}";
    let bytes = luabins::save(&[text(original)]);
    let (rest, values) = luabins::load(&bytes).unwrap();
    assert!(rest.is_empty());
    assert_eq!(values.len(), 1);
    let decoded = values[0].get_string().unwrap();
    assert_eq!(decoded.as_slice(), original.as_bytes());
    assert_eq!(decoded.len(), original.len());
}

/// The trailing table of the documented example encodes with
/// array_size 2 and hash_size 0, and the stream decodes back to the
/// same values with no leftover bytes.
#[test]
fn array_hash_split() {
    let table = Value::Table(vec![
        (key_number(1f64), text("three")),
        (key_number(2f64), number(4f64)),
    ]);
    let values = vec![number(1f64), text("two"), table];
    let bytes = luabins::save(&values);
    // offset of the trailing table: count, number, string "two"
    let table_at = 1 + 9 + (1 + 4 + 3);
    assert_eq!(bytes[table_at], b'T');
    assert_eq!(&bytes[table_at + 1..table_at + 5], &2u32.to_le_bytes()); // array part
    assert_eq!(&bytes[table_at + 5..table_at + 9], &0u32.to_le_bytes()); // hash part
    let (rest, decoded) = luabins::load(&bytes).unwrap();
    assert!(rest.is_empty());
    assert_eq!(decoded.len(), values.len());
    assert!(decoded.iter().zip(values.iter()).all(|(a, b)| a.deep_eq(b)));
    let reencoded = luabins::save(&decoded);
    assert_eq!(bytes, reencoded);
}

/// Duplicate keys are neither rejected nor deduplicated: the pairs
/// come back in the order they were given.
#[test]
fn duplicate_keys_preserved() {
    let table = Value::Table(vec![
        (key_number(1f64), text("first")),
        (key_number(1f64), text("second")),
    ]);
    let bytes = luabins::save(&[table]);
    assert_eq!(&bytes[2..6], &1u32.to_le_bytes()); // array part
    assert_eq!(&bytes[6..10], &1u32.to_le_bytes()); // hash part
    let (_, decoded) = luabins::load(&bytes).unwrap();
    let pairs = decoded[0].get_table().unwrap();
    assert_eq!(pairs.len(), 2);
    assert_eq!(pairs[0].1.get_string().unwrap().as_slice(), b"first");
    assert_eq!(pairs[1].1.get_string().unwrap().as_slice(), b"second");
    assert_eq!(luabins::save(&decoded), bytes);
}

/// A table with no run of integer keys from 1 goes entirely to the
/// hash part.
#[test]
fn hash_only_split() {
    let table = Value::Table(vec![
        (key_number(2f64), number(4f64)),
        (Key::Boolean(true), Value::Nil),
    ]);
    let bytes = luabins::save(&[table]);
    assert_eq!(bytes[1], b'T');
    assert_eq!(&bytes[2..6], &0u32.to_le_bytes()); // array part
    assert_eq!(&bytes[6..10], &2u32.to_le_bytes()); // hash part
}

/// The array scan asks only that every index from 1 appears as some
/// pair's key: order among the pairs does not matter.
#[test]
fn array_scan_ignores_pair_order() {
    let table = Value::Table(vec![
        (key_number(2f64), Value::Nil),
        (key_number(3f64), Value::Nil),
        (key_number(1f64), Value::Nil),
    ]);
    let bytes = luabins::save(&[table]);
    assert_eq!(&bytes[2..6], &3u32.to_le_bytes()); // array part
    assert_eq!(&bytes[6..10], &0u32.to_le_bytes()); // hash part
}

/// A number key must equal the integer index exactly: a fractional key
/// never joins the array part.
#[test]
fn fractional_key_is_hash_part() {
    let table = Value::Table(vec![(key_number(1.5), Value::Nil)]);
    let bytes = luabins::save(&[table]);
    assert_eq!(&bytes[2..6], &0u32.to_le_bytes()); // array part
    assert_eq!(&bytes[6..10], &1u32.to_le_bytes()); // hash part
}

/// A longer run of consecutive integer keys, spanning several binary
/// exponents, all lands in the array part and round-trips exactly.
#[test]
fn long_integer_run() {
    let pairs: Vec<(Key, Value)> = (1..=9).map(|i| (key_number(i as f64), number(i as f64))).collect();
    let bytes = luabins::save(&[Value::Table(pairs)]);
    assert_eq!(&bytes[2..6], &9u32.to_le_bytes()); // array part
    assert_eq!(&bytes[6..10], &0u32.to_le_bytes()); // hash part
    let (rest, decoded) = luabins::load(&bytes).unwrap();
    assert!(rest.is_empty());
    assert_eq!(luabins::save(&decoded), bytes);
}

/// Loading a buffer of two concatenated envelopes returns the first
/// tuple and the untouched bytes of the second.
#[test]
fn partial_buffer() {
    let first = luabins::save(&[number(1f64), Value::Boolean(true)]);
    let second = luabins::save(&[text("later")]);
    let mut data = first.clone();
    data.extend_from_slice(&second);
    let (rest, values) = luabins::load(&data).unwrap();
    assert_eq!(values.len(), 2);
    assert!(!rest.is_empty());
    assert_eq!(rest, second.as_slice());
    let (rest2, values2) = luabins::load(rest).unwrap();
    assert!(rest2.is_empty());
    assert_eq!(values2.len(), 1);
}

/// Encoding a decoded sequence twice yields byte-identical output.
#[test]
fn reencode_idempotent() {
    let data = luabins::save(&[
        number(1.5),
        Value::Table(vec![(key_number(1f64), Value::Nil), (Key::String(b"x".to_vec()), number(2.5))]),
    ]);
    let (_, decoded) = luabins::load(&data).unwrap();
    let first = luabins::save(&decoded);
    let (_, decoded_again) = luabins::load(&first).unwrap();
    let second = luabins::save(&decoded_again);
    assert_eq!(first, second);
    assert_eq!(data, first);
}

/// A byte that is none of the six tags fails with UnknownTypeTag.
#[test]
fn unknown_tag() {
    let data = vec![1u8, 0x7A];
    assert_eq!(luabins::load(&data).unwrap_err(), DecodeError::UnknownTypeTag);
}

/// A string payload that is not valid UTF-8 fails with InvalidUtf8.
#[test]
fn invalid_utf8() {
    let mut data: Vec<u8> = Vec::new();
    data.push(1);
    data.push(b'S');
    data.extend_from_slice(&2u32.to_le_bytes());
    data.push(0xFF);
    data.push(0xFE);
    assert_eq!(luabins::load(&data).unwrap_err(), DecodeError::InvalidUtf8);
}

/// A buffer that ends inside a structure fails with
/// UnexpectedEndOfInput.
#[test]
fn unexpected_end_of_input() {
    assert_eq!(luabins::load(&[]).unwrap_err(), DecodeError::UnexpectedEndOfInput);
    let data = vec![1u8, b'N', 0, 0]; // number cut short
    assert_eq!(luabins::load(&data).unwrap_err(), DecodeError::UnexpectedEndOfInput);
}

/// A count byte above 250, or table sizes whose sum overflows 32 bits,
/// fail with CountExceeded.
#[test]
fn count_exceeded() {
    assert_eq!(luabins::load(&[251u8]).unwrap_err(), DecodeError::CountExceeded);
    let mut data: Vec<u8> = Vec::new();
    data.push(1);
    data.push(b'T');
    data.extend_from_slice(&u32::MAX.to_le_bytes());
    data.extend_from_slice(&1u32.to_le_bytes());
    assert_eq!(luabins::load(&data).unwrap_err(), DecodeError::CountExceeded);
}

/// A tuple saved through `try_save` matches `save`, and an oversized
/// string is rejected by `try_save`.
#[test]
fn try_save_matches_save() {
    let values = vec![number(7f64), text("ok")];
    assert_eq!(luabins::try_save(&values).unwrap(), luabins::save(&values));
    let bad = vec![Value::String(vec![0xFF])]; // not UTF-8
    assert!(luabins::try_save(&bad).is_none());
}

/// The structural accessors expose exactly the variant they name.
#[test]
fn accessors() {
    let v = number(2.5);
    assert_eq!(v.get_number(), Some(2.5f64.to_bits()));
    assert!(v.get_bool().is_none());
    assert!(v.get_string().is_none());
    assert!(v.get_table().is_none());
    assert!(v.get_nil().is_none());
    assert_eq!(Value::Nil.get_nil(), Some(()));
    assert_eq!(Value::Boolean(true).get_bool(), Some(true));
    let s = text("abc");
    assert_eq!(s.get_string().unwrap().as_slice(), b"abc");
    let t = Value::Table(vec![(Key::Boolean(false), Value::Nil)]);
    assert_eq!(t.get_table().unwrap().len(), 1);

    let k = key_number(3f64);
    assert_eq!(k.get_number(), Some(NotNanBits::new(3f64.to_bits()).unwrap()));
    assert!(k.get_bool().is_none());
    assert!(k.get_string().is_none());
    assert!(k.get_table().is_none());
    assert_eq!(Key::Boolean(true).get_bool(), Some(true));
    assert_eq!(Key::String(b"k".to_vec()).get_string().unwrap().as_slice(), b"k");
    assert_eq!(Key::Table(vec![]).get_table().unwrap().len(), 0);
}

/// NaN bit patterns are rejected at key-number construction; all
/// others are accepted and kept exactly.
#[test]
fn key_number_rejects_nan() {
    assert!(NotNanBits::new(f64::NAN.to_bits()).is_none());
    assert!(NotNanBits::new((-f64::NAN).to_bits()).is_none());
    let inf = NotNanBits::new(f64::INFINITY.to_bits()).unwrap();
    assert_eq!(inf.bits(), f64::INFINITY.to_bits());
    let zero = NotNanBits::new(0f64.to_bits()).unwrap();
    assert_eq!(zero.bits(), 0);
}

/// Structural equality tells apart values that differ anywhere in a
/// nested tree, and accepts rebuilt copies.
#[test]
fn deep_equality() {
    let a = Value::Table(vec![
        (key_number(1f64), text("x")),
        (Key::String(b"k".to_vec()), Value::Table(vec![(Key::Boolean(true), number(2.5))])),
    ]);
    let same = Value::Table(vec![
        (key_number(1f64), text("x")),
        (Key::String(b"k".to_vec()), Value::Table(vec![(Key::Boolean(true), number(2.5))])),
    ]);
    let different = Value::Table(vec![
        (key_number(1f64), text("x")),
        (Key::String(b"k".to_vec()), Value::Table(vec![(Key::Boolean(true), number(3.5))])),
    ]);
    assert!(a.deep_eq(&same));
    assert!(!a.deep_eq(&different));
    assert!(!a.deep_eq(&Value::Nil));
    assert!(Key::Boolean(false).deep_eq(&Key::Boolean(false)));
    assert!(!key_number(1f64).deep_eq(&key_number(2f64)));
}

/// The tag registry maps bytes and kinds both ways.
#[test]
fn tag_registry() {
    let cases = [
        (0x2Du8, TypeIdentifier::NIL),
        (0x30u8, TypeIdentifier::FALSE),
        (0x31u8, TypeIdentifier::TRUE),
        (0x4Eu8, TypeIdentifier::NUMBER),
        (0x53u8, TypeIdentifier::STRING),
        (0x54u8, TypeIdentifier::TABLE),
    ];
    for (byte, tag) in cases {
        assert_eq!(TypeIdentifier::try_from(byte), Ok(tag));
        assert_eq!(tag.tag_byte(), byte);
    }
    assert_eq!(TypeIdentifier::try_from(0x00), Err(DecodeError::UnknownTypeTag));
}
