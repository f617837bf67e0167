use luabins::{Key, NotNanBits, Value};

fn values_eq(a: &[Value], b: &[Value]) -> bool {
    a.len() == b.len() && a.iter().zip(b.iter()).all(|(x, y)| x.deep_eq(y))
}

fn number(x: f64) -> Value {
    Value::Number(x.to_bits())
}

fn text(s: &str) -> Value {
    Value::String(s.as_bytes().to_vec())
}

fn key_number(x: f64) -> Key {
    Key::Number(NotNanBits::new(x.to_bits()).unwrap())
}

/// The bytes of one encoded tuple holding `[1, "two", {1 = "three", 2 = 4}]`.
fn basic1_bytes() -> Vec<u8> {
    let mut data: Vec<u8> = Vec::new();
    data.push(3); // tuple arity
    data.push(b'N');
    data.extend_from_slice(&1f64.to_le_bytes());
    data.push(b'S');
    data.extend_from_slice(&3u32.to_le_bytes());
    data.extend_from_slice(b"two");
    data.push(b'T');
    data.extend_from_slice(&2u32.to_le_bytes()); // array part
    data.extend_from_slice(&0u32.to_le_bytes()); // hash part
    data.push(b'N');
    data.extend_from_slice(&1f64.to_le_bytes());
    data.push(b'S');
    data.extend_from_slice(&5u32.to_le_bytes());
    data.extend_from_slice(b"three");
    data.push(b'N');
    data.extend_from_slice(&2f64.to_le_bytes());
    data.push(b'N');
    data.extend_from_slice(&4f64.to_le_bytes());
    data
}

#[test]
fn basic1() {
    let data = basic1_bytes();
    let (rest, result) = luabins::load(&data).unwrap();
    assert!(rest.is_empty());
    let expected = vec![
        number(1f64),
        text("two"),
        Value::Table(vec![
            (key_number(1f64), text("three")),
            (key_number(2f64), number(4f64)),
        ]),
    ];
    assert!(values_eq(&result, &expected));
}

#[test]
fn round_trips() {
    let buffers: Vec<Vec<u8>> = vec![
        basic1_bytes(),
        luabins::save(&[]),
        luabins::save(&[Value::Nil, Value::Boolean(true), Value::Boolean(false)]),
        luabins::save(&[Value::Table(vec![
            (key_number(1f64), Value::Table(vec![(Key::Boolean(true), text("deep"))])),
            (Key::String(b"k".to_vec()), number(-0.5)),
        ])]),
        luabins::save(&[text("\u{3b1}\u{3b2}\u{3b3}"), number(f64::INFINITY)]),
    ];
    for data in buffers {
        let (rest, result) = luabins::load(&data).unwrap();
        assert!(rest.is_empty());
        let serialized = luabins::save(&result);
        assert_eq!(data, serialized);
    }
}
