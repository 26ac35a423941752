use trb::trb::{DumpError, Entity, ExtraInfoEntry, Value};

fn be(x: u32) -> Vec<u8> {
    vec![
        (x >> 24) as u8,
        (x >> 16) as u8,
        (x >> 8) as u8,
        x as u8,
    ]
}

fn envelope(body: Vec<u8>) -> Vec<u8> {
    let mut out = Vec::new();
    out.extend(b"TSFB".to_vec());
    out.extend(be(0x6b6f0));
    out.extend(b"FBRTXRDH".to_vec());
    out.extend(be(0x18));
    out.extend(be(0x0001_0001));
    out.extend(be(1));
    out.extend(be(0));
    out.extend(be(body.len() as u32));
    out.extend(be(0));
    out.extend(be(0));
    out.extend(b"TCES".to_vec());
    out.extend(be(body.len() as u32));
    out.extend(body);
    out
}

#[test]
fn bool_words() {
    assert_eq!(Value::Bool(true).object().dump(), vec![1, 0, 0, 0]);
    assert_eq!(Value::Bool(false).object().dump(), vec![0, 0, 0, 0]);
}

#[test]
fn integer_sign_bits_preserved() {
    assert_eq!(Value::Integer(42).object().dump(), vec![0, 0, 0, 42]);
    assert_eq!(Value::Integer(-1).object().dump(), vec![255, 255, 255, 255]);
}

#[test]
fn float_bits_as_word() {
    let v = Value::Floating(1.5f32.to_bits());
    assert_eq!(v.object().dump(), be(1.5f32.to_bits()));
}

#[test]
fn string_value_null_terminated() {
    let v = Value::String(String::from("hi"));
    assert_eq!(v.object().dump(), vec![104, 105, 0]);
}

#[test]
fn non_entity_root_is_rejected() {
    let r = Value::Bool(true).dump();
    assert!(matches!(r, Err(DumpError::RootNotEntityList)));
    assert!(Value::Integer(3).dump().is_err());
    assert!(Value::List(vec![]).dump().is_err());
}

// An empty entity list still emits the 2-word trailer and the body-length
// header words.
#[test]
fn empty_entity_list_envelope() {
    let out = Value::EntityList(vec![]).dump().unwrap();
    let body = vec![0u8; 8];
    assert_eq!(out, envelope(body));
    assert_eq!(out.len(), 60);
    // the header word carrying the body length
    assert_eq!(&out[32..36], &be(8)[..]);
    assert_eq!(&out[48..52], &be(8)[..]);
    // the 2-word trailer
    assert_eq!(&out[52..60], &[0u8; 8][..]);
}

#[test]
fn extra_info_typeids() {
    assert_eq!(Value::Integer(0).extra_info_typeid(), 0);
    assert_eq!(Value::Floating(0).extra_info_typeid(), 4);
    assert_eq!(Value::Bool(false).extra_info_typeid(), 5);
    assert_eq!(Value::String(String::new()).extra_info_typeid(), 6);
    assert_eq!(Value::List(vec![]).extra_info_typeid(), 7);
    assert_eq!(Value::EntityList(vec![]).extra_info_typeid(), 8);
}

#[test]
fn extra_info_list_lengths() {
    assert_eq!(Value::List(vec![Value::Integer(1), Value::Bool(true)]).extra_info_list_len(), 2);
    assert_eq!(Value::String(String::from("abc")).extra_info_list_len(), 0);
    assert_eq!(Value::EntityList(vec![]).extra_info_list_len(), 0);
}

#[test]
fn extra_info_scalar_is_inline() {
    assert_eq!(Value::Integer(-1).extra_info_object().dump(), vec![255, 255, 255, 255]);
    assert_eq!(Value::Bool(true).extra_info_object().dump(), vec![1, 0, 0, 0]);
}

#[test]
fn extra_info_string_is_behind_pointer() {
    let v = Value::String(String::from("hi"));
    let out = v.extra_info_object().dump();
    let mut expected = be(4);
    expected.extend(vec![104, 105, 0]);
    assert_eq!(out, expected);
}

// A 5-word extra-info record for an integer value: key pointer, key byte
// length, type id, list length, inline value.
#[test]
fn entry_record_for_integer() {
    let entry = ExtraInfoEntry { key: String::from("k"), value: Value::Integer(7) };
    let out = entry.object().dump();
    let mut expected = be(20);
    expected.extend(be(1));
    expected.extend(be(0));
    expected.extend(be(0));
    expected.extend(be(7));
    expected.extend(vec![107, 0]);
    assert_eq!(out, expected);
}

// A 5-word extra-info record for a one-element list: the final slot points
// past the key bytes, rounded up to the list's 32-byte alignment.
#[test]
fn entry_record_for_list() {
    let entry = ExtraInfoEntry {
        key: String::from("a"),
        value: Value::List(vec![Value::Integer(42)]),
    };
    let out = entry.object().dump();
    let mut expected = be(20);
    expected.extend(be(1));
    expected.extend(be(7));
    expected.extend(be(1));
    expected.extend(be(32));
    expected.extend(vec![97, 0]);
    expected.extend(std::iter::repeat(0u8).take(10));
    expected.extend(be(42));
    assert_eq!(out, expected);
    assert_eq!(out.len(), 36);
}

fn identity_matrix_bits() -> [u32; 16] {
    let one = 1.0f32.to_bits();
    [
        one, 0, 0, 0,
        0, one, 0, 0,
        0, 0, one, 0,
        0, 0, 0, one,
    ]
}

// One entity with no extra info: the record still carries all five fields,
// the inline count is zero, and the extra-info pointer targets a
// zero-length group reached only through alignment padding.
#[test]
fn entity_with_no_extra_info() {
    let one = 1.0f32.to_bits();
    let entity = Entity {
        typename: String::from("A"),
        position: [0, 0, 0, one],
        matrix: identity_matrix_bits(),
        extra_info: vec![],
    };
    let out = Value::EntityList(vec![entity]).dump().unwrap();

    let mut body = Vec::new();
    body.extend(be(28)); // pointer to the type name
    body.extend(be(0)); // inline extra-info count
    body.extend(be(32)); // pointer to the (empty) extra-info group
    body.extend(be(32)); // pointer to the rotation matrix
    body.extend(be(96)); // pointer to the position
    body.extend(be(0)); // trailer
    body.extend(be(1)); // entity count
    body.extend(vec![65, 0]); // "A\0"
    body.extend(vec![0, 0]); // padding up to the matrix alignment
    for w in identity_matrix_bits() {
        body.extend(be(w));
    }
    body.extend(be(0));
    body.extend(be(0));
    body.extend(be(0));
    body.extend(be(one));
    assert_eq!(body.len(), 112);
    assert_eq!(out, envelope(body));
}

// The identity quaternion's matrix, handed in as bit patterns, is emitted
// as the exact 4 by 4 identity: ones on the diagonal, zeros elsewhere.
#[test]
fn identity_matrix_words_in_buffer() {
    let entity = Entity {
        typename: String::from("A"),
        position: [0, 0, 0, 0],
        matrix: identity_matrix_bits(),
        extra_info: vec![],
    };
    let out = Value::EntityList(vec![entity]).dump().unwrap();
    // the matrix words sit at body offset 32, file offset 52 + 32
    for row in 0..4usize {
        for col in 0..4usize {
            let at = 84 + 4 * (4 * row + col);
            let expected = if row == col { be(1.0f32.to_bits()) } else { be(0) };
            assert_eq!(&out[at..at + 4], &expected[..]);
        }
    }
}

// Mapping the same document twice yields byte-identical buffers.
#[test]
fn dump_is_deterministic() {
    let make = || {
        Value::EntityList(vec![Entity {
            typename: String::from("Pickup"),
            position: [1.0f32.to_bits(), 2.0f32.to_bits(), 3.0f32.to_bits(), 1.0f32.to_bits()],
            matrix: identity_matrix_bits(),
            extra_info: vec![
                ExtraInfoEntry { key: String::from("hp"), value: Value::Integer(3) },
                ExtraInfoEntry {
                    key: String::from("name"),
                    value: Value::String(String::from("orb")),
                },
                ExtraInfoEntry {
                    key: String::from("tags"),
                    value: Value::List(vec![Value::Integer(1), Value::Integer(2)]),
                },
            ],
        }])
    };
    let first = make().dump().unwrap();
    let second = make().dump().unwrap();
    assert_eq!(first, second);
    assert!(!first.is_empty());
}

// A full three-generation file: the entity record points into the second
// layer, whose extra-info record points into the third, where the key
// bytes land.
#[test]
fn entity_with_one_integer_entry() {
    let one = 1.0f32.to_bits();
    let position = [1.0f32.to_bits(), 2.0f32.to_bits(), 3.0f32.to_bits(), one];
    let entity = Entity {
        typename: String::from("A"),
        position,
        matrix: identity_matrix_bits(),
        extra_info: vec![ExtraInfoEntry { key: String::from("k"), value: Value::Integer(7) }],
    };
    let out = Value::EntityList(vec![entity]).dump().unwrap();

    let mut body = Vec::new();
    // entity record
    body.extend(be(28)); // type name
    body.extend(be(1)); // extra-info count
    body.extend(be(32)); // extra-info group
    body.extend(be(64)); // matrix, aligned up to 16
    body.extend(be(128)); // position
    // trailer
    body.extend(be(0));
    body.extend(be(1));
    // second layer: name, extra-info record, matrix, position
    body.extend(vec![65, 0]); // "A\0"
    body.extend(vec![0, 0]); // padding up to the extra-info group
    body.extend(be(144)); // key, allocated after the position
    body.extend(be(1)); // key byte length
    body.extend(be(0)); // type id of Integer
    body.extend(be(0)); // list length
    body.extend(be(7)); // the value itself, inline
    body.extend(vec![0u8; 12]); // padding up to the matrix alignment
    for w in identity_matrix_bits() {
        body.extend(be(w));
    }
    for w in position {
        body.extend(be(w));
    }
    // third layer: the key bytes
    body.extend(vec![107, 0]); // "k\0"
    assert_eq!(body.len(), 146);
    assert_eq!(out, envelope(body));
    assert_eq!(out.len(), 198);
}
