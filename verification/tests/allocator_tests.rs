use trb::allocator::{align, align_amount, dump_int, Object};

fn be(x: u32) -> Vec<u8> {
    vec![
        (x >> 24) as u8,
        (x >> 16) as u8,
        (x >> 8) as u8,
        x as u8,
    ]
}

#[test]
fn dump_int_is_big_endian() {
    assert_eq!(dump_int(0x0000002A), vec![0, 0, 0, 42]);
    assert_eq!(dump_int(0x01000000), vec![1, 0, 0, 0]);
    assert_eq!(dump_int(0x12345678), vec![0x12, 0x34, 0x56, 0x78]);
}

#[test]
fn align_helpers() {
    assert_eq!(align_amount(5, 4), 3);
    assert_eq!(align_amount(8, 4), 0);
    assert_eq!(align(5, 4), 8);
    assert_eq!(align(0, 32), 0);
    assert_eq!(align(33, 32), 64);
}

#[test]
fn integer_object_bytes() {
    assert_eq!(Object::integer(42).dump(), vec![0, 0, 0, 42]);
}

#[test]
fn sizes_and_alignments() {
    assert_eq!(Object::integer(7).size(), 4);
    assert_eq!(Object::integer(7).alignment(), 4);
    assert_eq!(Object::string("ab", true).size(), 3);
    assert_eq!(Object::string("ab", false).size(), 2);
    assert_eq!(Object::string("ab", true).alignment(), 1);
    assert_eq!(Object::ptr(Object::string("ab", true)).size(), 4);
    assert_eq!(Object::ptr(Object::string("ab", true)).alignment(), 4);
    let group = Object::list(8, vec![Object::integer(1), Object::string("xyz", false)]);
    assert_eq!(group.alignment(), 8);
    assert_eq!(group.size(), 7);
}

#[test]
fn string_object_bytes() {
    assert_eq!(Object::string("hi", false).dump(), vec![104, 105]);
    assert_eq!(Object::string("hi", true).dump(), vec![104, 105, 0]);
}

// A single pointer to a 32-byte-aligned list of one integer: the pointer
// word, then padding up to the list alignment, then the element.
#[test]
fn pointer_to_aligned_list() {
    let obj = Object::ptr(Object::list(0x20, vec![Object::integer(42)]));
    let out = obj.dump();
    let mut expected = be(0x20);
    expected.extend(std::iter::repeat(0u8).take(28));
    expected.extend(be(42));
    assert_eq!(out, expected);
    assert_eq!(out.len(), 36);
}

// A two-field group whose first field defers a string to the next layer:
// the pointer resolves to the end of the first layer.
#[test]
fn two_layer_group_with_string() {
    let obj = Object::list(
        4,
        vec![
            Object::ptr(Object::string("ab", true)),
            Object::integer(7),
        ],
    );
    let out = obj.dump();
    let mut expected = be(8);
    expected.extend(be(7));
    expected.extend(vec![97, 98, 0]);
    assert_eq!(out, expected);
}

// Two pointers in one group: targets are allocated in walk order, each
// rounded up to its own alignment.
#[test]
fn two_pointers_forward_offsets() {
    let obj = Object::list(
        4,
        vec![
            Object::ptr(Object::string("abc", true)),
            Object::ptr(Object::list(4, vec![Object::integer(5)])),
        ],
    );
    let out = obj.dump();
    // head starts at 8; "abc\0" lands at 8, the word list at align(12, 4) = 12
    let mut expected = be(8);
    expected.extend(be(12));
    expected.extend(vec![97, 98, 99, 0]);
    expected.extend(be(5));
    assert_eq!(out, expected);
    assert_eq!(out.len(), 16);
}

#[test]
fn dump_layer_pads_to_alignment() {
    let obj = Object::integer(5);
    let mut head: usize = 0;
    let out = obj.dump_layer(2, &mut head);
    assert_eq!(out, vec![0, 0, 0, 0, 0, 5]);
    assert_eq!(head, 0);
}

#[test]
fn dump_layer_bumps_head_for_reference() {
    let obj = Object::ptr(Object::string("abc", true));
    let mut head: usize = 5;
    let out = obj.dump_layer(0, &mut head);
    // the string has alignment 1, so the pointer targets the head as it was
    assert_eq!(out, be(5));
    assert_eq!(head, 9);
}

#[test]
fn next_layer_collects_deferred_children() {
    let obj = Object::list(
        4,
        vec![
            Object::ptr(Object::integer(1)),
            Object::integer(2),
            Object::ptr(Object::integer(3)),
        ],
    );
    match obj.next_layer() {
        Some(Object::Struct(a, fields)) => {
            assert_eq!(a, 1);
            assert_eq!(fields.len(), 2);
            assert_eq!(fields[0].0, 0);
            assert_eq!(fields[1].0, 1);
        },
        _ => panic!("expected a synthetic group"),
    }
    assert!(Object::integer(9).next_layer().is_none());
    assert!(Object::string("x", false).next_layer().is_none());
}

// The buffer length equals the object's own size plus every deferred
// payload's aligned contribution, with no trailing slack.
#[test]
fn dump_length_is_final_head() {
    let obj = Object::list(
        4,
        vec![
            Object::ptr(Object::string("a", true)),
            Object::ptr(Object::list(0x10, vec![Object::integer(1)])),
        ],
    );
    // own size 8; "a\0" at 8..10; word list at align(10, 16) = 16..20
    assert_eq!(obj.dump().len(), 20);
}
