//! Checks for the modified multi-byte text decoder: plain sequences, the
//! six-byte surrogate-pair form, and the replacement-character recovery for
//! malformed or incomplete input.

use classreader::mutf8::read_modified_utf8;

#[test]
fn ascii_decodes_to_itself() {
    let bytes: Vec<u8> = b"Hello, world!".to_vec();
    assert_eq!(read_modified_utf8(&bytes), "Hello, world!");
}

#[test]
fn empty_input_decodes_to_empty_text() {
    let bytes: Vec<u8> = vec![];
    assert_eq!(read_modified_utf8(&bytes), "");
}

#[test]
fn two_byte_sequence() {
    // 0xC3 0xA9 encodes U+00E9.
    let bytes: Vec<u8> = vec![0xc3, 0xa9];
    assert_eq!(read_modified_utf8(&bytes), "\u{e9}");
}

#[test]
fn three_byte_sequence() {
    // 0xE2 0x82 0xAC encodes U+20AC.
    let bytes: Vec<u8> = vec![0xe2, 0x82, 0xac];
    assert_eq!(read_modified_utf8(&bytes), "\u{20ac}");
}

#[test]
fn six_byte_surrogate_pair_decodes_to_one_scalar() {
    // The six-byte form of U+1F600, followed by an ASCII byte: the decoder
    // must consume exactly six bytes for the first scalar.
    let bytes: Vec<u8> = vec![0xed, 0xa0, 0xbd, 0xed, 0xb8, 0x80, 0x41];
    assert_eq!(read_modified_utf8(&bytes), "\u{1f600}A");
}

#[test]
fn six_byte_surrogate_pair_alone() {
    let bytes: Vec<u8> = vec![0xed, 0xa0, 0xbd, 0xed, 0xb8, 0x80];
    let s = read_modified_utf8(&bytes);
    assert_eq!(s.chars().count(), 1);
    assert_eq!(s, "\u{1f600}");
}

#[test]
fn lone_surrogate_half_becomes_replacement() {
    // A three-byte sequence encoding a surrogate half, then an ASCII byte:
    // one replacement character, and the cursor advances by exactly three.
    let bytes: Vec<u8> = vec![0xed, 0xa0, 0x80, 0x41];
    assert_eq!(read_modified_utf8(&bytes), "\u{fffd}A");
}

#[test]
fn invalid_leading_byte_becomes_replacement() {
    // A bare continuation byte cannot start a sequence.
    let bytes: Vec<u8> = vec![0x80, 0x41];
    assert_eq!(read_modified_utf8(&bytes), "\u{fffd}A");
}

#[test]
fn four_byte_utf8_leader_becomes_replacement() {
    // The format never uses native 4-byte sequences; 0xF0 is malformed.
    let bytes: Vec<u8> = vec![0xf0, 0x9f, 0x98, 0x80];
    let s = read_modified_utf8(&bytes);
    assert_eq!(s.chars().next(), Some('\u{fffd}'));
}

#[test]
fn truncated_two_byte_sequence_becomes_replacement() {
    let bytes: Vec<u8> = vec![0x41, 0xc3];
    assert_eq!(read_modified_utf8(&bytes), "A\u{fffd}");
}

#[test]
fn truncated_three_byte_sequence_becomes_replacement() {
    let bytes: Vec<u8> = vec![0x41, 0xe2, 0x82];
    assert_eq!(read_modified_utf8(&bytes), "A\u{fffd}");
}

#[test]
fn truncated_surrogate_pair_decodes_leniently() {
    // Only five of the six bytes are present: the first half decodes as a
    // lone surrogate (replacement), and the leftover 0xED is an incomplete
    // sequence (another replacement).
    let bytes: Vec<u8> = vec![0xed, 0xa0, 0xbd, 0xed, 0xb8];
    assert_eq!(read_modified_utf8(&bytes), "\u{fffd}\u{fffd}");
}

#[test]
fn mixed_text_round_trip() {
    let bytes: Vec<u8> = vec![0x4a, 0xc3, 0xa9, 0xe2, 0x82, 0xac, 0x21];
    assert_eq!(read_modified_utf8(&bytes), "J\u{e9}\u{20ac}!");
}
