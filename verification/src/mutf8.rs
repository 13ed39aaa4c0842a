//! The modified multi-byte text decoding used by text constant-pool entries.
//!
//! The scheme is UTF-8-like with one extension: a supplementary-plane code
//! point is written as six bytes — two three-byte sequences, each introduced
//! by `0xED`, carrying the high and low halves. Malformed or incomplete
//! sequences are not fatal: each decodes to one replacement character
//! (U+FFFD) and decoding continues.

use vstd::prelude::*;

verus! {

/// The code point substituted for a malformed or incomplete sequence.
pub const REPLACEMENT: u32 = 0xFFFD;

/// The sequence of Unicode code points encoded by `b`, as mathematical
/// integers.
///
/// Branches, per leading byte `b0`:
/// * `b0 < 0x80` — one byte, the code point is `b0` itself.
/// * `0xC0 <= b0 < 0xE0` (bits `110xxxxx`) — two bytes, five plus six
///   payload bits.
/// * `0xE0 <= b0 < 0xF0` (bits `1110xxxx`) — three bytes, unless the bytes
///   open the six-byte surrogate-pair form (`0xED 0xA0..=0xAF _ 0xED _ _`),
///   which encodes one code point at or above 0x10000. A plain three-byte
///   code point in the surrogate range 0xD800..=0xDFFF is malformed.
/// * anything else — malformed; one replacement character, resume at the
///   next byte.
///
/// A sequence cut short by the end of the input yields one replacement
/// character for everything that remains.
///
/// Payload bits are extracted arithmetically: `x % 0x40` keeps the low six
/// bits of a continuation byte, and `* 0x40`, `* 0x400`, `* 0x1000`, and
/// `* 0x10000` place a group at its bit position.
pub open spec fn mutf8_points(b: Seq<u8>) -> Seq<int>
    decreases b.len(),
{
    if b.len() == 0 {
        Seq::empty()
    } else {
        let b0 = b[0] as int;
        if b0 < 0x80 {
            seq![b0] + mutf8_points(b.skip(1))
        } else if 0xC0 <= b0 && b0 < 0xE0 {
            if b.len() < 2 {
                seq![REPLACEMENT as int]
            } else {
                let b1 = b[1] as int;
                seq![(b0 % 0x20) * 0x40 + b1 % 0x40] + mutf8_points(b.skip(2))
            }
        } else if 0xE0 <= b0 && b0 < 0xF0 {
            if b.len() < 3 {
                seq![REPLACEMENT as int]
            } else {
                let b1 = b[1] as int;
                let b2 = b[2] as int;
                if b0 == 0xED && 0xA0 <= b1 && b1 < 0xB0 && b.len() >= 6 && b[3] == 0xED {
                    let b4 = b[4] as int;
                    let b5 = b[5] as int;
                    seq![0x10000 + (b1 % 0x10) * 0x10000 + (b2 % 0x40) * 0x400
                        + (b4 % 0x10) * 0x40 + b5 % 0x40] + mutf8_points(b.skip(6))
                } else {
                    let p = (b0 % 0x10) * 0x1000 + (b1 % 0x40) * 0x40 + b2 % 0x40;
                    if 0xD800 <= p && p <= 0xDFFF {
                        seq![REPLACEMENT as int] + mutf8_points(b.skip(3))
                    } else {
                        seq![p] + mutf8_points(b.skip(3))
                    }
                }
            }
        } else {
            seq![REPLACEMENT as int] + mutf8_points(b.skip(1))
        }
    }
}

/// The code points of a character sequence.
pub open spec fn char_points(s: Seq<char>) -> Seq<int> {
    s.map_values(|c: char| c as int)
}

/// Relies on `char::from_u32`: it returns `Some` exactly when the argument
/// is a Unicode scalar value (not a surrogate, not above 0x10FFFF), and the
/// returned character has the argument as its code point.
#[verifier::external_body]
fn char_from_u32(v: u32) -> (r: Option<char>)
    ensures
        r matches Some(c) ==> c as int == v as int,
        (r is Some) == (v < 0xD800 || (0xE000 <= v && v <= 0x10FFFF)),
{
    char::from_u32(v)
}

/// Relies on `String::push`: it appends exactly one character.
#[verifier::external_body]
fn push_char(s: &mut String, c: char)
    ensures
        final(s)@ == old(s)@.push(c),
{
    s.push(c);
}

/// The replacement character, U+FFFD.
fn replacement_char() -> (c: char)
    ensures
        c as int == REPLACEMENT as int,
{
    match char_from_u32(REPLACEMENT) {
        Some(c) => c,
        // `REPLACEMENT` is a valid scalar value, so this arm is unreachable.
        None => ' ',
    }
}

/// Decodes a byte run into text, substituting U+FFFD for malformed or
/// incomplete sequences; never fails.
pub fn read_modified_utf8(buf: &Vec<u8>) -> (s: String)
    ensures
        char_points(s@) == mutf8_points(buf@),
{
    let mut s = String::new();
    let mut i: usize = 0;
    proof {
        assert(char_points(s@) =~= Seq::<int>::empty());
        assert(buf@.skip(0) =~= buf@);
    }
    while i < buf.len()
        invariant
            i <= buf.len(),
            char_points(s@) + mutf8_points(buf@.skip(i as int)) == mutf8_points(buf@),
        decreases buf.len() - i,
    {
        let ghost prev = s@;
        let ghost rem = buf@.skip(i as int);
        let ghost mut hv: int = 0;
        let b0: u32 = buf[i] as u32;
        proof {
            assert(rem.len() == buf.len() - i);
            assert(rem[0] == buf@[i as int]);
        }
        let next: usize;
        let decoded: Option<char>;
        if b0 < 0x80 {
            decoded = char_from_u32(b0);
            next = i + 1;
            proof {
                hv = b0 as int;
                assert(mutf8_points(rem) == seq![hv] + mutf8_points(rem.skip(1)));
                assert(rem.skip(1) =~= buf@.skip(next as int));
            }
        } else if 0xC0 <= b0 && b0 < 0xE0 {
            if buf.len() - i < 2 {
                decoded = None;
                next = buf.len();
                proof {
                    hv = REPLACEMENT as int;
                    assert(mutf8_points(rem) == seq![hv]);
                    assert(buf@.skip(next as int) =~= Seq::<u8>::empty());
                    assert(seq![hv] =~= seq![hv] + mutf8_points(buf@.skip(next as int)));
                }
            } else {
                let b1: u32 = buf[i + 1] as u32;
                decoded = char_from_u32((b0 % 0x20) * 0x40 + b1 % 0x40);
                next = i + 2;
                proof {
                    assert(rem[1] == buf@[i + 1]);
                    hv = (b0 as int % 0x20) * 0x40 + b1 as int % 0x40;
                    assert(mutf8_points(rem) == seq![hv] + mutf8_points(rem.skip(2)));
                    assert(rem.skip(2) =~= buf@.skip(next as int));
                }
            }
        } else if 0xE0 <= b0 && b0 < 0xF0 {
            if buf.len() - i < 3 {
                decoded = None;
                next = buf.len();
                proof {
                    hv = REPLACEMENT as int;
                    assert(mutf8_points(rem) == seq![hv]);
                    assert(buf@.skip(next as int) =~= Seq::<u8>::empty());
                    assert(seq![hv] =~= seq![hv] + mutf8_points(buf@.skip(next as int)));
                }
            } else {
                let b1: u32 = buf[i + 1] as u32;
                let b2: u32 = buf[i + 2] as u32;
                proof {
                    assert(rem[1] == buf@[i + 1]);
                    assert(rem[2] == buf@[i + 2]);
                }
                if b0 == 0xED && 0xA0 <= b1 && b1 < 0xB0 && buf.len() - i >= 6
                    && buf[i + 3] == 0xED {
                    let b4: u32 = buf[i + 4] as u32;
                    let b5: u32 = buf[i + 5] as u32;
                    decoded = char_from_u32(
                        0x10000 + (b1 % 0x10) * 0x10000 + (b2 % 0x40) * 0x400
                            + (b4 % 0x10) * 0x40 + b5 % 0x40,
                    );
                    next = i + 6;
                    proof {
                        assert(rem[3] == buf@[i + 3]);
                        assert(rem[4] == buf@[i + 4]);
                        assert(rem[5] == buf@[i + 5]);
                        hv = 0x10000 + (b1 as int % 0x10) * 0x10000 + (b2 as int % 0x40) * 0x400
                            + (b4 as int % 0x10) * 0x40 + b5 as int % 0x40;
                        assert(mutf8_points(rem) == seq![hv] + mutf8_points(rem.skip(6)));
                        assert(rem.skip(6) =~= buf@.skip(next as int));
                    }
                } else {
                    let p: u32 = (b0 % 0x10) * 0x1000 + (b1 % 0x40) * 0x40 + b2 % 0x40;
                    if 0xD800 <= p && p <= 0xDFFF {
                        decoded = None;
                        proof {
                            hv = REPLACEMENT as int;
                        }
                    } else {
                        decoded = char_from_u32(p);
                        proof {
                            hv = p as int;
                        }
                    }
                    next = i + 3;
                    proof {
                        assert(mutf8_points(rem) == seq![hv] + mutf8_points(rem.skip(3)));
                        assert(rem.skip(3) =~= buf@.skip(next as int));
                    }
                }
            }
        } else {
            decoded = None;
            next = i + 1;
            proof {
                hv = REPLACEMENT as int;
                assert(mutf8_points(rem) == seq![hv] + mutf8_points(rem.skip(1)));
                assert(rem.skip(1) =~= buf@.skip(next as int));
            }
        }
        let c: char = match decoded {
            Some(c) => c,
            None => replacement_char(),
        };
        push_char(&mut s, c);
        proof {
            assert(c as int == hv);
            assert(char_points(prev.push(c)) =~= char_points(prev).push(c as int));
            assert(char_points(prev).push(c as int) =~= char_points(prev) + seq![hv]);
            assert((char_points(prev) + seq![hv]) + mutf8_points(buf@.skip(next as int))
                =~= char_points(prev) + (seq![hv] + mutf8_points(buf@.skip(next as int))));
            assert(char_points(s@) + mutf8_points(buf@.skip(next as int))
                == mutf8_points(buf@));
        }
        i = next;
    }
    proof {
        assert(buf@.skip(buf.len() as int) =~= Seq::<u8>::empty());
        assert(char_points(s@) =~= char_points(s@) + mutf8_points(Seq::<u8>::empty()));
    }
    s
}

} // verus!
