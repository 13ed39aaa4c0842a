//! The bytecode instruction decoder.
//!
//! `decode_code` turns the raw body of a `Code` attribute into an ordered
//! sequence of (byte-offset, instruction) pairs. The byte-level grammar is
//! given by `instr_at` (one instruction), `code_span` (a decoded range), and
//! `code_fails` (the error a range decodes to); `decode_code` is proved to
//! return exactly what the grammar says.

use vstd::prelude::*;

use crate::error::ParseError;
use crate::error::ParseResult;
use crate::model::ArrayType;
use crate::model::Instruction;
use crate::nums::be_u16;
use crate::nums::be_u32;
use crate::nums::spec_i8;
use crate::nums::spec_i16;
use crate::nums::spec_i32;
use crate::nums::u16_to_i16;
use crate::nums::u32_to_i32;
use crate::nums::u8_to_i8;

verus! {

/// The outcome of decoding one instruction: the (offset, instruction) pair
/// and the position after it, or the error.
pub type CodeStep = Result<((u32, Instruction), int), ParseError>;

/// The instruction encoded by a lone opcode byte, for opcodes without
/// operands.
pub open spec fn simple_instr(op: u8) -> Option<Instruction> {
    match op {
        0x00 => Some(Instruction::nop),
        0x01 => Some(Instruction::aconst_null),
        0x02 => Some(Instruction::iconst_m1),
        0x03 => Some(Instruction::iconst_0),
        0x04 => Some(Instruction::iconst_1),
        0x05 => Some(Instruction::iconst_2),
        0x06 => Some(Instruction::iconst_3),
        0x07 => Some(Instruction::iconst_4),
        0x08 => Some(Instruction::iconst_5),
        0x09 => Some(Instruction::lconst_0),
        0x0a => Some(Instruction::lconst_1),
        0x0b => Some(Instruction::fconst_0),
        0x0c => Some(Instruction::fconst_1),
        0x0d => Some(Instruction::fconst_2),
        0x0e => Some(Instruction::dconst_0),
        0x0f => Some(Instruction::dconst_1),
        0x1a => Some(Instruction::iload_0),
        0x1b => Some(Instruction::iload_1),
        0x1c => Some(Instruction::iload_2),
        0x1d => Some(Instruction::iload_3),
        0x1e => Some(Instruction::lload_0),
        0x1f => Some(Instruction::lload_1),
        0x20 => Some(Instruction::lload_2),
        0x21 => Some(Instruction::lload_3),
        0x22 => Some(Instruction::fload_0),
        0x23 => Some(Instruction::fload_1),
        0x24 => Some(Instruction::fload_2),
        0x25 => Some(Instruction::fload_3),
        0x26 => Some(Instruction::dload_0),
        0x27 => Some(Instruction::dload_1),
        0x28 => Some(Instruction::dload_2),
        0x29 => Some(Instruction::dload_3),
        0x2a => Some(Instruction::aload_0),
        0x2b => Some(Instruction::aload_1),
        0x2c => Some(Instruction::aload_2),
        0x2d => Some(Instruction::aload_3),
        0x2e => Some(Instruction::iaload),
        0x2f => Some(Instruction::laload),
        0x30 => Some(Instruction::faload),
        0x31 => Some(Instruction::daload),
        0x32 => Some(Instruction::aaload),
        0x33 => Some(Instruction::baload),
        0x34 => Some(Instruction::caload),
        0x35 => Some(Instruction::saload),
        0x3b => Some(Instruction::istore_0),
        0x3c => Some(Instruction::istore_1),
        0x3d => Some(Instruction::istore_2),
        0x3e => Some(Instruction::istore_3),
        0x3f => Some(Instruction::lstore_0),
        0x40 => Some(Instruction::lstore_1),
        0x41 => Some(Instruction::lstore_2),
        0x42 => Some(Instruction::lstore_3),
        0x43 => Some(Instruction::fstore_0),
        0x44 => Some(Instruction::fstore_1),
        0x45 => Some(Instruction::fstore_2),
        0x46 => Some(Instruction::fstore_3),
        0x47 => Some(Instruction::dstore_0),
        0x48 => Some(Instruction::dstore_1),
        0x49 => Some(Instruction::dstore_2),
        0x4a => Some(Instruction::dstore_3),
        0x4b => Some(Instruction::astore_0),
        0x4c => Some(Instruction::astore_1),
        0x4d => Some(Instruction::astore_2),
        0x4e => Some(Instruction::astore_3),
        0x4f => Some(Instruction::iastore),
        0x50 => Some(Instruction::lastore),
        0x51 => Some(Instruction::fastore),
        0x52 => Some(Instruction::dastore),
        0x53 => Some(Instruction::aastore),
        0x54 => Some(Instruction::bastore),
        0x55 => Some(Instruction::castore),
        0x56 => Some(Instruction::sastore),
        0x57 => Some(Instruction::pop),
        0x58 => Some(Instruction::pop2),
        0x59 => Some(Instruction::dup),
        0x5a => Some(Instruction::dup_x1),
        0x5b => Some(Instruction::dup_x2),
        0x5c => Some(Instruction::dup2),
        0x5d => Some(Instruction::dup2_x1),
        0x5e => Some(Instruction::dup2_x2),
        0x5f => Some(Instruction::swap),
        0x60 => Some(Instruction::iadd),
        0x61 => Some(Instruction::ladd),
        0x62 => Some(Instruction::fadd),
        0x63 => Some(Instruction::dadd),
        0x64 => Some(Instruction::isub),
        0x65 => Some(Instruction::lsub),
        0x66 => Some(Instruction::fsub),
        0x67 => Some(Instruction::dsub),
        0x68 => Some(Instruction::imul),
        0x69 => Some(Instruction::lmul),
        0x6a => Some(Instruction::fmul),
        0x6b => Some(Instruction::dmul),
        0x6c => Some(Instruction::idiv),
        0x6d => Some(Instruction::ldiv),
        0x6e => Some(Instruction::fdiv),
        0x6f => Some(Instruction::ddiv),
        0x70 => Some(Instruction::irem),
        0x71 => Some(Instruction::lrem),
        0x72 => Some(Instruction::frem),
        0x73 => Some(Instruction::drem),
        0x74 => Some(Instruction::ineg),
        0x75 => Some(Instruction::lneg),
        0x76 => Some(Instruction::fneg),
        0x77 => Some(Instruction::dneg),
        0x78 => Some(Instruction::ishl),
        0x79 => Some(Instruction::lshl),
        0x7a => Some(Instruction::ishr),
        0x7b => Some(Instruction::lshr),
        0x7c => Some(Instruction::iushr),
        0x7d => Some(Instruction::lushr),
        0x7e => Some(Instruction::iand),
        0x7f => Some(Instruction::land),
        0x80 => Some(Instruction::ior),
        0x81 => Some(Instruction::lor),
        0x82 => Some(Instruction::ixor),
        0x83 => Some(Instruction::lxor),
        0x85 => Some(Instruction::i2l),
        0x86 => Some(Instruction::i2f),
        0x87 => Some(Instruction::i2d),
        0x88 => Some(Instruction::l2i),
        0x89 => Some(Instruction::l2f),
        0x8a => Some(Instruction::l2d),
        0x8b => Some(Instruction::f2i),
        0x8c => Some(Instruction::f2l),
        0x8d => Some(Instruction::f2d),
        0x8e => Some(Instruction::d2i),
        0x8f => Some(Instruction::d2l),
        0x90 => Some(Instruction::d2f),
        0x91 => Some(Instruction::i2b),
        0x92 => Some(Instruction::i2c),
        0x93 => Some(Instruction::i2s),
        0x94 => Some(Instruction::lcmp),
        0x95 => Some(Instruction::fcmpl),
        0x96 => Some(Instruction::fcmpg),
        0x97 => Some(Instruction::dcmpl),
        0x98 => Some(Instruction::dcmpg),
        0xac => Some(Instruction::ireturn),
        0xad => Some(Instruction::lreturn),
        0xae => Some(Instruction::freturn),
        0xaf => Some(Instruction::dreturn),
        0xb0 => Some(Instruction::areturn),
        0xb1 => Some(Instruction::return_),
        0xbe => Some(Instruction::arraylength),
        0xbf => Some(Instruction::athrow),
        0xc2 => Some(Instruction::monitorenter),
        0xc3 => Some(Instruction::monitorexit),
        _ => None,    }
}

/// The instruction encoded by an opcode with one 8-bit index operand.
pub open spec fn u8_instr(op: u8, v: u8) -> Option<Instruction> {
    match op {
        0x12 => Some(Instruction::ldc(v)),
        0x15 => Some(Instruction::iload(v)),
        0x16 => Some(Instruction::lload(v)),
        0x17 => Some(Instruction::fload(v)),
        0x18 => Some(Instruction::dload(v)),
        0x19 => Some(Instruction::aload(v)),
        0x36 => Some(Instruction::istore(v)),
        0x37 => Some(Instruction::lstore(v)),
        0x38 => Some(Instruction::fstore(v)),
        0x39 => Some(Instruction::dstore(v)),
        0x3a => Some(Instruction::astore(v)),
        0xa9 => Some(Instruction::ret(v)),
        _ => None,    }
}

/// The instruction encoded by an opcode with one 16-bit index operand.
pub open spec fn u16_instr(op: u8, v: u16) -> Option<Instruction> {
    match op {
        0x13 => Some(Instruction::ldc_w(v)),
        0x14 => Some(Instruction::ldc2_w(v)),
        0xb2 => Some(Instruction::getstatic(v)),
        0xb3 => Some(Instruction::putstatic(v)),
        0xb4 => Some(Instruction::getfield(v)),
        0xb5 => Some(Instruction::putfield(v)),
        0xb6 => Some(Instruction::invokevirtual(v)),
        0xb7 => Some(Instruction::invokespecial(v)),
        0xb8 => Some(Instruction::invokestatic(v)),
        0xba => Some(Instruction::invokedynamic(v)),
        0xbb => Some(Instruction::new(v)),
        0xbd => Some(Instruction::anewarray(v)),
        0xc0 => Some(Instruction::checkcast(v)),
        0xc1 => Some(Instruction::instanceof(v)),
        _ => None,    }
}

/// The instruction encoded by an opcode with one signed 16-bit operand
/// (a branch offset, or the `sipush` constant).
pub open spec fn i16_instr(op: u8, v: i16) -> Option<Instruction> {
    match op {
        0x11 => Some(Instruction::sipush(v)),
        0x99 => Some(Instruction::ifeq(v)),
        0x9a => Some(Instruction::ifne(v)),
        0x9b => Some(Instruction::iflt(v)),
        0x9c => Some(Instruction::ifge(v)),
        0x9d => Some(Instruction::ifgt(v)),
        0x9e => Some(Instruction::ifle(v)),
        0x9f => Some(Instruction::if_icmpeq(v)),
        0xa0 => Some(Instruction::if_icmpne(v)),
        0xa1 => Some(Instruction::if_icmplt(v)),
        0xa2 => Some(Instruction::if_icmpge(v)),
        0xa3 => Some(Instruction::if_icmpgt(v)),
        0xa4 => Some(Instruction::if_icmple(v)),
        0xa5 => Some(Instruction::if_acmpeq(v)),
        0xa6 => Some(Instruction::if_acmpne(v)),
        0xa7 => Some(Instruction::goto(v)),
        0xa8 => Some(Instruction::jsr(v)),
        0xc6 => Some(Instruction::ifnull(v)),
        0xc7 => Some(Instruction::ifnonnull(v)),
        _ => None,    }
}

/// The `wide`-prefixed instruction selected by a sub-opcode, for the
/// sub-opcodes that take only a widened 16-bit index.
pub open spec fn wide_instr(sub: u8, v: u16) -> Option<Instruction> {
    match sub {
        0x15 => Some(Instruction::iload_w(v)),
        0x16 => Some(Instruction::lload_w(v)),
        0x17 => Some(Instruction::fload_w(v)),
        0x18 => Some(Instruction::dload_w(v)),
        0x19 => Some(Instruction::aload_w(v)),
        0x36 => Some(Instruction::istore_w(v)),
        0x37 => Some(Instruction::lstore_w(v)),
        0x38 => Some(Instruction::fstore_w(v)),
        0x39 => Some(Instruction::dstore_w(v)),
        0x3a => Some(Instruction::astore_w(v)),
        0xa9 => Some(Instruction::ret_w(v)),
        _ => None,    }
}

/// The primitive element kind named by a `newarray` type tag.
pub open spec fn array_type(tag: u8) -> Option<ArrayType> {
    match tag {
        4 => Some(ArrayType::Boolean),
        5 => Some(ArrayType::Char),
        6 => Some(ArrayType::Float),
        7 => Some(ArrayType::Double),
        8 => Some(ArrayType::Byte),
        9 => Some(ArrayType::Short),
        10 => Some(ArrayType::Int),
        11 => Some(ArrayType::Long),
        _ => None,
    }
}

/// The number of filler bytes after a `tableswitch`/`lookupswitch` opcode at
/// offset `pos`, so that the following 32-bit fields are 4-byte aligned
/// relative to the start of the code array.
pub open spec fn switch_pad(pos: int) -> int {
    (4 - ((pos + 1) % 4)) % 4
}

/// The padding places the field after it at the first 4-byte-aligned
/// position after the opcode, and is at most 3 bytes.
pub proof fn lemma_switch_alignment(pos: int)
    requires
        pos >= 0,
    ensures
        0 <= switch_pad(pos) <= 3,
        (pos + 1 + switch_pad(pos)) % 4 == 0,
        forall|q: int| pos < q < pos + 1 + switch_pad(pos) ==> #[trigger] (q % 4) != 0,
{
    let r = (pos + 1) % 4;
    assert(0 <= r < 4);
    assert(pos + 1 == 4 * ((pos + 1) / 4) + r);
    assert forall|q: int| pos < q < pos + 1 + switch_pad(pos) implies #[trigger] (q % 4) != 0 by {
        let k = (pos + 1) / 4;
        if r != 0 {
            assert(q - 4 * k < 4);
            assert(q - 4 * k >= 1);
            assert(q % 4 == q - 4 * k) by {
                assert(q == 4 * k + (q - 4 * k));
            }
        }
    }
}

/// How one instruction at `pos` decodes: `out` is the (offset, instruction)
/// pair together with the position after it, or the error. Only meaningful
/// for `pos < b.len()`.
pub open spec fn instr_at(b: Seq<u8>, pos: int, out: CodeStep) -> bool {
    let op = b[pos];
    if simple_instr(op) is Some {
        out == Ok::<_, ParseError>(((pos as u32, simple_instr(op)->Some_0), pos + 1))
    } else if u8_instr(op, 0) is Some {
        if pos + 2 > b.len() {
            out == Err::<((u32, Instruction), int), _>(ParseError::Io)
        } else {
            out == Ok::<_, ParseError>(((pos as u32, u8_instr(op, b[pos + 1])->Some_0), pos + 2))
        }
    } else if op == 0x10 {
        if pos + 2 > b.len() {
            out == Err::<((u32, Instruction), int), _>(ParseError::Io)
        } else {
            out == Ok::<_, ParseError>(((pos as u32, Instruction::bipush(spec_i8(b[pos + 1]))),
                pos + 2))
        }
    } else if u16_instr(op, 0) is Some {
        if pos + 3 > b.len() {
            out == Err::<((u32, Instruction), int), _>(ParseError::Io)
        } else {
            out == Ok::<_, ParseError>(((pos as u32, u16_instr(op, be_u16(b, pos + 1) as u16)->Some_0),
                pos + 3))
        }
    } else if i16_instr(op, 0) is Some {
        if pos + 3 > b.len() {
            out == Err::<((u32, Instruction), int), _>(ParseError::Io)
        } else {
            out == Ok::<_, ParseError>(((pos as u32,
                i16_instr(op, spec_i16(be_u16(b, pos + 1) as u16))->Some_0), pos + 3))
        }
    } else if op == 0xc8 || op == 0xc9 {
        if pos + 5 > b.len() {
            out == Err::<((u32, Instruction), int), _>(ParseError::Io)
        } else {
            let v = spec_i32(be_u32(b, pos + 1) as u32);
            let ins = if op == 0xc8 { Instruction::goto_w(v) } else { Instruction::jsr_w(v) };
            out == Ok::<_, ParseError>(((pos as u32, ins), pos + 5))
        }
    } else if op == 0x84 {
        if pos + 3 > b.len() {
            out == Err::<((u32, Instruction), int), _>(ParseError::Io)
        } else {
            out == Ok::<_, ParseError>(((pos as u32,
                Instruction::iinc(b[pos + 1], spec_i8(b[pos + 2]))), pos + 3))
        }
    } else if op == 0xb9 {
        if pos + 4 > b.len() {
            out == Err::<((u32, Instruction), int), _>(ParseError::Io)
        } else {
            out == Ok::<_, ParseError>(((pos as u32,
                Instruction::invokeinterface(be_u16(b, pos + 1) as u16, b[pos + 3])), pos + 4))
        }
    } else if op == 0xc5 {
        if pos + 4 > b.len() {
            out == Err::<((u32, Instruction), int), _>(ParseError::Io)
        } else {
            out == Ok::<_, ParseError>(((pos as u32,
                Instruction::multianewarray(be_u16(b, pos + 1) as u16, b[pos + 3])), pos + 4))
        }
    } else if op == 0xbc {
        if pos + 2 > b.len() {
            out == Err::<((u32, Instruction), int), _>(ParseError::Io)
        } else {
            match array_type(b[pos + 1]) {
                Some(at) => out == Ok::<_, ParseError>(((pos as u32, Instruction::newarray(at)),
                    pos + 2)),
                None => out == Err::<((u32, Instruction), int), _>(
                    ParseError::UnknownArrayType(b[pos + 1], pos as u32)),
            }
        }
    } else if op == 0xc4 {
        if pos + 4 > b.len() {
            out == Err::<((u32, Instruction), int), _>(ParseError::Io)
        } else {
            let sub = b[pos + 1];
            if sub == 0x84 {
                if pos + 6 > b.len() {
                    out == Err::<((u32, Instruction), int), _>(ParseError::Io)
                } else {
                    out == Ok::<_, ParseError>(((pos as u32,
                        Instruction::iinc_w(be_u16(b, pos + 2) as u16,
                            spec_i16(be_u16(b, pos + 4) as u16))), pos + 6))
                }
            } else {
                match wide_instr(sub, be_u16(b, pos + 2) as u16) {
                    Some(ins) => out == Ok::<_, ParseError>(((pos as u32, ins), pos + 4)),
                    None => out == Err::<((u32, Instruction), int), _>(
                        ParseError::UnknownWideOpcode(sub, pos as u32)),
                }
            }
        }
    } else if op == 0xaa {
        let q = pos + 1 + switch_pad(pos);
        if q + 12 > b.len() {
            out == Err::<((u32, Instruction), int), _>(ParseError::Io)
        } else {
            let dflt = spec_i32(be_u32(b, q) as u32);
            let low = spec_i32(be_u32(b, q + 4) as u32);
            let high = spec_i32(be_u32(b, q + 8) as u32);
            let n: int = if high >= low { high - low + 1 } else { 0 };
            if q + 12 + 4 * n > b.len() {
                out == Err::<((u32, Instruction), int), _>(ParseError::Io)
            } else {
                &&& out matches Ok(((off, ins), end))
                &&& off == pos as u32
                &&& end == q + 12 + 4 * n
                &&& ins matches Instruction::tableswitch(d, l, offs)
                &&& d == dflt
                &&& l == low
                &&& offs@.len() == n
                &&& forall|k: int| 0 <= k < n ==>
                    #[trigger] offs@[k] == spec_i32(be_u32(b, q + 12 + 4 * k) as u32)
            }
        }
    } else if op == 0xab {
        let q = pos + 1 + switch_pad(pos);
        if q + 8 > b.len() {
            out == Err::<((u32, Instruction), int), _>(ParseError::Io)
        } else {
            let dflt = spec_i32(be_u32(b, q) as u32);
            let npairs = spec_i32(be_u32(b, q + 4) as u32);
            let n: int = if npairs >= 0 { npairs as int } else { 0 };
            if q + 8 + 8 * n > b.len() {
                out == Err::<((u32, Instruction), int), _>(ParseError::Io)
            } else {
                &&& out matches Ok(((off, ins), end))
                &&& off == pos as u32
                &&& end == q + 8 + 8 * n
                &&& ins matches Instruction::lookupswitch(d, pairs)
                &&& d == dflt
                &&& pairs@.len() == n
                &&& forall|k: int| 0 <= k < n ==>
                    #[trigger] pairs@[k] == (spec_i32(be_u32(b, q + 8 + 8 * k) as u32),
                        spec_i32(be_u32(b, q + 8 + 8 * k + 4) as u32))
            }
        }
    } else {
        out == Err::<((u32, Instruction), int), _>(ParseError::UnknownOpcode(op, pos as u32))
    }
}

/// The byte range `lo..hi` of `b` decodes exactly to the instruction
/// sequence `s`, each element carrying its offset.
pub open spec fn code_span(b: Seq<u8>, lo: int, hi: int, s: Seq<(u32, Instruction)>) -> bool
    decreases s.len(),
{
    if s.len() == 0 {
        lo == hi
    } else {
        exists|mid: int|
            lo < mid <= hi && #[trigger] instr_at(b, lo, Ok((s[0], mid)))
                && code_span(b, mid, hi, s.drop_first())
    }
}

/// Decoding from `pos` to the end of `b` fails with exactly the error `e`:
/// some prefix of instructions decodes, and then one fails with `e`.
pub open spec fn code_fails(b: Seq<u8>, pos: int, e: ParseError) -> bool
    decreases b.len() - pos,
{
    pos < b.len() && (instr_at(b, pos, Err(e)) || exists|p: (u32, Instruction), mid: int|
        pos < mid <= b.len() && #[trigger] instr_at(b, pos, Ok((p, mid)))
            && code_fails(b, mid, e))
}

/// Appending one decoded instruction extends a decoded span.
proof fn lemma_code_span_snoc(
    b: Seq<u8>,
    lo: int,
    mid: int,
    s: Seq<(u32, Instruction)>,
    p: (u32, Instruction),
    end: int,
)
    requires
        code_span(b, lo, mid, s),
        instr_at(b, mid, Ok((p, end))),
        mid < end <= b.len(),
        lo <= mid,
    ensures
        code_span(b, lo, end, s.push(p)),
    decreases s.len(),
{
    if s.len() == 0 {
        assert(lo == mid);
        assert(s.push(p)[0] == p);
        assert(s.push(p).drop_first() =~= Seq::<(u32, Instruction)>::empty());
        assert(code_span(b, end, end, s.push(p).drop_first()));
        assert(lo < end <= end && instr_at(b, lo, Ok((s.push(p)[0], end))));
    } else {
        let m = choose|m: int|
            lo < m <= mid && #[trigger] instr_at(b, lo, Ok((s[0], m)))
                && code_span(b, m, mid, s.drop_first());
        lemma_code_span_snoc(b, m, mid, s.drop_first(), p, end);
        assert(s.push(p)[0] == s[0]);
        assert(s.push(p).drop_first() =~= s.drop_first().push(p));
        assert(lo < m <= end && instr_at(b, lo, Ok((s.push(p)[0], m)))
            && code_span(b, m, end, s.push(p).drop_first()));
    }
}

/// A decoded span followed by a failure is a failure of the whole range.
proof fn lemma_code_span_then_fails(
    b: Seq<u8>,
    lo: int,
    mid: int,
    s: Seq<(u32, Instruction)>,
    e: ParseError,
)
    requires
        code_span(b, lo, mid, s),
        code_fails(b, mid, e),
        lo <= mid,
    ensures
        code_fails(b, lo, e),
    decreases s.len(),
{
    if s.len() == 0 {
        assert(lo == mid);
    } else {
        let m = choose|m: int|
            lo < m <= mid && #[trigger] instr_at(b, lo, Ok((s[0], m)))
                && code_span(b, m, mid, s.drop_first());
        lemma_code_span_then_fails(b, m, mid, s.drop_first(), e);
        assert(lo < m <= b.len() && instr_at(b, lo, Ok((s[0], m))) && code_fails(b, m, e));
    }
}

/// Reads the byte at `*i` and advances by one.
pub fn read_u8(bytes: &Vec<u8>, i: &mut usize) -> (r: u8)
    requires
        *old(i) + 1 <= bytes.len(),
    ensures
        *final(i) == *old(i) + 1,
        r == bytes@[*old(i) as int],
{
    let v = bytes[*i];
    *i = *i + 1;
    v
}

/// Reads the big-endian 16-bit value at `*i` and advances by two.
pub fn read_u16(bytes: &Vec<u8>, i: &mut usize) -> (r: u16)
    requires
        *old(i) + 2 <= bytes.len(),
    ensures
        *final(i) == *old(i) + 2,
        r as int == be_u16(bytes@, *old(i) as int),
{
    let v = (bytes[*i] as u16) * 0x100 + (bytes[*i + 1] as u16);
    *i = *i + 2;
    v
}

/// Reads the big-endian 32-bit value at `*i` and advances by four.
pub fn read_u32(bytes: &Vec<u8>, i: &mut usize) -> (r: u32)
    requires
        *old(i) + 4 <= bytes.len(),
    ensures
        *final(i) == *old(i) + 4,
        r as int == be_u32(bytes@, *old(i) as int),
{
    let v = (bytes[*i] as u32) * 0x1000000 + (bytes[*i + 1] as u32) * 0x10000
        + (bytes[*i + 2] as u32) * 0x100 + (bytes[*i + 3] as u32);
    *i = *i + 4;
    v
}

/// Decodes the one instruction at `i`, returning the (offset, instruction)
/// pair and the position after it.
fn decode_one(bytes: &Vec<u8>, i: usize) -> (r: ParseResult<((u32, Instruction), usize)>)
    requires
        bytes@.len() <= 0xFFFFFFFF,
        i < bytes@.len(),
    ensures
        match r {
            Ok((p, next)) => i < next <= bytes@.len() && instr_at(bytes@, i as int,
                Ok((p, next as int))),
            Err(e) => instr_at(bytes@, i as int, Err(e)),
        },
{
    let j: u32 = i as u32;
    let opcode = bytes[i];
    match opcode {
        0x00 => Ok(((j, Instruction::nop), i + 1)),
        0x01 => Ok(((j, Instruction::aconst_null), i + 1)),
        0x02 => Ok(((j, Instruction::iconst_m1), i + 1)),
        0x03 => Ok(((j, Instruction::iconst_0), i + 1)),
        0x04 => Ok(((j, Instruction::iconst_1), i + 1)),
        0x05 => Ok(((j, Instruction::iconst_2), i + 1)),
        0x06 => Ok(((j, Instruction::iconst_3), i + 1)),
        0x07 => Ok(((j, Instruction::iconst_4), i + 1)),
        0x08 => Ok(((j, Instruction::iconst_5), i + 1)),
        0x09 => Ok(((j, Instruction::lconst_0), i + 1)),
        0x0a => Ok(((j, Instruction::lconst_1), i + 1)),
        0x0b => Ok(((j, Instruction::fconst_0), i + 1)),
        0x0c => Ok(((j, Instruction::fconst_1), i + 1)),
        0x0d => Ok(((j, Instruction::fconst_2), i + 1)),
        0x0e => Ok(((j, Instruction::dconst_0), i + 1)),
        0x0f => Ok(((j, Instruction::dconst_1), i + 1)),
        0x1a => Ok(((j, Instruction::iload_0), i + 1)),
        0x1b => Ok(((j, Instruction::iload_1), i + 1)),
        0x1c => Ok(((j, Instruction::iload_2), i + 1)),
        0x1d => Ok(((j, Instruction::iload_3), i + 1)),
        0x1e => Ok(((j, Instruction::lload_0), i + 1)),
        0x1f => Ok(((j, Instruction::lload_1), i + 1)),
        0x20 => Ok(((j, Instruction::lload_2), i + 1)),
        0x21 => Ok(((j, Instruction::lload_3), i + 1)),
        0x22 => Ok(((j, Instruction::fload_0), i + 1)),
        0x23 => Ok(((j, Instruction::fload_1), i + 1)),
        0x24 => Ok(((j, Instruction::fload_2), i + 1)),
        0x25 => Ok(((j, Instruction::fload_3), i + 1)),
        0x26 => Ok(((j, Instruction::dload_0), i + 1)),
        0x27 => Ok(((j, Instruction::dload_1), i + 1)),
        0x28 => Ok(((j, Instruction::dload_2), i + 1)),
        0x29 => Ok(((j, Instruction::dload_3), i + 1)),
        0x2a => Ok(((j, Instruction::aload_0), i + 1)),
        0x2b => Ok(((j, Instruction::aload_1), i + 1)),
        0x2c => Ok(((j, Instruction::aload_2), i + 1)),
        0x2d => Ok(((j, Instruction::aload_3), i + 1)),
        0x2e => Ok(((j, Instruction::iaload), i + 1)),
        0x2f => Ok(((j, Instruction::laload), i + 1)),
        0x30 => Ok(((j, Instruction::faload), i + 1)),
        0x31 => Ok(((j, Instruction::daload), i + 1)),
        0x32 => Ok(((j, Instruction::aaload), i + 1)),
        0x33 => Ok(((j, Instruction::baload), i + 1)),
        0x34 => Ok(((j, Instruction::caload), i + 1)),
        0x35 => Ok(((j, Instruction::saload), i + 1)),
        0x3b => Ok(((j, Instruction::istore_0), i + 1)),
        0x3c => Ok(((j, Instruction::istore_1), i + 1)),
        0x3d => Ok(((j, Instruction::istore_2), i + 1)),
        0x3e => Ok(((j, Instruction::istore_3), i + 1)),
        0x3f => Ok(((j, Instruction::lstore_0), i + 1)),
        0x40 => Ok(((j, Instruction::lstore_1), i + 1)),
        0x41 => Ok(((j, Instruction::lstore_2), i + 1)),
        0x42 => Ok(((j, Instruction::lstore_3), i + 1)),
        0x43 => Ok(((j, Instruction::fstore_0), i + 1)),
        0x44 => Ok(((j, Instruction::fstore_1), i + 1)),
        0x45 => Ok(((j, Instruction::fstore_2), i + 1)),
        0x46 => Ok(((j, Instruction::fstore_3), i + 1)),
        0x47 => Ok(((j, Instruction::dstore_0), i + 1)),
        0x48 => Ok(((j, Instruction::dstore_1), i + 1)),
        0x49 => Ok(((j, Instruction::dstore_2), i + 1)),
        0x4a => Ok(((j, Instruction::dstore_3), i + 1)),
        0x4b => Ok(((j, Instruction::astore_0), i + 1)),
        0x4c => Ok(((j, Instruction::astore_1), i + 1)),
        0x4d => Ok(((j, Instruction::astore_2), i + 1)),
        0x4e => Ok(((j, Instruction::astore_3), i + 1)),
        0x4f => Ok(((j, Instruction::iastore), i + 1)),
        0x50 => Ok(((j, Instruction::lastore), i + 1)),
        0x51 => Ok(((j, Instruction::fastore), i + 1)),
        0x52 => Ok(((j, Instruction::dastore), i + 1)),
        0x53 => Ok(((j, Instruction::aastore), i + 1)),
        0x54 => Ok(((j, Instruction::bastore), i + 1)),
        0x55 => Ok(((j, Instruction::castore), i + 1)),
        0x56 => Ok(((j, Instruction::sastore), i + 1)),
        0x57 => Ok(((j, Instruction::pop), i + 1)),
        0x58 => Ok(((j, Instruction::pop2), i + 1)),
        0x59 => Ok(((j, Instruction::dup), i + 1)),
        0x5a => Ok(((j, Instruction::dup_x1), i + 1)),
        0x5b => Ok(((j, Instruction::dup_x2), i + 1)),
        0x5c => Ok(((j, Instruction::dup2), i + 1)),
        0x5d => Ok(((j, Instruction::dup2_x1), i + 1)),
        0x5e => Ok(((j, Instruction::dup2_x2), i + 1)),
        0x5f => Ok(((j, Instruction::swap), i + 1)),
        0x60 => Ok(((j, Instruction::iadd), i + 1)),
        0x61 => Ok(((j, Instruction::ladd), i + 1)),
        0x62 => Ok(((j, Instruction::fadd), i + 1)),
        0x63 => Ok(((j, Instruction::dadd), i + 1)),
        0x64 => Ok(((j, Instruction::isub), i + 1)),
        0x65 => Ok(((j, Instruction::lsub), i + 1)),
        0x66 => Ok(((j, Instruction::fsub), i + 1)),
        0x67 => Ok(((j, Instruction::dsub), i + 1)),
        0x68 => Ok(((j, Instruction::imul), i + 1)),
        0x69 => Ok(((j, Instruction::lmul), i + 1)),
        0x6a => Ok(((j, Instruction::fmul), i + 1)),
        0x6b => Ok(((j, Instruction::dmul), i + 1)),
        0x6c => Ok(((j, Instruction::idiv), i + 1)),
        0x6d => Ok(((j, Instruction::ldiv), i + 1)),
        0x6e => Ok(((j, Instruction::fdiv), i + 1)),
        0x6f => Ok(((j, Instruction::ddiv), i + 1)),
        0x70 => Ok(((j, Instruction::irem), i + 1)),
        0x71 => Ok(((j, Instruction::lrem), i + 1)),
        0x72 => Ok(((j, Instruction::frem), i + 1)),
        0x73 => Ok(((j, Instruction::drem), i + 1)),
        0x74 => Ok(((j, Instruction::ineg), i + 1)),
        0x75 => Ok(((j, Instruction::lneg), i + 1)),
        0x76 => Ok(((j, Instruction::fneg), i + 1)),
        0x77 => Ok(((j, Instruction::dneg), i + 1)),
        0x78 => Ok(((j, Instruction::ishl), i + 1)),
        0x79 => Ok(((j, Instruction::lshl), i + 1)),
        0x7a => Ok(((j, Instruction::ishr), i + 1)),
        0x7b => Ok(((j, Instruction::lshr), i + 1)),
        0x7c => Ok(((j, Instruction::iushr), i + 1)),
        0x7d => Ok(((j, Instruction::lushr), i + 1)),
        0x7e => Ok(((j, Instruction::iand), i + 1)),
        0x7f => Ok(((j, Instruction::land), i + 1)),
        0x80 => Ok(((j, Instruction::ior), i + 1)),
        0x81 => Ok(((j, Instruction::lor), i + 1)),
        0x82 => Ok(((j, Instruction::ixor), i + 1)),
        0x83 => Ok(((j, Instruction::lxor), i + 1)),
        0x85 => Ok(((j, Instruction::i2l), i + 1)),
        0x86 => Ok(((j, Instruction::i2f), i + 1)),
        0x87 => Ok(((j, Instruction::i2d), i + 1)),
        0x88 => Ok(((j, Instruction::l2i), i + 1)),
        0x89 => Ok(((j, Instruction::l2f), i + 1)),
        0x8a => Ok(((j, Instruction::l2d), i + 1)),
        0x8b => Ok(((j, Instruction::f2i), i + 1)),
        0x8c => Ok(((j, Instruction::f2l), i + 1)),
        0x8d => Ok(((j, Instruction::f2d), i + 1)),
        0x8e => Ok(((j, Instruction::d2i), i + 1)),
        0x8f => Ok(((j, Instruction::d2l), i + 1)),
        0x90 => Ok(((j, Instruction::d2f), i + 1)),
        0x91 => Ok(((j, Instruction::i2b), i + 1)),
        0x92 => Ok(((j, Instruction::i2c), i + 1)),
        0x93 => Ok(((j, Instruction::i2s), i + 1)),
        0x94 => Ok(((j, Instruction::lcmp), i + 1)),
        0x95 => Ok(((j, Instruction::fcmpl), i + 1)),
        0x96 => Ok(((j, Instruction::fcmpg), i + 1)),
        0x97 => Ok(((j, Instruction::dcmpl), i + 1)),
        0x98 => Ok(((j, Instruction::dcmpg), i + 1)),
        0xac => Ok(((j, Instruction::ireturn), i + 1)),
        0xad => Ok(((j, Instruction::lreturn), i + 1)),
        0xae => Ok(((j, Instruction::freturn), i + 1)),
        0xaf => Ok(((j, Instruction::dreturn), i + 1)),
        0xb0 => Ok(((j, Instruction::areturn), i + 1)),
        0xb1 => Ok(((j, Instruction::return_), i + 1)),
        0xbe => Ok(((j, Instruction::arraylength), i + 1)),
        0xbf => Ok(((j, Instruction::athrow), i + 1)),
        0xc2 => Ok(((j, Instruction::monitorenter), i + 1)),
        0xc3 => Ok(((j, Instruction::monitorexit), i + 1)),
        0x12 => {
            if bytes.len() - i < 2 {
                return Err(ParseError::Io);
            }
            let v = bytes[i + 1];
            Ok(((j, Instruction::ldc(v)), i + 2))
        },
        0x15 => {
            if bytes.len() - i < 2 {
                return Err(ParseError::Io);
            }
            let v = bytes[i + 1];
            Ok(((j, Instruction::iload(v)), i + 2))
        },
        0x16 => {
            if bytes.len() - i < 2 {
                return Err(ParseError::Io);
            }
            let v = bytes[i + 1];
            Ok(((j, Instruction::lload(v)), i + 2))
        },
        0x17 => {
            if bytes.len() - i < 2 {
                return Err(ParseError::Io);
            }
            let v = bytes[i + 1];
            Ok(((j, Instruction::fload(v)), i + 2))
        },
        0x18 => {
            if bytes.len() - i < 2 {
                return Err(ParseError::Io);
            }
            let v = bytes[i + 1];
            Ok(((j, Instruction::dload(v)), i + 2))
        },
        0x19 => {
            if bytes.len() - i < 2 {
                return Err(ParseError::Io);
            }
            let v = bytes[i + 1];
            Ok(((j, Instruction::aload(v)), i + 2))
        },
        0x36 => {
            if bytes.len() - i < 2 {
                return Err(ParseError::Io);
            }
            let v = bytes[i + 1];
            Ok(((j, Instruction::istore(v)), i + 2))
        },
        0x37 => {
            if bytes.len() - i < 2 {
                return Err(ParseError::Io);
            }
            let v = bytes[i + 1];
            Ok(((j, Instruction::lstore(v)), i + 2))
        },
        0x38 => {
            if bytes.len() - i < 2 {
                return Err(ParseError::Io);
            }
            let v = bytes[i + 1];
            Ok(((j, Instruction::fstore(v)), i + 2))
        },
        0x39 => {
            if bytes.len() - i < 2 {
                return Err(ParseError::Io);
            }
            let v = bytes[i + 1];
            Ok(((j, Instruction::dstore(v)), i + 2))
        },
        0x3a => {
            if bytes.len() - i < 2 {
                return Err(ParseError::Io);
            }
            let v = bytes[i + 1];
            Ok(((j, Instruction::astore(v)), i + 2))
        },
        0xa9 => {
            if bytes.len() - i < 2 {
                return Err(ParseError::Io);
            }
            let v = bytes[i + 1];
            Ok(((j, Instruction::ret(v)), i + 2))
        },
        0x10 => {
            if bytes.len() - i < 2 {
                return Err(ParseError::Io);
            }
            let v = u8_to_i8(bytes[i + 1]);
            Ok(((j, Instruction::bipush(v)), i + 2))
        },
        0x13 => {
            if bytes.len() - i < 3 {
                return Err(ParseError::Io);
            }
            let mut p = i + 1;
            let v = read_u16(bytes, &mut p);
            Ok(((j, Instruction::ldc_w(v)), i + 3))
        },
        0x14 => {
            if bytes.len() - i < 3 {
                return Err(ParseError::Io);
            }
            let mut p = i + 1;
            let v = read_u16(bytes, &mut p);
            Ok(((j, Instruction::ldc2_w(v)), i + 3))
        },
        0xb2 => {
            if bytes.len() - i < 3 {
                return Err(ParseError::Io);
            }
            let mut p = i + 1;
            let v = read_u16(bytes, &mut p);
            Ok(((j, Instruction::getstatic(v)), i + 3))
        },
        0xb3 => {
            if bytes.len() - i < 3 {
                return Err(ParseError::Io);
            }
            let mut p = i + 1;
            let v = read_u16(bytes, &mut p);
            Ok(((j, Instruction::putstatic(v)), i + 3))
        },
        0xb4 => {
            if bytes.len() - i < 3 {
                return Err(ParseError::Io);
            }
            let mut p = i + 1;
            let v = read_u16(bytes, &mut p);
            Ok(((j, Instruction::getfield(v)), i + 3))
        },
        0xb5 => {
            if bytes.len() - i < 3 {
                return Err(ParseError::Io);
            }
            let mut p = i + 1;
            let v = read_u16(bytes, &mut p);
            Ok(((j, Instruction::putfield(v)), i + 3))
        },
        0xb6 => {
            if bytes.len() - i < 3 {
                return Err(ParseError::Io);
            }
            let mut p = i + 1;
            let v = read_u16(bytes, &mut p);
            Ok(((j, Instruction::invokevirtual(v)), i + 3))
        },
        0xb7 => {
            if bytes.len() - i < 3 {
                return Err(ParseError::Io);
            }
            let mut p = i + 1;
            let v = read_u16(bytes, &mut p);
            Ok(((j, Instruction::invokespecial(v)), i + 3))
        },
        0xb8 => {
            if bytes.len() - i < 3 {
                return Err(ParseError::Io);
            }
            let mut p = i + 1;
            let v = read_u16(bytes, &mut p);
            Ok(((j, Instruction::invokestatic(v)), i + 3))
        },
        0xba => {
            if bytes.len() - i < 3 {
                return Err(ParseError::Io);
            }
            let mut p = i + 1;
            let v = read_u16(bytes, &mut p);
            Ok(((j, Instruction::invokedynamic(v)), i + 3))
        },
        0xbb => {
            if bytes.len() - i < 3 {
                return Err(ParseError::Io);
            }
            let mut p = i + 1;
            let v = read_u16(bytes, &mut p);
            Ok(((j, Instruction::new(v)), i + 3))
        },
        0xbd => {
            if bytes.len() - i < 3 {
                return Err(ParseError::Io);
            }
            let mut p = i + 1;
            let v = read_u16(bytes, &mut p);
            Ok(((j, Instruction::anewarray(v)), i + 3))
        },
        0xc0 => {
            if bytes.len() - i < 3 {
                return Err(ParseError::Io);
            }
            let mut p = i + 1;
            let v = read_u16(bytes, &mut p);
            Ok(((j, Instruction::checkcast(v)), i + 3))
        },
        0xc1 => {
            if bytes.len() - i < 3 {
                return Err(ParseError::Io);
            }
            let mut p = i + 1;
            let v = read_u16(bytes, &mut p);
            Ok(((j, Instruction::instanceof(v)), i + 3))
        },
        0x11 => {
            if bytes.len() - i < 3 {
                return Err(ParseError::Io);
            }
            let mut p = i + 1;
            let v = u16_to_i16(read_u16(bytes, &mut p));
            Ok(((j, Instruction::sipush(v)), i + 3))
        },
        0x99 => {
            if bytes.len() - i < 3 {
                return Err(ParseError::Io);
            }
            let mut p = i + 1;
            let v = u16_to_i16(read_u16(bytes, &mut p));
            Ok(((j, Instruction::ifeq(v)), i + 3))
        },
        0x9a => {
            if bytes.len() - i < 3 {
                return Err(ParseError::Io);
            }
            let mut p = i + 1;
            let v = u16_to_i16(read_u16(bytes, &mut p));
            Ok(((j, Instruction::ifne(v)), i + 3))
        },
        0x9b => {
            if bytes.len() - i < 3 {
                return Err(ParseError::Io);
            }
            let mut p = i + 1;
            let v = u16_to_i16(read_u16(bytes, &mut p));
            Ok(((j, Instruction::iflt(v)), i + 3))
        },
        0x9c => {
            if bytes.len() - i < 3 {
                return Err(ParseError::Io);
            }
            let mut p = i + 1;
            let v = u16_to_i16(read_u16(bytes, &mut p));
            Ok(((j, Instruction::ifge(v)), i + 3))
        },
        0x9d => {
            if bytes.len() - i < 3 {
                return Err(ParseError::Io);
            }
            let mut p = i + 1;
            let v = u16_to_i16(read_u16(bytes, &mut p));
            Ok(((j, Instruction::ifgt(v)), i + 3))
        },
        0x9e => {
            if bytes.len() - i < 3 {
                return Err(ParseError::Io);
            }
            let mut p = i + 1;
            let v = u16_to_i16(read_u16(bytes, &mut p));
            Ok(((j, Instruction::ifle(v)), i + 3))
        },
        0x9f => {
            if bytes.len() - i < 3 {
                return Err(ParseError::Io);
            }
            let mut p = i + 1;
            let v = u16_to_i16(read_u16(bytes, &mut p));
            Ok(((j, Instruction::if_icmpeq(v)), i + 3))
        },
        0xa0 => {
            if bytes.len() - i < 3 {
                return Err(ParseError::Io);
            }
            let mut p = i + 1;
            let v = u16_to_i16(read_u16(bytes, &mut p));
            Ok(((j, Instruction::if_icmpne(v)), i + 3))
        },
        0xa1 => {
            if bytes.len() - i < 3 {
                return Err(ParseError::Io);
            }
            let mut p = i + 1;
            let v = u16_to_i16(read_u16(bytes, &mut p));
            Ok(((j, Instruction::if_icmplt(v)), i + 3))
        },
        0xa2 => {
            if bytes.len() - i < 3 {
                return Err(ParseError::Io);
            }
            let mut p = i + 1;
            let v = u16_to_i16(read_u16(bytes, &mut p));
            Ok(((j, Instruction::if_icmpge(v)), i + 3))
        },
        0xa3 => {
            if bytes.len() - i < 3 {
                return Err(ParseError::Io);
            }
            let mut p = i + 1;
            let v = u16_to_i16(read_u16(bytes, &mut p));
            Ok(((j, Instruction::if_icmpgt(v)), i + 3))
        },
        0xa4 => {
            if bytes.len() - i < 3 {
                return Err(ParseError::Io);
            }
            let mut p = i + 1;
            let v = u16_to_i16(read_u16(bytes, &mut p));
            Ok(((j, Instruction::if_icmple(v)), i + 3))
        },
        0xa5 => {
            if bytes.len() - i < 3 {
                return Err(ParseError::Io);
            }
            let mut p = i + 1;
            let v = u16_to_i16(read_u16(bytes, &mut p));
            Ok(((j, Instruction::if_acmpeq(v)), i + 3))
        },
        0xa6 => {
            if bytes.len() - i < 3 {
                return Err(ParseError::Io);
            }
            let mut p = i + 1;
            let v = u16_to_i16(read_u16(bytes, &mut p));
            Ok(((j, Instruction::if_acmpne(v)), i + 3))
        },
        0xa7 => {
            if bytes.len() - i < 3 {
                return Err(ParseError::Io);
            }
            let mut p = i + 1;
            let v = u16_to_i16(read_u16(bytes, &mut p));
            Ok(((j, Instruction::goto(v)), i + 3))
        },
        0xa8 => {
            if bytes.len() - i < 3 {
                return Err(ParseError::Io);
            }
            let mut p = i + 1;
            let v = u16_to_i16(read_u16(bytes, &mut p));
            Ok(((j, Instruction::jsr(v)), i + 3))
        },
        0xc6 => {
            if bytes.len() - i < 3 {
                return Err(ParseError::Io);
            }
            let mut p = i + 1;
            let v = u16_to_i16(read_u16(bytes, &mut p));
            Ok(((j, Instruction::ifnull(v)), i + 3))
        },
        0xc7 => {
            if bytes.len() - i < 3 {
                return Err(ParseError::Io);
            }
            let mut p = i + 1;
            let v = u16_to_i16(read_u16(bytes, &mut p));
            Ok(((j, Instruction::ifnonnull(v)), i + 3))
        },
        0xc8 => {
            if bytes.len() - i < 5 {
                return Err(ParseError::Io);
            }
            let mut p = i + 1;
            let v = u32_to_i32(read_u32(bytes, &mut p));
            Ok(((j, Instruction::goto_w(v)), i + 5))
        },
        0xc9 => {
            if bytes.len() - i < 5 {
                return Err(ParseError::Io);
            }
            let mut p = i + 1;
            let v = u32_to_i32(read_u32(bytes, &mut p));
            Ok(((j, Instruction::jsr_w(v)), i + 5))
        },
        0x84 => {
            if bytes.len() - i < 3 {
                return Err(ParseError::Io);
            }
            let index = bytes[i + 1];
            let constant = u8_to_i8(bytes[i + 2]);
            Ok(((j, Instruction::iinc(index, constant)), i + 3))
        },
        0xb9 => {
            if bytes.len() - i < 4 {
                return Err(ParseError::Io);
            }
            let mut p = i + 1;
            let index = read_u16(bytes, &mut p);
            let count = bytes[i + 3];
            Ok(((j, Instruction::invokeinterface(index, count)), i + 4))
        },
        0xc5 => {
            if bytes.len() - i < 4 {
                return Err(ParseError::Io);
            }
            let mut p = i + 1;
            let index = read_u16(bytes, &mut p);
            let dimensions = bytes[i + 3];
            Ok(((j, Instruction::multianewarray(index, dimensions)), i + 4))
        },
        0xbc => {
            if bytes.len() - i < 2 {
                return Err(ParseError::Io);
            }
            let tag = bytes[i + 1];
            let at = match tag {
                4 => ArrayType::Boolean,
                5 => ArrayType::Char,
                6 => ArrayType::Float,
                7 => ArrayType::Double,
                8 => ArrayType::Byte,
                9 => ArrayType::Short,
                10 => ArrayType::Int,
                11 => ArrayType::Long,
                _ => {
                    return Err(ParseError::UnknownArrayType(tag, j));
                },
            };
            Ok(((j, Instruction::newarray(at)), i + 2))
        },
        0xc4 => {
            if bytes.len() - i < 4 {
                return Err(ParseError::Io);
            }
            let sub = bytes[i + 1];
            let mut p = i + 2;
            let index = read_u16(bytes, &mut p);
            match sub {
                0x84 => {
                    if bytes.len() - i < 6 {
                        return Err(ParseError::Io);
                    }
                    let constant = u16_to_i16(read_u16(bytes, &mut p));
                    Ok(((j, Instruction::iinc_w(index, constant)), i + 6))
                },
                0x15 => Ok(((j, Instruction::iload_w(index)), i + 4)),
                0x16 => Ok(((j, Instruction::lload_w(index)), i + 4)),
                0x17 => Ok(((j, Instruction::fload_w(index)), i + 4)),
                0x18 => Ok(((j, Instruction::dload_w(index)), i + 4)),
                0x19 => Ok(((j, Instruction::aload_w(index)), i + 4)),
                0x36 => Ok(((j, Instruction::istore_w(index)), i + 4)),
                0x37 => Ok(((j, Instruction::lstore_w(index)), i + 4)),
                0x38 => Ok(((j, Instruction::fstore_w(index)), i + 4)),
                0x39 => Ok(((j, Instruction::dstore_w(index)), i + 4)),
                0x3a => Ok(((j, Instruction::astore_w(index)), i + 4)),
                0xa9 => Ok(((j, Instruction::ret_w(index)), i + 4)),
                _ => Err(ParseError::UnknownWideOpcode(sub, j)),
            }
        },
        0xaa => decode_tableswitch(bytes, i),
        0xab => decode_lookupswitch(bytes, i),
        _ => Err(ParseError::UnknownOpcode(opcode, j)),    }
}

/// Decodes the `tableswitch` instruction at `i`: alignment padding, then
/// default, low, and high, then `high - low + 1` jump offsets.
fn decode_tableswitch(bytes: &Vec<u8>, i: usize) -> (r: ParseResult<((u32, Instruction), usize)>)
    requires
        bytes@.len() <= 0xFFFFFFFF,
        i < bytes@.len(),
        bytes@[i as int] == 0xaa,
    ensures
        match r {
            Ok((p, next)) => i < next <= bytes@.len() && instr_at(bytes@, i as int,
                Ok((p, next as int))),
            Err(e) => instr_at(bytes@, i as int, Err(e)),
        },
{
    let j: u32 = i as u32;
    let pad: usize = (4 - ((i + 1) % 4)) % 4;
    proof {
        assert(pad == switch_pad(i as int));
    }
    if bytes.len() - i < 13 + pad {
        return Err(ParseError::Io);
    }
    let ghost q = i + 1 + pad;
    let mut p = i + 1 + pad;
    let dflt = u32_to_i32(read_u32(bytes, &mut p));
    let low = u32_to_i32(read_u32(bytes, &mut p));
    let high = u32_to_i32(read_u32(bytes, &mut p));
    let n: u64 = if high >= low {
        ((high as i64) - (low as i64) + 1) as u64
    } else {
        0
    };
    if (((bytes.len() - p) as u64) / 4) < n {
        proof {
            assert(q + 12 + 4 * (n as int) > bytes@.len());
        }
        return Err(ParseError::Io);
    }
    let mut offsets: Vec<i32> = Vec::new();
    let mut k: u64 = 0;
    while k < n
        invariant
            bytes@.len() <= 0xFFFFFFFF,
            q + 12 + 4 * (n as int) <= bytes@.len(),
            p == q + 12 + 4 * (k as int),
            k <= n,
            offsets@.len() == k as int,
            forall|t: int| 0 <= t < k as int ==>
                #[trigger] offsets@[t] == spec_i32(be_u32(bytes@, q + 12 + 4 * t) as u32),
        decreases n - k,
    {
        let v = u32_to_i32(read_u32(bytes, &mut p));
        offsets.push(v);
        k = k + 1;
    }
    Ok(((j, Instruction::tableswitch(dflt, low, offsets)), p))
}

/// Decodes the `lookupswitch` instruction at `i`: alignment padding, then
/// default and pair count, then that many (match, offset) pairs.
fn decode_lookupswitch(bytes: &Vec<u8>, i: usize) -> (r: ParseResult<((u32, Instruction), usize)>)
    requires
        bytes@.len() <= 0xFFFFFFFF,
        i < bytes@.len(),
        bytes@[i as int] == 0xab,
    ensures
        match r {
            Ok((p, next)) => i < next <= bytes@.len() && instr_at(bytes@, i as int,
                Ok((p, next as int))),
            Err(e) => instr_at(bytes@, i as int, Err(e)),
        },
{
    let j: u32 = i as u32;
    let pad: usize = (4 - ((i + 1) % 4)) % 4;
    proof {
        assert(pad == switch_pad(i as int));
    }
    if bytes.len() - i < 9 + pad {
        return Err(ParseError::Io);
    }
    let ghost q = i + 1 + pad;
    let mut p = i + 1 + pad;
    let dflt = u32_to_i32(read_u32(bytes, &mut p));
    let npairs = u32_to_i32(read_u32(bytes, &mut p));
    let n: u64 = if npairs >= 0 {
        npairs as u64
    } else {
        0
    };
    if (((bytes.len() - p) as u64) / 8) < n {
        proof {
            assert(q + 8 + 8 * (n as int) > bytes@.len());
        }
        return Err(ParseError::Io);
    }
    let mut pairs: Vec<(i32, i32)> = Vec::new();
    let mut k: u64 = 0;
    while k < n
        invariant
            bytes@.len() <= 0xFFFFFFFF,
            q + 8 + 8 * (n as int) <= bytes@.len(),
            p == q + 8 + 8 * (k as int),
            k <= n,
            pairs@.len() == k as int,
            forall|t: int| 0 <= t < k as int ==>
                #[trigger] pairs@[t] == (spec_i32(be_u32(bytes@, q + 8 + 8 * t) as u32),
                    spec_i32(be_u32(bytes@, q + 8 + 8 * t + 4) as u32)),
        decreases n - k,
    {
        let m = u32_to_i32(read_u32(bytes, &mut p));
        let o = u32_to_i32(read_u32(bytes, &mut p));
        pairs.push((m, o));
        k = k + 1;
    }
    Ok(((j, Instruction::lookupswitch(dflt, pairs)), p))
}

/// Decodes a whole code array into its (offset, instruction) pairs, or
/// fails with exactly the error the grammar assigns.
pub fn decode_code(bytes: &Vec<u8>) -> (r: ParseResult<Vec<(u32, Instruction)>>)
    requires
        bytes@.len() <= 0xFFFFFFFF,
    ensures
        match r {
            Ok(v) => code_span(bytes@, 0, bytes@.len() as int, v@),
            Err(e) => code_fails(bytes@, 0, e),
        },
{
    let mut decoded: Vec<(u32, Instruction)> = Vec::new();
    let mut i: usize = 0;
    while i < bytes.len()
        invariant
            bytes@.len() <= 0xFFFFFFFF,
            i <= bytes@.len(),
            code_span(bytes@, 0, i as int, decoded@),
        decreases bytes@.len() - i,
    {
        match decode_one(bytes, i) {
            Ok((p, next)) => {
                proof {
                    lemma_code_span_snoc(bytes@, 0, i as int, decoded@, p, next as int);
                }
                decoded.push(p);
                i = next;
            },
            Err(e) => {
                proof {
                    lemma_code_span_then_fails(bytes@, 0, i as int, decoded@, e);
                }
                return Err(e);
            },
        }
    }
    Ok(decoded)
}

/// Structural equality of instructions: field equality, with switch tables
/// compared by their abstract contents.
pub open spec fn instr_eq(i1: Instruction, i2: Instruction) -> bool {
    match (i1, i2) {
        (Instruction::tableswitch(d1, l1, o1), Instruction::tableswitch(d2, l2, o2)) => d1 == d2
            && l1 == l2 && o1@ == o2@,
        (Instruction::lookupswitch(d1, p1), Instruction::lookupswitch(d2, p2)) => d1 == d2 && p1@
            == p2@,
        _ => i1 == i2,
    }
}

/// Decoding one instruction is deterministic: two outcomes of the grammar
/// at the same position agree — the same error, or the same offset, end
/// position, and structurally equal instructions.
pub proof fn lemma_instr_at_deterministic(b: Seq<u8>, pos: int, o1: CodeStep, o2: CodeStep)
    requires
        instr_at(b, pos, o1),
        instr_at(b, pos, o2),
    ensures
        match (o1, o2) {
            (Ok((p1, e1)), Ok((p2, e2))) => p1.0 == p2.0 && e1 == e2 && instr_eq(p1.1, p2.1),
            (Err(x), Err(y)) => x == y,
            _ => false,
        },
{
    match (o1, o2) {
        (Ok((p1, e1)), Ok((p2, e2))) => {
            match (p1.1, p2.1) {
                (Instruction::tableswitch(d1, l1, o1v), Instruction::tableswitch(d2, l2, o2v)) => {
                    assert(o1v@ =~= o2v@);
                },
                (Instruction::lookupswitch(d1, p1v), Instruction::lookupswitch(d2, p2v)) => {
                    assert(p1v@ =~= p2v@);
                },
                _ => {},
            }
        },
        _ => {},
    }
}

/// A decoded span never runs backwards.
proof fn lemma_code_span_le(b: Seq<u8>, lo: int, hi: int, s: Seq<(u32, Instruction)>)
    requires
        code_span(b, lo, hi, s),
    ensures
        lo <= hi,
    decreases s.len(),
{
    if s.len() > 0 {
        let m = choose|m: int|
            lo < m <= hi && #[trigger] instr_at(b, lo, Ok((s[0], m)))
                && code_span(b, m, hi, s.drop_first());
        lemma_code_span_le(b, m, hi, s.drop_first());
    }
}

/// Decoding a byte range is deterministic: two instruction sequences the
/// grammar assigns to the same range agree pairwise — the same offsets and
/// structurally equal instructions. Decoding the same bytes twice therefore
/// yields structurally equal results.
pub proof fn lemma_code_span_deterministic(
    b: Seq<u8>,
    lo: int,
    hi: int,
    s1: Seq<(u32, Instruction)>,
    s2: Seq<(u32, Instruction)>,
)
    requires
        code_span(b, lo, hi, s1),
        code_span(b, lo, hi, s2),
    ensures
        s1.len() == s2.len(),
        forall|k: int|
            0 <= k < s1.len() ==> (#[trigger] s1[k]).0 == (#[trigger] s2[k]).0 && instr_eq(
                s1[k].1, s2[k].1),
    decreases s1.len(),
{
    if s1.len() == 0 {
        assert(lo == hi);
        if s2.len() > 0 {
            let m2 = choose|m: int|
                lo < m <= hi && #[trigger] instr_at(b, lo, Ok((s2[0], m)))
                    && code_span(b, m, hi, s2.drop_first());
            lemma_code_span_le(b, m2, hi, s2.drop_first());
            assert(false);
        }
    } else {
        if s2.len() == 0 {
            assert(lo == hi);
            let m1 = choose|m: int|
                lo < m <= hi && #[trigger] instr_at(b, lo, Ok((s1[0], m)))
                    && code_span(b, m, hi, s1.drop_first());
            lemma_code_span_le(b, m1, hi, s1.drop_first());
            assert(false);
        } else {
            let m1 = choose|m: int|
                lo < m <= hi && #[trigger] instr_at(b, lo, Ok((s1[0], m)))
                    && code_span(b, m, hi, s1.drop_first());
            let m2 = choose|m: int|
                lo < m <= hi && #[trigger] instr_at(b, lo, Ok((s2[0], m)))
                    && code_span(b, m, hi, s2.drop_first());
            lemma_instr_at_deterministic(b, lo, Ok((s1[0], m1)), Ok((s2[0], m2)));
            lemma_code_span_deterministic(b, m1, hi, s1.drop_first(), s2.drop_first());
            assert forall|k: int|
                0 <= k < s1.len() implies (#[trigger] s1[k]).0 == (#[trigger] s2[k]).0
                    && instr_eq(s1[k].1, s2[k].1) by {
                if k >= 1 {
                    assert(s1[k] == s1.drop_first()[k - 1]);
                    assert(s2[k] == s2.drop_first()[k - 1]);
                }
            }
        }
    }
}

/// A byte range that decodes completely cannot also fail.
pub proof fn lemma_code_span_excl_fails(
    b: Seq<u8>,
    lo: int,
    hi: int,
    s: Seq<(u32, Instruction)>,
    e: ParseError,
)
    requires
        code_span(b, lo, hi, s),
        hi == b.len(),
    ensures
        !code_fails(b, lo, e),
    decreases s.len(),
{
    if code_fails(b, lo, e) {
        if s.len() == 0 {
            assert(lo == hi);
        } else {
            let m = choose|m: int|
                lo < m <= hi && #[trigger] instr_at(b, lo, Ok((s[0], m)))
                    && code_span(b, m, hi, s.drop_first());
            if instr_at(b, lo, Err(e)) {
                lemma_instr_at_deterministic(b, lo, Ok((s[0], m)), Err(e));
            } else {
                let (p0, m2) = choose|p: (u32, Instruction), mid: int|
                    lo < mid <= b.len() && #[trigger] instr_at(b, lo, Ok((p, mid)))
                        && code_fails(b, mid, e);
                lemma_instr_at_deterministic(b, lo, Ok((s[0], m)), Ok((p0, m2)));
                lemma_code_span_excl_fails(b, m, hi, s.drop_first(), e);
            }
        }
    }
}

/// Failing to decode a range is deterministic: the error is unique.
pub proof fn lemma_code_fails_det(b: Seq<u8>, pos: int, e1: ParseError, e2: ParseError)
    requires
        code_fails(b, pos, e1),
        code_fails(b, pos, e2),
    ensures
        e1 == e2,
    decreases b.len() - pos,
{
    if instr_at(b, pos, Err(e1)) {
        if instr_at(b, pos, Err(e2)) {
            lemma_instr_at_deterministic(b, pos, Err(e1), Err(e2));
        } else {
            let (p2, m2) = choose|p: (u32, Instruction), mid: int|
                pos < mid <= b.len() && #[trigger] instr_at(b, pos, Ok((p, mid)))
                    && code_fails(b, mid, e2);
            lemma_instr_at_deterministic(b, pos, Err(e1), Ok((p2, m2)));
        }
    } else {
        let (p1, m1) = choose|p: (u32, Instruction), mid: int|
            pos < mid <= b.len() && #[trigger] instr_at(b, pos, Ok((p, mid)))
                && code_fails(b, mid, e1);
        if instr_at(b, pos, Err(e2)) {
            lemma_instr_at_deterministic(b, pos, Ok((p1, m1)), Err(e2));
        } else {
            let (p2, m2) = choose|p: (u32, Instruction), mid: int|
                pos < mid <= b.len() && #[trigger] instr_at(b, pos, Ok((p, mid)))
                    && code_fails(b, mid, e2);
            lemma_instr_at_deterministic(b, pos, Ok((p1, m1)), Ok((p2, m2)));
            lemma_code_fails_det(b, m1, e1, e2);
        }
    }
}

} // verus!
