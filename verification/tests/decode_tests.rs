//! Exhaustive decoding checks for the bytecode instruction decoder: every
//! opcode with its exact operand encoding, the switch forms and their
//! alignment padding, the wide forms, and every decode error.

use classreader::decode::decode_code;
use classreader::ArrayType;
use classreader::Instruction;
use classreader::ParseError;

/// Decodes `op` followed by its operand bytes and a trailing `nop`, and
/// checks both the decoded instruction and that the cursor advanced by
/// exactly `1 + operands.len()`.
fn one(op: u8, operands: &[u8], expected: Instruction) {
    let mut bytes: Vec<u8> = vec![op];
    bytes.extend_from_slice(operands);
    bytes.push(0x00);
    let r = decode_code(&bytes).unwrap();
    assert_eq!(r.len(), 2);
    assert_eq!(r[0], (0u32, expected));
    assert_eq!(r[1], ((1 + operands.len()) as u32, Instruction::nop));
}

#[test]
fn opcodes_without_operands() {
    one(0x00, &[], Instruction::nop);
    one(0x01, &[], Instruction::aconst_null);
    one(0x02, &[], Instruction::iconst_m1);
    one(0x03, &[], Instruction::iconst_0);
    one(0x04, &[], Instruction::iconst_1);
    one(0x05, &[], Instruction::iconst_2);
    one(0x06, &[], Instruction::iconst_3);
    one(0x07, &[], Instruction::iconst_4);
    one(0x08, &[], Instruction::iconst_5);
    one(0x09, &[], Instruction::lconst_0);
    one(0x0a, &[], Instruction::lconst_1);
    one(0x0b, &[], Instruction::fconst_0);
    one(0x0c, &[], Instruction::fconst_1);
    one(0x0d, &[], Instruction::fconst_2);
    one(0x0e, &[], Instruction::dconst_0);
    one(0x0f, &[], Instruction::dconst_1);
    one(0x1a, &[], Instruction::iload_0);
    one(0x1b, &[], Instruction::iload_1);
    one(0x1c, &[], Instruction::iload_2);
    one(0x1d, &[], Instruction::iload_3);
    one(0x1e, &[], Instruction::lload_0);
    one(0x1f, &[], Instruction::lload_1);
    one(0x20, &[], Instruction::lload_2);
    one(0x21, &[], Instruction::lload_3);
    one(0x22, &[], Instruction::fload_0);
    one(0x23, &[], Instruction::fload_1);
    one(0x24, &[], Instruction::fload_2);
    one(0x25, &[], Instruction::fload_3);
    one(0x26, &[], Instruction::dload_0);
    one(0x27, &[], Instruction::dload_1);
    one(0x28, &[], Instruction::dload_2);
    one(0x29, &[], Instruction::dload_3);
    one(0x2a, &[], Instruction::aload_0);
    one(0x2b, &[], Instruction::aload_1);
    one(0x2c, &[], Instruction::aload_2);
    one(0x2d, &[], Instruction::aload_3);
    one(0x2e, &[], Instruction::iaload);
    one(0x2f, &[], Instruction::laload);
    one(0x30, &[], Instruction::faload);
    one(0x31, &[], Instruction::daload);
    one(0x32, &[], Instruction::aaload);
    one(0x33, &[], Instruction::baload);
    one(0x34, &[], Instruction::caload);
    one(0x35, &[], Instruction::saload);
    one(0x3b, &[], Instruction::istore_0);
    one(0x3c, &[], Instruction::istore_1);
    one(0x3d, &[], Instruction::istore_2);
    one(0x3e, &[], Instruction::istore_3);
    one(0x3f, &[], Instruction::lstore_0);
    one(0x40, &[], Instruction::lstore_1);
    one(0x41, &[], Instruction::lstore_2);
    one(0x42, &[], Instruction::lstore_3);
    one(0x43, &[], Instruction::fstore_0);
    one(0x44, &[], Instruction::fstore_1);
    one(0x45, &[], Instruction::fstore_2);
    one(0x46, &[], Instruction::fstore_3);
    one(0x47, &[], Instruction::dstore_0);
    one(0x48, &[], Instruction::dstore_1);
    one(0x49, &[], Instruction::dstore_2);
    one(0x4a, &[], Instruction::dstore_3);
    one(0x4b, &[], Instruction::astore_0);
    one(0x4c, &[], Instruction::astore_1);
    one(0x4d, &[], Instruction::astore_2);
    one(0x4e, &[], Instruction::astore_3);
    one(0x4f, &[], Instruction::iastore);
    one(0x50, &[], Instruction::lastore);
    one(0x51, &[], Instruction::fastore);
    one(0x52, &[], Instruction::dastore);
    one(0x53, &[], Instruction::aastore);
    one(0x54, &[], Instruction::bastore);
    one(0x55, &[], Instruction::castore);
    one(0x56, &[], Instruction::sastore);
    one(0x57, &[], Instruction::pop);
    one(0x58, &[], Instruction::pop2);
    one(0x59, &[], Instruction::dup);
    one(0x5a, &[], Instruction::dup_x1);
    one(0x5b, &[], Instruction::dup_x2);
    one(0x5c, &[], Instruction::dup2);
    one(0x5d, &[], Instruction::dup2_x1);
    one(0x5e, &[], Instruction::dup2_x2);
    one(0x5f, &[], Instruction::swap);
    one(0x60, &[], Instruction::iadd);
    one(0x61, &[], Instruction::ladd);
    one(0x62, &[], Instruction::fadd);
    one(0x63, &[], Instruction::dadd);
    one(0x64, &[], Instruction::isub);
    one(0x65, &[], Instruction::lsub);
    one(0x66, &[], Instruction::fsub);
    one(0x67, &[], Instruction::dsub);
    one(0x68, &[], Instruction::imul);
    one(0x69, &[], Instruction::lmul);
    one(0x6a, &[], Instruction::fmul);
    one(0x6b, &[], Instruction::dmul);
    one(0x6c, &[], Instruction::idiv);
    one(0x6d, &[], Instruction::ldiv);
    one(0x6e, &[], Instruction::fdiv);
    one(0x6f, &[], Instruction::ddiv);
    one(0x70, &[], Instruction::irem);
    one(0x71, &[], Instruction::lrem);
    one(0x72, &[], Instruction::frem);
    one(0x73, &[], Instruction::drem);
    one(0x74, &[], Instruction::ineg);
    one(0x75, &[], Instruction::lneg);
    one(0x76, &[], Instruction::fneg);
    one(0x77, &[], Instruction::dneg);
    one(0x78, &[], Instruction::ishl);
    one(0x79, &[], Instruction::lshl);
    one(0x7a, &[], Instruction::ishr);
    one(0x7b, &[], Instruction::lshr);
    one(0x7c, &[], Instruction::iushr);
    one(0x7d, &[], Instruction::lushr);
    one(0x7e, &[], Instruction::iand);
    one(0x7f, &[], Instruction::land);
    one(0x80, &[], Instruction::ior);
    one(0x81, &[], Instruction::lor);
    one(0x82, &[], Instruction::ixor);
    one(0x83, &[], Instruction::lxor);
    one(0x85, &[], Instruction::i2l);
    one(0x86, &[], Instruction::i2f);
    one(0x87, &[], Instruction::i2d);
    one(0x88, &[], Instruction::l2i);
    one(0x89, &[], Instruction::l2f);
    one(0x8a, &[], Instruction::l2d);
    one(0x8b, &[], Instruction::f2i);
    one(0x8c, &[], Instruction::f2l);
    one(0x8d, &[], Instruction::f2d);
    one(0x8e, &[], Instruction::d2i);
    one(0x8f, &[], Instruction::d2l);
    one(0x90, &[], Instruction::d2f);
    one(0x91, &[], Instruction::i2b);
    one(0x92, &[], Instruction::i2c);
    one(0x93, &[], Instruction::i2s);
    one(0x94, &[], Instruction::lcmp);
    one(0x95, &[], Instruction::fcmpl);
    one(0x96, &[], Instruction::fcmpg);
    one(0x97, &[], Instruction::dcmpl);
    one(0x98, &[], Instruction::dcmpg);
    one(0xac, &[], Instruction::ireturn);
    one(0xad, &[], Instruction::lreturn);
    one(0xae, &[], Instruction::freturn);
    one(0xaf, &[], Instruction::dreturn);
    one(0xb0, &[], Instruction::areturn);
    one(0xb1, &[], Instruction::return_);
    one(0xbe, &[], Instruction::arraylength);
    one(0xbf, &[], Instruction::athrow);
    one(0xc2, &[], Instruction::monitorenter);
    one(0xc3, &[], Instruction::monitorexit);
}

#[test]
fn opcodes_with_one_byte_index() {
    one(0x12, &[0xab], Instruction::ldc(0xab));
    one(0x15, &[0xab], Instruction::iload(0xab));
    one(0x16, &[0xab], Instruction::lload(0xab));
    one(0x17, &[0xab], Instruction::fload(0xab));
    one(0x18, &[0xab], Instruction::dload(0xab));
    one(0x19, &[0xab], Instruction::aload(0xab));
    one(0x36, &[0xab], Instruction::istore(0xab));
    one(0x37, &[0xab], Instruction::lstore(0xab));
    one(0x38, &[0xab], Instruction::fstore(0xab));
    one(0x39, &[0xab], Instruction::dstore(0xab));
    one(0x3a, &[0xab], Instruction::astore(0xab));
    one(0xa9, &[0xab], Instruction::ret(0xab));
}

#[test]
fn opcodes_with_two_byte_index() {
    one(0x13, &[0x12, 0x34], Instruction::ldc_w(0x1234));
    one(0x14, &[0x12, 0x34], Instruction::ldc2_w(0x1234));
    one(0xb2, &[0x12, 0x34], Instruction::getstatic(0x1234));
    one(0xb3, &[0x12, 0x34], Instruction::putstatic(0x1234));
    one(0xb4, &[0x12, 0x34], Instruction::getfield(0x1234));
    one(0xb5, &[0x12, 0x34], Instruction::putfield(0x1234));
    one(0xb6, &[0x12, 0x34], Instruction::invokevirtual(0x1234));
    one(0xb7, &[0x12, 0x34], Instruction::invokespecial(0x1234));
    one(0xb8, &[0x12, 0x34], Instruction::invokestatic(0x1234));
    one(0xba, &[0x12, 0x34], Instruction::invokedynamic(0x1234));
    one(0xbb, &[0x12, 0x34], Instruction::new(0x1234));
    one(0xbd, &[0x12, 0x34], Instruction::anewarray(0x1234));
    one(0xc0, &[0x12, 0x34], Instruction::checkcast(0x1234));
    one(0xc1, &[0x12, 0x34], Instruction::instanceof(0x1234));
}

#[test]
fn opcodes_with_signed_offset() {
    one(0x11, &[0xff, 0xfe], Instruction::sipush(-2));
    one(0x99, &[0xff, 0xfe], Instruction::ifeq(-2));
    one(0x9a, &[0xff, 0xfe], Instruction::ifne(-2));
    one(0x9b, &[0xff, 0xfe], Instruction::iflt(-2));
    one(0x9c, &[0xff, 0xfe], Instruction::ifge(-2));
    one(0x9d, &[0xff, 0xfe], Instruction::ifgt(-2));
    one(0x9e, &[0xff, 0xfe], Instruction::ifle(-2));
    one(0x9f, &[0xff, 0xfe], Instruction::if_icmpeq(-2));
    one(0xa0, &[0xff, 0xfe], Instruction::if_icmpne(-2));
    one(0xa1, &[0xff, 0xfe], Instruction::if_icmplt(-2));
    one(0xa2, &[0xff, 0xfe], Instruction::if_icmpge(-2));
    one(0xa3, &[0xff, 0xfe], Instruction::if_icmpgt(-2));
    one(0xa4, &[0xff, 0xfe], Instruction::if_icmple(-2));
    one(0xa5, &[0xff, 0xfe], Instruction::if_acmpeq(-2));
    one(0xa6, &[0xff, 0xfe], Instruction::if_acmpne(-2));
    one(0xa7, &[0xff, 0xfe], Instruction::goto(-2));
    one(0xa8, &[0xff, 0xfe], Instruction::jsr(-2));
    one(0xc6, &[0xff, 0xfe], Instruction::ifnull(-2));
    one(0xc7, &[0xff, 0xfe], Instruction::ifnonnull(-2));
    one(0x10, &[0x80], Instruction::bipush(-128));
    one(0x10, &[0x7f], Instruction::bipush(127));
    one(0x11, &[0x12, 0x34], Instruction::sipush(0x1234));
    one(0xc8, &[0xff, 0xff, 0xff, 0xfc], Instruction::goto_w(-4));
    one(0xc9, &[0x00, 0x00, 0x10, 0x00], Instruction::jsr_w(0x1000));
}

#[test]
fn opcodes_with_mixed_operands() {
    one(0x84, &[0x03, 0xff], Instruction::iinc(3, -1));
    one(0xb9, &[0x00, 0x07, 0x02], Instruction::invokeinterface(7, 2));
    one(0xc5, &[0x00, 0x09, 0x03], Instruction::multianewarray(9, 3));
}

#[test]
fn wide_forms() {
    one(0xc4, &[0x15, 0x12, 0x34], Instruction::iload_w(0x1234));
    one(0xc4, &[0x16, 0x12, 0x34], Instruction::lload_w(0x1234));
    one(0xc4, &[0x17, 0x12, 0x34], Instruction::fload_w(0x1234));
    one(0xc4, &[0x18, 0x12, 0x34], Instruction::dload_w(0x1234));
    one(0xc4, &[0x19, 0x12, 0x34], Instruction::aload_w(0x1234));
    one(0xc4, &[0x36, 0x12, 0x34], Instruction::istore_w(0x1234));
    one(0xc4, &[0x37, 0x12, 0x34], Instruction::lstore_w(0x1234));
    one(0xc4, &[0x38, 0x12, 0x34], Instruction::fstore_w(0x1234));
    one(0xc4, &[0x39, 0x12, 0x34], Instruction::dstore_w(0x1234));
    one(0xc4, &[0x3a, 0x12, 0x34], Instruction::astore_w(0x1234));
    one(0xc4, &[0xa9, 0x12, 0x34], Instruction::ret_w(0x1234));
    one(0xc4, &[0x84, 0x01, 0x00, 0xff, 0x9c], Instruction::iinc_w(0x100, -100));
}

#[test]
fn newarray_all_element_kinds() {
    one(0xbc, &[4], Instruction::newarray(ArrayType::Boolean));
    one(0xbc, &[5], Instruction::newarray(ArrayType::Char));
    one(0xbc, &[6], Instruction::newarray(ArrayType::Float));
    one(0xbc, &[7], Instruction::newarray(ArrayType::Double));
    one(0xbc, &[8], Instruction::newarray(ArrayType::Byte));
    one(0xbc, &[9], Instruction::newarray(ArrayType::Short));
    one(0xbc, &[10], Instruction::newarray(ArrayType::Int));
    one(0xbc, &[11], Instruction::newarray(ArrayType::Long));
}

#[test]
fn newarray_unknown_tag_is_fatal() {
    let bytes: Vec<u8> = vec![0xbc, 12];
    assert_eq!(decode_code(&bytes), Err(ParseError::UnknownArrayType(12, 0)));
    let bytes: Vec<u8> = vec![0x00, 0xbc, 3];
    assert_eq!(decode_code(&bytes), Err(ParseError::UnknownArrayType(3, 1)));
}

#[test]
fn unknown_opcodes_are_fatal() {
    for op in 0xca..=0xffu8 {
        let bytes: Vec<u8> = vec![op];
        assert_eq!(decode_code(&bytes), Err(ParseError::UnknownOpcode(op, 0)));
    }
}

#[test]
fn unknown_wide_sub_opcode_is_fatal() {
    let bytes: Vec<u8> = vec![0xc4, 0x60, 0x00, 0x01];
    assert_eq!(decode_code(&bytes), Err(ParseError::UnknownWideOpcode(0x60, 0)));
}

#[test]
fn truncated_operands_are_fatal() {
    assert_eq!(decode_code(&vec![0x19]), Err(ParseError::Io));
    assert_eq!(decode_code(&vec![0xbd, 0x01]), Err(ParseError::Io));
    assert_eq!(decode_code(&vec![0xc8, 0x01, 0x02, 0x03]), Err(ParseError::Io));
    assert_eq!(decode_code(&vec![0xc4, 0x15, 0x00]), Err(ParseError::Io));
    assert_eq!(decode_code(&vec![0xaa, 0x00, 0x00, 0x00]), Err(ParseError::Io));
}

#[test]
fn tableswitch_at_offset_zero() {
    // Opcode at 0: three filler bytes, then default, low, high, and
    // high - low + 1 = 2 jump offsets.
    let bytes: Vec<u8> = vec![
        0xaa, 0, 0, 0,
        0x00, 0x00, 0x00, 0x2a,
        0x00, 0x00, 0x00, 0x05,
        0x00, 0x00, 0x00, 0x06,
        0x00, 0x00, 0x00, 0x10,
        0xff, 0xff, 0xff, 0xf0,
    ];
    let r = decode_code(&bytes).unwrap();
    assert_eq!(r.len(), 1);
    assert_eq!(r[0], (0u32, Instruction::tableswitch(42, 5, vec![16, -16])));
}

#[test]
fn tableswitch_empty_range() {
    // high < low: no jump offsets at all.
    let bytes: Vec<u8> = vec![
        0xaa, 0, 0, 0,
        0x00, 0x00, 0x00, 0x01,
        0x00, 0x00, 0x00, 0x07,
        0x00, 0x00, 0x00, 0x06,
    ];
    let r = decode_code(&bytes).unwrap();
    assert_eq!(r[0], (0u32, Instruction::tableswitch(1, 7, vec![])));
}

#[test]
fn lookupswitch_at_offset_zero() {
    let bytes: Vec<u8> = vec![
        0xab, 0, 0, 0,
        0x00, 0x00, 0x00, 0x2a,
        0x00, 0x00, 0x00, 0x02,
        0x00, 0x00, 0x00, 0x01, 0x00, 0x00, 0x00, 0x10,
        0x00, 0x00, 0x00, 0x09, 0xff, 0xff, 0xff, 0xff,
    ];
    let r = decode_code(&bytes).unwrap();
    assert_eq!(r.len(), 1);
    assert_eq!(r[0], (0u32, Instruction::lookupswitch(42, vec![(1, 16), (9, -1)])));
}

#[test]
fn switch_alignment_at_all_offsets() {
    // An opcode at offset k needs (4 - ((k + 1) % 4)) % 4 filler bytes, so
    // that the default field starts at the next 4-byte-aligned position.
    for k in 0..4usize {
        let pad = (4 - ((k + 1) % 4)) % 4;
        let mut bytes: Vec<u8> = vec![0x00; k];
        bytes.push(0xab);
        bytes.extend_from_slice(&vec![0u8; pad]);
        bytes.extend_from_slice(&[0x00, 0x00, 0x00, 0x07]);
        bytes.extend_from_slice(&[0x00, 0x00, 0x00, 0x00]);
        let r = decode_code(&bytes).unwrap();
        assert_eq!(r.len(), k + 1);
        assert_eq!(r[k], (k as u32, Instruction::lookupswitch(7, vec![])));
        // the default field really does begin 4-byte-aligned
        assert_eq!((k + 1 + pad) % 4, 0);
        assert_eq!(bytes.len(), k + 1 + pad + 8);
    }
}

#[test]
fn lookupswitch_negative_pair_count_reads_no_pairs() {
    let bytes: Vec<u8> = vec![
        0xab, 0, 0, 0,
        0x00, 0x00, 0x00, 0x07,
        0xff, 0xff, 0xff, 0xff,
    ];
    let r = decode_code(&bytes).unwrap();
    assert_eq!(r[0], (0u32, Instruction::lookupswitch(7, vec![])));
}

#[test]
fn empty_code_array_decodes_to_no_instructions() {
    assert_eq!(decode_code(&vec![]), Ok(vec![]));
}

#[test]
fn consecutive_instructions_carry_their_offsets() {
    // bipush 7; iload 2; goto -3; nop
    let bytes: Vec<u8> = vec![0x10, 0x07, 0x15, 0x02, 0xa7, 0xff, 0xfd, 0x00];
    let r = decode_code(&bytes).unwrap();
    assert_eq!(r, vec![
        (0, Instruction::bipush(7)),
        (2, Instruction::iload(2)),
        (4, Instruction::goto(-3)),
        (7, Instruction::nop),
    ]);
}
