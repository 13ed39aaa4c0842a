//! Checks for the byte cursor, the constant-pool decoder (including the
//! two-slot bookkeeping), and the attribute decoder, one record shape at a
//! time.

use classreader::reader::ClassReader;
use classreader::Annotation;
use classreader::Attribute;
use classreader::BootstrapMethod;
use classreader::ConstantPoolInfo;
use classreader::ElementValue;
use classreader::ElementValuePair;
use classreader::Exception;
use classreader::InnerClass;
use classreader::LineNumber;
use classreader::LocalVariable;
use classreader::LocalVariableTarget;
use classreader::MethodParameter;
use classreader::ParseError;
use classreader::PathElement;
use classreader::StackMapFrame;
use classreader::TargetInfo;
use classreader::TargetType;
use classreader::TypeAnnotation;
use classreader::TypePath;
use classreader::TypePathKind;
use classreader::VerificationType;

fn name_pool(names: &[&str]) -> Vec<ConstantPoolInfo> {
    names.iter().map(|n| ConstantPoolInfo::Utf8(n.to_string())).collect()
}

/// Decodes one attribute whose header names `pool[0]`.
fn read_attr(pool: &Vec<ConstantPoolInfo>, payload: &[u8]) -> Result<Attribute, ParseError> {
    let mut bytes: Vec<u8> = vec![0x00, 0x01];
    bytes.extend_from_slice(&(payload.len() as u32).to_be_bytes());
    bytes.extend_from_slice(payload);
    let mut r = ClassReader::new(bytes);
    r.read_attribute(pool)
}

#[test]
fn cursor_reads_big_endian_fields() {
    let mut r = ClassReader::new(vec![0x12, 0x34, 0x56, 0x78, 0x9a, 0xbc, 0xde, 0xf0, 0x01]);
    assert_eq!(r.read_u8(), Ok(0x12));
    assert_eq!(r.position, 1);
    assert_eq!(r.read_u16(), Ok(0x3456));
    assert_eq!(r.position, 3);
    assert_eq!(r.read_u32(), Ok(0x789abcde));
    assert_eq!(r.position, 7);
    let mut r2 = ClassReader::new(vec![0x12, 0x34, 0x56, 0x78, 0x9a, 0xbc, 0xde, 0xf0]);
    assert_eq!(r2.read_u64(), Ok(0x123456789abcdef0));
    assert_eq!(r2.position, 8);
}

#[test]
fn cursor_fails_on_short_reads() {
    let mut r = ClassReader::new(vec![0x01]);
    assert_eq!(r.read_u16(), Err(ParseError::Io));
    assert_eq!(r.read_u32(), Err(ParseError::Io));
    assert_eq!(r.read_u64(), Err(ParseError::Io));
    assert_eq!(r.read_bytes(2), Err(ParseError::Io));
    // a failed read consumes nothing; the byte is still there
    assert_eq!(r.read_u8(), Ok(0x01));
    assert_eq!(r.read_u8(), Err(ParseError::Io));
}

#[test]
fn cursor_reads_exact_byte_runs() {
    let mut r = ClassReader::new(vec![1, 2, 3, 4, 5]);
    assert_eq!(r.read_bytes(3), Ok(vec![1, 2, 3]));
    assert_eq!(r.position, 3);
    assert_eq!(r.read_bytes(0), Ok(vec![]));
    assert_eq!(r.read_bytes(3), Err(ParseError::Io));
}

#[test]
fn constant_pool_all_single_slot_kinds() {
    let mut bytes: Vec<u8> = vec![0x00, 0x0b]; // raw count 11: ten entries
    bytes.extend_from_slice(&[1, 0x00, 0x02, 0x68, 0x69]); // Utf8 "hi"
    bytes.extend_from_slice(&[3, 0xff, 0xff, 0xff, 0xfe]); // Integer -2
    bytes.extend_from_slice(&[4, 0x3f, 0x80, 0x00, 0x00]); // Float bits 1.0
    bytes.extend_from_slice(&[7, 0x00, 0x01]); // Class
    bytes.extend_from_slice(&[8, 0x00, 0x01]); // string reference
    bytes.extend_from_slice(&[9, 0x00, 0x01, 0x00, 0x02]); // Fieldref
    bytes.extend_from_slice(&[10, 0x00, 0x03, 0x00, 0x04]); // Methodref
    bytes.extend_from_slice(&[12, 0x00, 0x05, 0x00, 0x06]); // NameAndType
    bytes.extend_from_slice(&[15, 6, 0x00, 0x07]); // MethodHandle
    bytes.extend_from_slice(&[18, 0x00, 0x08, 0x00, 0x09]); // InvokeDynamic
    let mut r = ClassReader::new(bytes);
    let pool = r.read_constant_pool().unwrap();
    assert_eq!(pool.len(), 10);
    assert_eq!(pool[0], ConstantPoolInfo::Utf8("hi".to_string()));
    assert_eq!(pool[1], ConstantPoolInfo::Integer(-2));
    assert_eq!(pool[2], ConstantPoolInfo::Float(0x3f800000));
    assert_eq!(pool[3], ConstantPoolInfo::Class(1));
    assert_eq!(pool[4], ConstantPoolInfo::Str(1));
    assert_eq!(pool[5], ConstantPoolInfo::Fieldref(1, 2));
    assert_eq!(pool[6], ConstantPoolInfo::Methodref(3, 4));
    assert_eq!(pool[7], ConstantPoolInfo::NameAndType(5, 6));
    assert_eq!(pool[8], ConstantPoolInfo::MethodHandle(6, 7));
    assert_eq!(pool[9], ConstantPoolInfo::InvokeDynamic(8, 9));
}

#[test]
fn constant_pool_interface_methodref_and_method_type() {
    let mut bytes: Vec<u8> = vec![0x00, 0x03];
    bytes.extend_from_slice(&[11, 0x00, 0x01, 0x00, 0x02]);
    bytes.extend_from_slice(&[16, 0x00, 0x03]);
    let mut r = ClassReader::new(bytes);
    let pool = r.read_constant_pool().unwrap();
    assert_eq!(pool, vec![
        ConstantPoolInfo::InterfaceMethodref(1, 2),
        ConstantPoolInfo::MethodType(3),
    ]);
}

#[test]
fn long_and_double_occupy_two_slots() {
    // Three records, two of them two-slot: the pool must hold 3 + 2 slots,
    // with the filler right after each two-slot record, so that 1-based
    // positions match the indices references use.
    let mut bytes: Vec<u8> = vec![0x00, 0x06]; // raw count 6: five slots
    bytes.extend_from_slice(&[5, 0, 0, 0, 0, 0, 0, 0, 42]); // Long 42 (slots 1-2)
    bytes.extend_from_slice(&[1, 0x00, 0x01, 0x78]); // Utf8 "x" (slot 3)
    bytes.extend_from_slice(&[6, 0x3f, 0xf0, 0, 0, 0, 0, 0, 0]); // Double bits (slots 4-5)
    let mut r = ClassReader::new(bytes);
    let pool = r.read_constant_pool().unwrap();
    assert_eq!(pool.len(), 5);
    assert_eq!(pool[0], ConstantPoolInfo::Long(42));
    assert_eq!(pool[1], ConstantPoolInfo::Invalid);
    assert_eq!(pool[2], ConstantPoolInfo::Utf8("x".to_string()));
    assert_eq!(pool[3], ConstantPoolInfo::Double(0x3ff0000000000000));
    assert_eq!(pool[4], ConstantPoolInfo::Invalid);
    assert!(pool[0].is_double_length());
    assert!(!pool[2].is_double_length());
}

#[test]
fn long_negative_value() {
    let mut bytes: Vec<u8> = vec![0x00, 0x03];
    bytes.extend_from_slice(&[5, 0xff, 0xff, 0xff, 0xff, 0xff, 0xff, 0xff, 0xff]);
    let mut r = ClassReader::new(bytes);
    let pool = r.read_constant_pool().unwrap();
    assert_eq!(pool[0], ConstantPoolInfo::Long(-1));
}

#[test]
fn two_slot_record_at_last_owed_slot_still_emits_filler() {
    // Raw count 2 owes one slot; a Long there still pushes its filler.
    let mut bytes: Vec<u8> = vec![0x00, 0x02];
    bytes.extend_from_slice(&[5, 0, 0, 0, 0, 0, 0, 0, 7]);
    let mut r = ClassReader::new(bytes);
    let pool = r.read_constant_pool().unwrap();
    assert_eq!(pool, vec![ConstantPoolInfo::Long(7), ConstantPoolInfo::Invalid]);
}

#[test]
fn unknown_constant_pool_tag_is_fatal() {
    let bytes: Vec<u8> = vec![0x00, 0x02, 2, 0, 0];
    let mut r = ClassReader::new(bytes);
    assert_eq!(r.read_constant_pool(), Err(ParseError::UnknownConstantPoolTag(2, 2)));
}

#[test]
fn truncated_constant_pool_is_io_exhaustion() {
    let bytes: Vec<u8> = vec![0x00, 0x03, 3, 0, 0];
    let mut r = ClassReader::new(bytes);
    assert_eq!(r.read_constant_pool(), Err(ParseError::Io));
}

#[test]
fn interfaces_list() {
    let mut r = ClassReader::new(vec![0x00, 0x03, 0x00, 0x05, 0x00, 0x09, 0x01, 0x00]);
    assert_eq!(r.read_interfaces(), Ok(vec![5, 9, 256]));
    let mut r2 = ClassReader::new(vec![0x00, 0x02, 0x00, 0x05]);
    assert_eq!(r2.read_interfaces(), Err(ParseError::Io));
}

#[test]
fn attribute_name_resolution_errors() {
    let pool = name_pool(&["SourceFile"]);
    // index 0 is never a valid reference
    let mut r = ClassReader::new(vec![0x00, 0x00, 0, 0, 0, 0]);
    assert_eq!(r.read_attribute(&pool), Err(ParseError::AttributeNameOutOfRange(0)));
    // index past the end of the pool
    let mut r = ClassReader::new(vec![0x00, 0x02, 0, 0, 0, 0]);
    assert_eq!(r.read_attribute(&pool), Err(ParseError::AttributeNameOutOfRange(2)));
    // index resolving to a non-text entry
    let int_pool = vec![ConstantPoolInfo::Integer(3)];
    let mut r = ClassReader::new(vec![0x00, 0x01, 0, 0, 0, 0]);
    assert_eq!(r.read_attribute(&int_pool), Err(ParseError::AttributeNameNotUtf8(1)));
}

#[test]
fn constant_value_attribute() {
    let pool = name_pool(&["ConstantValue"]);
    assert_eq!(read_attr(&pool, &[0x00, 0x07]),
        Ok(Attribute::ConstantValue { constvalue_index: 7 }));
}

#[test]
fn signature_and_source_file_attributes() {
    assert_eq!(read_attr(&name_pool(&["Signature"]), &[0x00, 0x03]),
        Ok(Attribute::Signature { signature_index: 3 }));
    assert_eq!(read_attr(&name_pool(&["SourceFile"]), &[0x00, 0x04]),
        Ok(Attribute::SourceFile { sourcefile_index: 4 }));
}

#[test]
fn marker_attributes() {
    assert_eq!(read_attr(&name_pool(&["Synthetic"]), &[]), Ok(Attribute::Synthetic));
    assert_eq!(read_attr(&name_pool(&["Deprecated"]), &[]), Ok(Attribute::Deprecated));
}

#[test]
fn enclosing_method_attribute() {
    assert_eq!(read_attr(&name_pool(&["EnclosingMethod"]), &[0x00, 0x02, 0x00, 0x05]),
        Ok(Attribute::EnclosingMethod { class_index: 2, method_index: 5 }));
}

#[test]
fn exceptions_attribute() {
    assert_eq!(read_attr(&name_pool(&["Exceptions"]), &[0x00, 0x02, 0x00, 0x04, 0x00, 0x09]),
        Ok(Attribute::Exceptions { exception_index_table: vec![4, 9] }));
}

#[test]
fn inner_classes_attribute() {
    let payload = [0x00, 0x01, 0x00, 0x02, 0x00, 0x03, 0x00, 0x04, 0x00, 0x19];
    assert_eq!(read_attr(&name_pool(&["InnerClasses"]), &payload),
        Ok(Attribute::InnerClasses {
            classes: vec![InnerClass {
                inner_class_info_index: 2,
                outer_class_info_index: 3,
                inner_name_index: 4,
                inner_class_access_flags: 0x19,
            }],
        }));
}

#[test]
fn source_debug_extension_keeps_raw_bytes() {
    assert_eq!(read_attr(&name_pool(&["SourceDebugExtension"]), &[1, 2, 3]),
        Ok(Attribute::SourceDebugExtension(vec![1, 2, 3])));
}

#[test]
fn unknown_attribute_keeps_exactly_its_declared_length() {
    let pool = name_pool(&["SomethingElse"]);
    let mut bytes: Vec<u8> = vec![0x00, 0x01, 0x00, 0x00, 0x00, 0x02, 0xaa, 0xbb, 0xcc];
    let mut r = ClassReader::new(bytes.drain(..).collect());
    assert_eq!(r.read_attribute(&pool), Ok(Attribute::Unknown(vec![0xaa, 0xbb])));
    assert_eq!(r.position, 8);
}

#[test]
fn unknown_attribute_truncated_payload_is_io() {
    let pool = name_pool(&["SomethingElse"]);
    let bytes: Vec<u8> = vec![0x00, 0x01, 0x00, 0x00, 0x00, 0x09, 0xaa];
    let mut r = ClassReader::new(bytes);
    assert_eq!(r.read_attribute(&pool), Err(ParseError::Io));
}

#[test]
fn line_number_table_attribute() {
    let payload = [0x00, 0x02, 0x00, 0x00, 0x00, 0x0a, 0x00, 0x05, 0x00, 0x0b];
    assert_eq!(read_attr(&name_pool(&["LineNumberTable"]), &payload),
        Ok(Attribute::LineNumberTable(vec![
            LineNumber { start_pc: 0, line_number: 10 },
            LineNumber { start_pc: 5, line_number: 11 },
        ])));
}

#[test]
fn local_variable_tables_differ_only_by_name() {
    // The two table layouts are identical; the attribute name alone picks
    // the output variant.
    let payload = [0x00, 0x01, 0x00, 0x00, 0x00, 0x08, 0x00, 0x02, 0x00, 0x03, 0x00, 0x01];
    let entry = LocalVariable {
        start_pc: 0,
        length: 8,
        name_index: 2,
        descriptor_or_signature_index: 3,
        index: 1,
    };
    assert_eq!(read_attr(&name_pool(&["LocalVariableTable"]), &payload),
        Ok(Attribute::LocalVariableTable(vec![entry])));
    assert_eq!(read_attr(&name_pool(&["LocalVariableTypeTable"]), &payload),
        Ok(Attribute::LocalVariableTypeTable(vec![entry])));
}

#[test]
fn method_parameters_attribute() {
    let payload = [0x02, 0x00, 0x04, 0x00, 0x10, 0x00, 0x05, 0x80, 0x00];
    assert_eq!(read_attr(&name_pool(&["MethodParameters"]), &payload),
        Ok(Attribute::MethodParameters(vec![
            MethodParameter { name_index: 4, access_flags: 0x10 },
            MethodParameter { name_index: 5, access_flags: 0x8000 },
        ])));
}

#[test]
fn bootstrap_methods_attribute() {
    let payload = [0x00, 0x01, 0x00, 0x03, 0x00, 0x02, 0x00, 0x08, 0x00, 0x09];
    assert_eq!(read_attr(&name_pool(&["BootstrapMethods"]), &payload),
        Ok(Attribute::BootstrapMethods(vec![BootstrapMethod {
            method_ref: 3,
            arguments: vec![8, 9],
        }])));
}

#[test]
fn stack_map_table_all_frame_shapes() {
    let payload = [
        0x00, 0x07, // seven frames
        5,    // same frame
        66, 1, // same locals, one stack item: Integer
        247, 0x00, 0x10, 7, 0x00, 0x02, // extended, offset 16, Object(2)
        249, 0x00, 0x08, // chop
        251, 0x00, 0x04, // same extended
        253, 0x00, 0x02, 4, 8, 0x00, 0x09, // append two locals: Long, Uninitialized(9)
        255, 0x00, 0x01, 0x00, 0x01, 6, 0x00, 0x01, 0x05, // full frame
    ];
    assert_eq!(read_attr(&name_pool(&["StackMapTable"]), &payload),
        Ok(Attribute::StackMapTable(vec![
            StackMapFrame::SameFrame,
            StackMapFrame::SameLocals1StackItemFrame(VerificationType::Integer),
            StackMapFrame::SameLocals1StackItemFrameExtended {
                offset_delta: 16,
                stack: VerificationType::Object { index: 2 },
            },
            StackMapFrame::ChopFrame { offset_delta: 8 },
            StackMapFrame::SameFrameExtended { offset_delta: 4 },
            StackMapFrame::AppendFrame {
                offset_delta: 2,
                locals: vec![
                    VerificationType::Long,
                    VerificationType::UninitializedVariable { offset: 9 },
                ],
            },
            StackMapFrame::FullFrame {
                offset_delta: 1,
                locals: vec![VerificationType::UninitializedThis],
                stack: vec![VerificationType::Null],
            },
        ])));
}

#[test]
fn reserved_frame_type_is_fatal() {
    let payload = [0x00, 0x01, 128];
    assert_eq!(read_attr(&name_pool(&["StackMapTable"]), &payload),
        Err(ParseError::ReservedFrameType(128)));
    let payload = [0x00, 0x01, 246];
    assert_eq!(read_attr(&name_pool(&["StackMapTable"]), &payload),
        Err(ParseError::ReservedFrameType(246)));
}

#[test]
fn unknown_verification_type_tag_is_fatal() {
    let payload = [0x00, 0x01, 64, 9];
    assert_eq!(read_attr(&name_pool(&["StackMapTable"]), &payload),
        Err(ParseError::UnknownVerificationTypeTag(9)));
}

#[test]
fn runtime_annotations_attribute() {
    // One annotation with three element values: a constant, an enum
    // constant, and an array of one class reference.
    let payload = [
        0x00, 0x01, // one annotation
        0x00, 0x05, // type index
        0x00, 0x03, // three pairs
        0x00, 0x06, b'I', 0x00, 0x07,
        0x00, 0x08, b'e', 0x00, 0x09, 0x00, 0x0a,
        0x00, 0x0b, b'[', 0x00, 0x01, b'c', 0x00, 0x0c,
    ];
    let expected = Annotation {
        type_index: 5,
        element_value_pairs: vec![
            ElementValuePair {
                element_name_index: 6,
                value: ElementValue::Constant { const_value_index: 7 },
            },
            ElementValuePair {
                element_name_index: 8,
                value: ElementValue::EnumConstant { type_name_index: 9, const_name_index: 10 },
            },
            ElementValuePair {
                element_name_index: 11,
                value: ElementValue::Array(vec![ElementValue::Class { class_info_index: 12 }]),
            },
        ],
    };
    assert_eq!(read_attr(&name_pool(&["RuntimeVisibleAnnotations"]), &payload),
        Ok(Attribute::RuntimeVisibleAnnotations(vec![expected])));
}

#[test]
fn nested_annotation_element_value() {
    let payload = [
        0x00, 0x01,
        0x00, 0x01,
        0x00, 0x01,
        0x00, 0x02, b'@', 0x00, 0x03, 0x00, 0x00,
    ];
    assert_eq!(read_attr(&name_pool(&["RuntimeInvisibleAnnotations"]), &payload),
        Ok(Attribute::RuntimeInvisibleAnnotations(vec![Annotation {
            type_index: 1,
            element_value_pairs: vec![ElementValuePair {
                element_name_index: 2,
                value: ElementValue::Annotation(Annotation {
                    type_index: 3,
                    element_value_pairs: vec![],
                }),
            }],
        }])));
}

#[test]
fn unknown_element_value_tag_is_fatal() {
    let payload = [0x00, 0x01, 0x00, 0x01, 0x00, 0x01, 0x00, 0x02, b'x', 0x00, 0x03];
    assert_eq!(read_attr(&name_pool(&["RuntimeVisibleAnnotations"]), &payload),
        Err(ParseError::UnknownElementValueTag(b'x')));
}

#[test]
fn annotation_default_attribute() {
    let payload = [b'Z', 0x00, 0x02];
    assert_eq!(read_attr(&name_pool(&["AnnotationDefault"]), &payload),
        Ok(Attribute::AnnotationDefault {
            element_value: ElementValue::Constant { const_value_index: 2 },
        }));
}

#[test]
fn parameter_annotations_attribute() {
    let payload = [
        0x02, // two parameters
        0x00, 0x00, // first has no annotations
        0x00, 0x01, 0x00, 0x04, 0x00, 0x00, // second has one, with no pairs
    ];
    assert_eq!(read_attr(&name_pool(&["RuntimeVisibleParameterAnnotations"]), &payload),
        Ok(Attribute::RuntimeVisibleParameterAnnotations(vec![
            vec![],
            vec![Annotation { type_index: 4, element_value_pairs: vec![] }],
        ])));
}

#[test]
fn type_annotations_attribute() {
    // A field target (0x13, empty info) with a two-step path.
    let payload = [
        0x00, 0x01,
        0x13,
        0x02, 0x00, 0x00, 0x03, 0x01,
        0x00, 0x08,
        0x00, 0x00,
    ];
    assert_eq!(read_attr(&name_pool(&["RuntimeVisibleTypeAnnotations"]), &payload),
        Ok(Attribute::RuntimeVisibleTypeAnnotations(vec![TypeAnnotation {
            target_type: TargetType::Field,
            target_info: TargetInfo::Empty,
            type_path: TypePath {
                path: vec![
                    PathElement { kind: TypePathKind::Array, argument_index: 0 },
                    PathElement { kind: TypePathKind::TypeArgument, argument_index: 1 },
                ],
            },
            type_index: 8,
            element_value_pairs: vec![],
        }])));
}

#[test]
fn type_annotation_localvar_target() {
    let payload = [
        0x00, 0x01,
        0x40, // local-variable declaration target
        0x00, 0x01, 0x00, 0x02, 0x00, 0x06, 0x00, 0x01, // one range
        0x00, // empty path
        0x00, 0x09,
        0x00, 0x00,
    ];
    assert_eq!(read_attr(&name_pool(&["RuntimeInvisibleTypeAnnotations"]), &payload),
        Ok(Attribute::RuntimeInvisibleTypeAnnotations(vec![TypeAnnotation {
            target_type: TargetType::LocalVariableDeclaration,
            target_info: TargetInfo::Localvar(vec![LocalVariableTarget {
                start_pc: 2,
                length: 6,
                index: 1,
            }]),
            type_path: TypePath { path: vec![] },
            type_index: 9,
            element_value_pairs: vec![],
        }])));
}

#[test]
fn type_annotation_supertype_and_offset_targets() {
    let payload = [
        0x00, 0x02,
        0x10, 0x00, 0x07, 0x00, 0x00, 0x01, 0x00, 0x00, // supertype target
        0x43, 0x00, 0x0c, 0x00, 0x00, 0x02, 0x00, 0x00, // instanceof (offset) target
    ];
    assert_eq!(read_attr(&name_pool(&["RuntimeVisibleTypeAnnotations"]), &payload),
        Ok(Attribute::RuntimeVisibleTypeAnnotations(vec![
            TypeAnnotation {
                target_type: TargetType::Supertype,
                target_info: TargetInfo::Supertype { index: 7 },
                type_path: TypePath { path: vec![] },
                type_index: 1,
                element_value_pairs: vec![],
            },
            TypeAnnotation {
                target_type: TargetType::Instanceof,
                target_info: TargetInfo::Offset(12),
                type_path: TypePath { path: vec![] },
                type_index: 2,
                element_value_pairs: vec![],
            },
        ])));
}

#[test]
fn unknown_target_type_is_fatal() {
    let payload = [0x00, 0x01, 0x30];
    assert_eq!(read_attr(&name_pool(&["RuntimeVisibleTypeAnnotations"]), &payload),
        Err(ParseError::UnknownTargetType(0x30)));
}

#[test]
fn unknown_type_path_kind_is_fatal() {
    let payload = [0x00, 0x01, 0x13, 0x01, 0x04, 0x00];
    assert_eq!(read_attr(&name_pool(&["RuntimeVisibleTypeAnnotations"]), &payload),
        Err(ParseError::UnknownTypePathKind(4)));
}

#[test]
fn code_attribute_with_exception_table() {
    let payload = [
        0x00, 0x02, // max stack
        0x00, 0x01, // max locals
        0x00, 0x00, 0x00, 0x01, 0xb1, // one return instruction
        0x00, 0x01, // one handler
        0x00, 0x00, 0x00, 0x01, 0x00, 0x01, 0x00, 0x05,
        0x00, 0x00, // no nested attributes
    ];
    assert_eq!(read_attr(&name_pool(&["Code"]), &payload),
        Ok(Attribute::Code {
            max_stack: 2,
            max_locals: 1,
            code: vec![(0, classreader::Instruction::return_)],
            exception_table: vec![Exception {
                start_pc: 0,
                end_pc: 1,
                handler_pc: 1,
                catch_type: 5,
            }],
            attributes: vec![],
        }));
}

#[test]
fn code_attribute_with_nested_unknown_attribute() {
    let pool = vec![
        ConstantPoolInfo::Utf8("Code".to_string()),
        ConstantPoolInfo::Utf8("Custom".to_string()),
    ];
    let payload = [
        0x00, 0x01, 0x00, 0x01,
        0x00, 0x00, 0x00, 0x01, 0x00, // nop
        0x00, 0x00, // no handlers
        0x00, 0x01, // one nested attribute
        0x00, 0x02, 0x00, 0x00, 0x00, 0x01, 0x7f, // "Custom", one byte
    ];
    assert_eq!(read_attr(&pool, &payload),
        Ok(Attribute::Code {
            max_stack: 1,
            max_locals: 1,
            code: vec![(0, classreader::Instruction::nop)],
            exception_table: vec![],
            attributes: vec![Attribute::Unknown(vec![0x7f])],
        }));
}

#[test]
fn code_attribute_bad_instruction_is_fatal() {
    let payload = [
        0x00, 0x01, 0x00, 0x01,
        0x00, 0x00, 0x00, 0x01, 0xcb, // one unknown opcode
        0x00, 0x00,
        0x00, 0x00,
    ];
    assert_eq!(read_attr(&name_pool(&["Code"]), &payload),
        Err(ParseError::UnknownOpcode(0xcb, 0)));
}

#[test]
fn float_and_double_carry_ieee_bit_patterns() {
    let mut bytes: Vec<u8> = vec![0x00, 0x04];
    bytes.extend_from_slice(&[4, 0x3f, 0x80, 0x00, 0x00]); // 1.0f32
    bytes.extend_from_slice(&[6, 0x40, 0x09, 0x21, 0xfb, 0x54, 0x44, 0x2d, 0x18]);
    let mut r = ClassReader::new(bytes);
    let pool = r.read_constant_pool().unwrap();
    match (&pool[0], &pool[1]) {
        (ConstantPoolInfo::Float(fb), ConstantPoolInfo::Double(db)) => {
            assert_eq!(f32::from_bits(*fb), 1.0f32);
            assert!((f64::from_bits(*db) - core::f64::consts::PI).abs() < 1e-15);
        },
        other => panic!("unexpected pool {:?}", other),
    }
    assert_eq!(pool[2], ConstantPoolInfo::Invalid);
}

#[test]
fn long_extreme_values() {
    let mut bytes: Vec<u8> = vec![0x00, 0x05];
    bytes.extend_from_slice(&[5, 0x80, 0, 0, 0, 0, 0, 0, 0]);
    bytes.extend_from_slice(&[5, 0x7f, 0xff, 0xff, 0xff, 0xff, 0xff, 0xff, 0xff]);
    let mut r = ClassReader::new(bytes);
    let pool = r.read_constant_pool().unwrap();
    assert_eq!(pool[0], ConstantPoolInfo::Long(i64::MIN));
    assert_eq!(pool[2], ConstantPoolInfo::Long(i64::MAX));
}

#[test]
fn pool_text_with_multi_byte_characters() {
    let mut bytes: Vec<u8> = vec![0x00, 0x02];
    bytes.extend_from_slice(&[1, 0x00, 0x03, 0x61, 0xc3, 0xa9]); // "a" + U+00E9
    let mut r = ClassReader::new(bytes);
    let pool = r.read_constant_pool().unwrap();
    assert_eq!(pool[0], ConstantPoolInfo::Utf8("a\u{e9}".to_string()));
}

#[test]
fn empty_pool_via_zero_raw_count() {
    // A raw count of zero owes no slots at all.
    let mut r = ClassReader::new(vec![0x00, 0x00]);
    assert_eq!(r.read_constant_pool(), Ok(vec![]));
    let mut r1 = ClassReader::new(vec![0x00, 0x01]);
    assert_eq!(r1.read_constant_pool(), Ok(vec![]));
}
