//! End-to-end checks: a minimal synthetic class, re-decoding stability,
//! truncation fatality, and the modifier predicates.

use classreader::reader::ClassReader;
use classreader::Attribute;
use classreader::Class;
use classreader::ConstantPoolInfo;
use classreader::Field;
use classreader::InnerClass;
use classreader::Instruction;
use classreader::Method;
use classreader::ParseError;

/// A minimal class: magic, versions 0/52, a 2-entry constant pool whose
/// first entry is the text "Code", no fields, one method carrying a `Code`
/// attribute with `iconst_0; ireturn`, and no further attributes.
fn synthetic_class() -> Vec<u8> {
    let mut b: Vec<u8> = vec![];
    b.extend_from_slice(&[0xca, 0xfe, 0xba, 0xbe]); // magic
    b.extend_from_slice(&[0x00, 0x00]); // minor 0
    b.extend_from_slice(&[0x00, 0x34]); // major 52
    b.extend_from_slice(&[0x00, 0x03]); // raw pool count: two entries
    b.extend_from_slice(&[1, 0x00, 0x04]);
    b.extend_from_slice(b"Code");
    b.extend_from_slice(&[3, 0x00, 0x00, 0x00, 0x07]); // Integer 7
    b.extend_from_slice(&[0x00, 0x21]); // access flags: public | super
    b.extend_from_slice(&[0x00, 0x02]); // this class
    b.extend_from_slice(&[0x00, 0x00]); // super class
    b.extend_from_slice(&[0x00, 0x00]); // no interfaces
    b.extend_from_slice(&[0x00, 0x00]); // no fields
    b.extend_from_slice(&[0x00, 0x01]); // one method
    b.extend_from_slice(&[0x00, 0x09]); // method access: public static
    b.extend_from_slice(&[0x00, 0x02]); // name index
    b.extend_from_slice(&[0x00, 0x02]); // descriptor index
    b.extend_from_slice(&[0x00, 0x01]); // one method attribute
    b.extend_from_slice(&[0x00, 0x01]); // attribute name: "Code"
    b.extend_from_slice(&[0x00, 0x00, 0x00, 0x0e]); // declared length
    b.extend_from_slice(&[0x00, 0x02]); // max stack
    b.extend_from_slice(&[0x00, 0x03]); // max locals
    b.extend_from_slice(&[0x00, 0x00, 0x00, 0x02]); // code length
    b.extend_from_slice(&[0x03, 0xac]); // iconst_0; ireturn
    b.extend_from_slice(&[0x00, 0x00]); // no exception handlers
    b.extend_from_slice(&[0x00, 0x00]); // no nested attributes
    b.extend_from_slice(&[0x00, 0x00]); // no class attributes
    b
}

#[test]
fn minimal_class_decodes_end_to_end() {
    let c = ClassReader::new_from_bytes(synthetic_class()).unwrap();
    assert_eq!(c.magic, 0xcafebabe);
    assert_eq!(c.minor_version, 0);
    assert_eq!(c.major_version, 52);
    assert_eq!(c.constant_pool, vec![
        ConstantPoolInfo::Utf8("Code".to_string()),
        ConstantPoolInfo::Integer(7),
    ]);
    assert_eq!(c.access_flags, 0x21);
    assert_eq!(c.this_class, 2);
    assert_eq!(c.super_class, 0);
    assert_eq!(c.interfaces, Vec::<u16>::new());
    assert_eq!(c.fields.len(), 0);
    assert_eq!(c.methods.len(), 1);
    assert_eq!(c.attributes.len(), 0);
    let m = &c.methods[0];
    assert_eq!(m.access_flags, 9);
    assert_eq!(m.name_index, 2);
    assert_eq!(m.descriptor_index, 2);
    assert_eq!(m.attributes.len(), 1);
    match &m.attributes[0] {
        Attribute::Code { max_stack, max_locals, code, exception_table, attributes } => {
            assert_eq!(*max_stack, 2);
            assert_eq!(*max_locals, 3);
            assert_eq!(code, &vec![(0u32, Instruction::iconst_0), (1u32, Instruction::ireturn)]);
            assert_eq!(exception_table.len(), 0);
            assert_eq!(attributes.len(), 0);
        },
        other => panic!("expected a Code attribute, got {:?}", other),
    }
}

#[test]
fn decoding_twice_yields_structurally_equal_classes() {
    let c1 = ClassReader::new_from_bytes(synthetic_class()).unwrap();
    let c2 = ClassReader::new_from_bytes(synthetic_class()).unwrap();
    assert_eq!(c1, c2);
}

#[test]
fn trailing_bytes_are_ignored() {
    let mut b = synthetic_class();
    b.extend_from_slice(&[1, 2, 3]);
    let c = ClassReader::new_from_bytes(b).unwrap();
    assert_eq!(c.methods.len(), 1);
}

#[test]
fn every_truncation_is_io_exhaustion() {
    let full = synthetic_class();
    for n in 0..full.len() {
        let prefix: Vec<u8> = full[..n].to_vec();
        assert_eq!(ClassReader::new_from_bytes(prefix), Err(ParseError::Io),
            "prefix of length {} must fail with exhaustion", n);
    }
}

#[test]
fn magic_is_stored_not_validated() {
    let mut b = synthetic_class();
    b[0] = 0x00;
    let c = ClassReader::new_from_bytes(b).unwrap();
    assert_eq!(c.magic, 0x00febabe);
}

#[test]
fn empty_input_is_io_exhaustion() {
    assert_eq!(ClassReader::new_from_bytes(vec![]), Err(ParseError::Io));
}

#[test]
fn class_modifier_predicates() {
    let c = ClassReader::new_from_bytes(synthetic_class()).unwrap();
    assert!(c.is_public());
    assert!(c.is_super());
    assert!(!c.is_final());
    assert!(!c.is_interface());
    assert!(!c.is_abstract());
    assert!(!c.is_synthetic());
    assert!(!c.is_annotation());
    assert!(!c.is_enum());
}

#[test]
fn field_modifier_predicates() {
    let f = Field {
        access_flags: 0x0001 | 0x0008 | 0x0010 | 0x0040,
        name_index: 1,
        descriptor_index: 2,
        attributes: vec![],
    };
    assert!(f.is_public());
    assert!(!f.is_private());
    assert!(!f.is_protected());
    assert!(f.is_static());
    assert!(f.is_final());
    assert!(f.is_volatile());
    assert!(!f.is_transient());
    assert!(!f.is_synthetic());
    assert!(!f.is_enum());
}

#[test]
fn method_modifier_predicates() {
    let m = Method {
        access_flags: 0x0002 | 0x0020 | 0x0080 | 0x0400,
        name_index: 1,
        descriptor_index: 2,
        attributes: vec![],
    };
    assert!(!m.is_public());
    assert!(m.is_private());
    assert!(m.is_synchronized());
    assert!(m.is_varargs());
    assert!(m.is_abstract());
    assert!(!m.is_static());
    assert!(!m.is_final());
    assert!(!m.is_bridge());
    assert!(!m.is_native());
    assert!(!m.is_strict());
    assert!(!m.is_synthetic());
}

#[test]
fn inner_class_modifier_predicates() {
    let ic = InnerClass {
        inner_class_info_index: 1,
        outer_class_info_index: 2,
        inner_name_index: 3,
        inner_class_access_flags: 0x0200 | 0x0400,
    };
    assert!(ic.is_interface());
    assert!(ic.is_abstract());
    assert!(!ic.is_public());
    assert!(!ic.is_static());
    assert!(!ic.is_enum());
}

#[test]
fn class_with_interfaces_and_field() {
    let mut b: Vec<u8> = vec![];
    b.extend_from_slice(&[0xca, 0xfe, 0xba, 0xbe, 0x00, 0x01, 0x00, 0x32]);
    b.extend_from_slice(&[0x00, 0x02]); // one pool entry
    b.extend_from_slice(&[7, 0x00, 0x05]); // Class(5)
    b.extend_from_slice(&[0x00, 0x00]); // flags
    b.extend_from_slice(&[0x00, 0x01, 0x00, 0x00]); // this, super
    b.extend_from_slice(&[0x00, 0x02, 0x00, 0x01, 0x00, 0x01]); // two interfaces
    b.extend_from_slice(&[0x00, 0x01]); // one field
    b.extend_from_slice(&[0x00, 0x02, 0x00, 0x03, 0x00, 0x04, 0x00, 0x00]);
    b.extend_from_slice(&[0x00, 0x00]); // no methods
    b.extend_from_slice(&[0x00, 0x00]); // no attributes
    let c = ClassReader::new_from_bytes(b).unwrap();
    assert_eq!(c.minor_version, 1);
    assert_eq!(c.major_version, 50);
    assert_eq!(c.constant_pool, vec![ConstantPoolInfo::Class(5)]);
    assert_eq!(c.interfaces, vec![1, 1]);
    assert_eq!(c.fields, vec![Field {
        access_flags: 2,
        name_index: 3,
        descriptor_index: 4,
        attributes: vec![],
    }]);
}

#[test]
fn error_deep_in_a_method_attribute_aborts_the_whole_decode() {
    let mut b = synthetic_class();
    // corrupt the first code byte into an unknown opcode
    let n = b.len();
    b[n - 8] = 0xff;
    assert_eq!(ClassReader::new_from_bytes(b), Err(ParseError::UnknownOpcode(0xff, 0)));
}

#[test]
fn debug_rendering_is_available() {
    let c: Class = ClassReader::new_from_bytes(synthetic_class()).unwrap();
    let text = format!("{:?}", c);
    assert!(text.contains("iconst_0"));
    assert!(text.contains("Utf8"));
}
