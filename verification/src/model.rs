//! The decoded data model: a `Class` value and everything it owns.
//!
//! All entities are plain immutable value aggregates once constructed.
//! Ownership is strictly tree-shaped; constant-pool references are non-owning
//! 1-based integer indices into the pool.
//!
//! The two floating-point constant kinds carry their raw big-endian IEEE-754
//! bit patterns (`u32` / `u64`); interpreting the bits as a number is left to
//! the caller.

use vstd::prelude::*;

verus! {

/// A fully decoded class file.
#[derive(Debug, PartialEq)]
pub struct Class {
    pub magic: u32,
    pub minor_version: u16,
    pub major_version: u16,
    pub constant_pool: Vec<ConstantPoolInfo>,
    pub access_flags: u16,
    pub this_class: u16,
    pub super_class: u16,
    pub interfaces: Vec<u16>,
    pub fields: Vec<Field>,
    pub methods: Vec<Method>,
    pub attributes: Vec<Attribute>,
}

impl Class {
    pub fn is_public(&self) -> (r: bool)
        ensures
            r == (self.access_flags & 0x0001 == 0x0001),
    {
        self.access_flags & 0x0001 == 0x0001
    }

    pub fn is_final(&self) -> (r: bool)
        ensures
            r == (self.access_flags & 0x0010 == 0x0010),
    {
        self.access_flags & 0x0010 == 0x0010
    }

    pub fn is_super(&self) -> (r: bool)
        ensures
            r == (self.access_flags & 0x0020 == 0x0020),
    {
        self.access_flags & 0x0020 == 0x0020
    }

    pub fn is_interface(&self) -> (r: bool)
        ensures
            r == (self.access_flags & 0x0200 == 0x0200),
    {
        self.access_flags & 0x0200 == 0x0200
    }

    pub fn is_abstract(&self) -> (r: bool)
        ensures
            r == (self.access_flags & 0x0400 == 0x0400),
    {
        self.access_flags & 0x0400 == 0x0400
    }

    pub fn is_synthetic(&self) -> (r: bool)
        ensures
            r == (self.access_flags & 0x1000 == 0x1000),
    {
        self.access_flags & 0x1000 == 0x1000
    }

    pub fn is_annotation(&self) -> (r: bool)
        ensures
            r == (self.access_flags & 0x2000 == 0x2000),
    {
        self.access_flags & 0x2000 == 0x2000
    }

    pub fn is_enum(&self) -> (r: bool)
        ensures
            r == (self.access_flags & 0x4000 == 0x4000),
    {
        self.access_flags & 0x4000 == 0x4000
    }
}

/// One constant-pool record.
///
/// A `Long` or `Double` entry occupies two consecutive 1-based index slots;
/// the decoder keeps later indices aligned by storing an `Invalid` filler in
/// the slot after such an entry. `Invalid` never arises from a tag byte.
#[derive(Debug, Clone, PartialEq)]
pub enum ConstantPoolInfo {
    /// Tag 1: decoded text.
    Utf8(String),
    /// Tag 3: a 32-bit integer.
    Integer(i32),
    /// Tag 4: the big-endian bit pattern of a 32-bit float.
    Float(u32),
    /// Tag 5: a 64-bit integer (two slots).
    Long(i64),
    /// Tag 6: the big-endian bit pattern of a 64-bit float (two slots).
    Double(u64),
    /// Tag 7: a class reference (name index).
    Class(u16),
    /// Tag 8: a string reference (text index).
    Str(u16),
    /// Tag 9: a field reference (class index, name-and-type index).
    Fieldref(u16, u16),
    /// Tag 10: a method reference (class index, name-and-type index).
    Methodref(u16, u16),
    /// Tag 11: an interface-method reference.
    InterfaceMethodref(u16, u16),
    /// Tag 12: a name-and-type record (name index, descriptor index).
    NameAndType(u16, u16),
    /// Tag 15: a method handle (reference kind, reference index).
    MethodHandle(u8, u16),
    /// Tag 16: a method type (descriptor index).
    MethodType(u16),
    /// Tag 18: an invoke-dynamic record (bootstrap-method index,
    /// name-and-type index).
    InvokeDynamic(u16, u16),
    /// The filler slot synthesized after a `Long` or `Double` entry.
    Invalid,
}

impl ConstantPoolInfo {
    /// Whether this entry consumes two consecutive index slots.
    pub fn is_double_length(&self) -> (r: bool)
        ensures
            r == (self is Long || self is Double),
    {
        match self {
            ConstantPoolInfo::Long(_) => true,
            ConstantPoolInfo::Double(_) => true,
            _ => false,
        }
    }
}

/// One entry of the field table.
#[derive(Debug, PartialEq)]
pub struct Field {
    pub access_flags: u16,
    pub name_index: u16,
    pub descriptor_index: u16,
    pub attributes: Vec<Attribute>,
}

impl Field {
    pub fn is_public(&self) -> (r: bool)
        ensures
            r == (self.access_flags & 0x0001 == 0x0001),
    {
        self.access_flags & 0x0001 == 0x0001
    }

    pub fn is_private(&self) -> (r: bool)
        ensures
            r == (self.access_flags & 0x0002 == 0x0002),
    {
        self.access_flags & 0x0002 == 0x0002
    }

    pub fn is_protected(&self) -> (r: bool)
        ensures
            r == (self.access_flags & 0x0004 == 0x0004),
    {
        self.access_flags & 0x0004 == 0x0004
    }

    pub fn is_static(&self) -> (r: bool)
        ensures
            r == (self.access_flags & 0x0008 == 0x0008),
    {
        self.access_flags & 0x0008 == 0x0008
    }

    pub fn is_final(&self) -> (r: bool)
        ensures
            r == (self.access_flags & 0x0010 == 0x0010),
    {
        self.access_flags & 0x0010 == 0x0010
    }

    pub fn is_volatile(&self) -> (r: bool)
        ensures
            r == (self.access_flags & 0x0040 == 0x0040),
    {
        self.access_flags & 0x0040 == 0x0040
    }

    pub fn is_transient(&self) -> (r: bool)
        ensures
            r == (self.access_flags & 0x0080 == 0x0080),
    {
        self.access_flags & 0x0080 == 0x0080
    }

    pub fn is_synthetic(&self) -> (r: bool)
        ensures
            r == (self.access_flags & 0x1000 == 0x1000),
    {
        self.access_flags & 0x1000 == 0x1000
    }

    pub fn is_enum(&self) -> (r: bool)
        ensures
            r == (self.access_flags & 0x4000 == 0x4000),
    {
        self.access_flags & 0x4000 == 0x4000
    }
}

/// One entry of the method table.
#[derive(Debug, PartialEq)]
pub struct Method {
    pub access_flags: u16,
    pub name_index: u16,
    pub descriptor_index: u16,
    pub attributes: Vec<Attribute>,
}

impl Method {
    pub fn is_public(&self) -> (r: bool)
        ensures
            r == (self.access_flags & 0x0001 == 0x0001),
    {
        self.access_flags & 0x0001 == 0x0001
    }

    pub fn is_private(&self) -> (r: bool)
        ensures
            r == (self.access_flags & 0x0002 == 0x0002),
    {
        self.access_flags & 0x0002 == 0x0002
    }

    pub fn is_protected(&self) -> (r: bool)
        ensures
            r == (self.access_flags & 0x0004 == 0x0004),
    {
        self.access_flags & 0x0004 == 0x0004
    }

    pub fn is_static(&self) -> (r: bool)
        ensures
            r == (self.access_flags & 0x0008 == 0x0008),
    {
        self.access_flags & 0x0008 == 0x0008
    }

    pub fn is_final(&self) -> (r: bool)
        ensures
            r == (self.access_flags & 0x0010 == 0x0010),
    {
        self.access_flags & 0x0010 == 0x0010
    }

    pub fn is_synchronized(&self) -> (r: bool)
        ensures
            r == (self.access_flags & 0x0020 == 0x0020),
    {
        self.access_flags & 0x0020 == 0x0020
    }

    pub fn is_bridge(&self) -> (r: bool)
        ensures
            r == (self.access_flags & 0x0040 == 0x0040),
    {
        self.access_flags & 0x0040 == 0x0040
    }

    pub fn is_varargs(&self) -> (r: bool)
        ensures
            r == (self.access_flags & 0x0080 == 0x0080),
    {
        self.access_flags & 0x0080 == 0x0080
    }

    pub fn is_native(&self) -> (r: bool)
        ensures
            r == (self.access_flags & 0x1000 == 0x1000),
    {
        self.access_flags & 0x1000 == 0x1000
    }

    pub fn is_abstract(&self) -> (r: bool)
        ensures
            r == (self.access_flags & 0x0400 == 0x0400),
    {
        self.access_flags & 0x0400 == 0x0400
    }

    pub fn is_strict(&self) -> (r: bool)
        ensures
            r == (self.access_flags & 0x0800 == 0x0800),
    {
        self.access_flags & 0x0800 == 0x0800
    }

    pub fn is_synthetic(&self) -> (r: bool)
        ensures
            r == (self.access_flags & 0x1000 == 0x1000),
    {
        self.access_flags & 0x1000 == 0x1000
    }
}

/// A named metadata record attached to a class, field, method, or `Code`
/// attribute. Unrecognized names decode to `Unknown` with the raw payload.
#[derive(Debug, PartialEq)]
pub enum Attribute {
    ConstantValue { constvalue_index: u16 },
    Code {
        max_stack: u16,
        max_locals: u16,
        code: Vec<(u32, Instruction)>,
        exception_table: Vec<Exception>,
        attributes: Vec<Attribute>,
    },
    StackMapTable(Vec<StackMapFrame>),
    Exceptions { exception_index_table: Vec<u16> },
    InnerClasses { classes: Vec<InnerClass> },
    EnclosingMethod { class_index: u16, method_index: u16 },
    Synthetic,
    Signature { signature_index: u16 },
    SourceFile { sourcefile_index: u16 },
    SourceDebugExtension(Vec<u8>),
    LineNumberTable(Vec<LineNumber>),
    LocalVariableTable(Vec<LocalVariable>),
    LocalVariableTypeTable(Vec<LocalVariable>),
    Deprecated,
    RuntimeVisibleAnnotations(Vec<Annotation>),
    RuntimeInvisibleAnnotations(Vec<Annotation>),
    RuntimeVisibleParameterAnnotations(Vec<Vec<Annotation>>),
    RuntimeInvisibleParameterAnnotations(Vec<Vec<Annotation>>),
    RuntimeVisibleTypeAnnotations(Vec<TypeAnnotation>),
    RuntimeInvisibleTypeAnnotations(Vec<TypeAnnotation>),
    AnnotationDefault { element_value: ElementValue },
    BootstrapMethods(Vec<BootstrapMethod>),
    MethodParameters(Vec<MethodParameter>),
    Unknown(Vec<u8>),
}

/// One exception-handler table entry of a `Code` attribute.
#[derive(Debug, Clone, Copy, PartialEq, Eq, Structural)]
pub struct Exception {
    pub start_pc: u16,
    pub end_pc: u16,
    pub handler_pc: u16,
    pub catch_type: u16,
}

/// One stack-map frame, selected by the leading tag byte:
/// 0–63 same, 64–127 same with one stack item, 247 extended one-item,
/// 248–250 chop, 251 same extended, 252–254 append, 255 full.
#[derive(Debug, Clone, PartialEq)]
pub enum StackMapFrame {
    SameFrame,
    SameLocals1StackItemFrame(VerificationType),
    SameLocals1StackItemFrameExtended { offset_delta: u16, stack: VerificationType },
    ChopFrame { offset_delta: u16 },
    SameFrameExtended { offset_delta: u16 },
    AppendFrame { offset_delta: u16, locals: Vec<VerificationType> },
    FullFrame {
        offset_delta: u16,
        locals: Vec<VerificationType>,
        stack: Vec<VerificationType>,
    },
}

/// One verification-type descriptor of a stack-map frame, tags 0–8.
#[derive(Debug, Clone, Copy, PartialEq, Eq, Structural)]
pub enum VerificationType {
    Top,
    Integer,
    Float,
    Double,
    Long,
    Null,
    UninitializedThis,
    Object { index: u16 },
    UninitializedVariable { offset: u16 },
}

/// One entry of an `InnerClasses` attribute.
#[derive(Debug, Clone, Copy, PartialEq, Eq, Structural)]
pub struct InnerClass {
    pub inner_class_info_index: u16,
    pub outer_class_info_index: u16,
    pub inner_name_index: u16,
    pub inner_class_access_flags: u16,
}

impl InnerClass {
    pub fn is_public(&self) -> (r: bool)
        ensures
            r == (self.inner_class_access_flags & 0x0001 == 0x0001),
    {
        self.inner_class_access_flags & 0x0001 == 0x0001
    }

    pub fn is_private(&self) -> (r: bool)
        ensures
            r == (self.inner_class_access_flags & 0x0002 == 0x0002),
    {
        self.inner_class_access_flags & 0x0002 == 0x0002
    }

    pub fn is_protected(&self) -> (r: bool)
        ensures
            r == (self.inner_class_access_flags & 0x0004 == 0x0004),
    {
        self.inner_class_access_flags & 0x0004 == 0x0004
    }

    pub fn is_static(&self) -> (r: bool)
        ensures
            r == (self.inner_class_access_flags & 0x0008 == 0x0008),
    {
        self.inner_class_access_flags & 0x0008 == 0x0008
    }

    pub fn is_final(&self) -> (r: bool)
        ensures
            r == (self.inner_class_access_flags & 0x0010 == 0x0010),
    {
        self.inner_class_access_flags & 0x0010 == 0x0010
    }

    pub fn is_interface(&self) -> (r: bool)
        ensures
            r == (self.inner_class_access_flags & 0x0200 == 0x0200),
    {
        self.inner_class_access_flags & 0x0200 == 0x0200
    }

    pub fn is_abstract(&self) -> (r: bool)
        ensures
            r == (self.inner_class_access_flags & 0x0400 == 0x0400),
    {
        self.inner_class_access_flags & 0x0400 == 0x0400
    }

    pub fn is_synthetic(&self) -> (r: bool)
        ensures
            r == (self.inner_class_access_flags & 0x1000 == 0x1000),
    {
        self.inner_class_access_flags & 0x1000 == 0x1000
    }

    pub fn is_annotation(&self) -> (r: bool)
        ensures
            r == (self.inner_class_access_flags & 0x2000 == 0x2000),
    {
        self.inner_class_access_flags & 0x2000 == 0x2000
    }

    pub fn is_enum(&self) -> (r: bool)
        ensures
            r == (self.inner_class_access_flags & 0x4000 == 0x4000),
    {
        self.inner_class_access_flags & 0x4000 == 0x4000
    }
}

/// One entry of a `LineNumberTable` attribute.
#[derive(Debug, Clone, Copy, PartialEq, Eq, Structural)]
pub struct LineNumber {
    pub start_pc: u16,
    pub line_number: u16,
}

/// One entry of a `LocalVariableTable` or `LocalVariableTypeTable`
/// attribute; the two layouts are identical, only the attribute name
/// distinguishes them.
#[derive(Debug, Clone, Copy, PartialEq, Eq, Structural)]
pub struct LocalVariable {
    pub start_pc: u16,
    pub length: u16,
    pub name_index: u16,
    pub descriptor_or_signature_index: u16,
    pub index: u16,
}

/// An annotation: a type reference plus named element values.
#[derive(Debug, PartialEq)]
pub struct Annotation {
    pub type_index: u16,
    pub element_value_pairs: Vec<ElementValuePair>,
}

/// An annotation on a type use, with a target discriminator, a
/// target-info payload shaped by that discriminator, and a type path.
#[derive(Debug, PartialEq)]
pub struct TypeAnnotation {
    pub target_type: TargetType,
    pub target_info: TargetInfo,
    pub type_path: TypePath,
    pub type_index: u16,
    pub element_value_pairs: Vec<ElementValuePair>,
}

/// One named element value of an annotation.
#[derive(Debug, PartialEq)]
pub struct ElementValuePair {
    pub element_name_index: u16,
    pub value: ElementValue,
}

/// The value of an annotation element; may recursively hold annotations
/// or arrays of values.
#[derive(Debug, PartialEq)]
pub enum ElementValue {
    Constant { const_value_index: u16 },
    EnumConstant { type_name_index: u16, const_name_index: u16 },
    Class { class_info_index: u16 },
    Annotation(Annotation),
    Array(Vec<ElementValue>),
}

/// The target-type discriminator of a type annotation.
#[derive(Debug, Clone, Copy, PartialEq, Eq, Structural)]
pub enum TargetType {
    Type,
    Method,
    Supertype,
    TypeBound,
    MethodBound,
    Field,
    MethodReturnType,
    ReceiverType,
    Parameter,
    Throws,
    LocalVariableDeclaration,
    ResourceVariableDeclaration,
    ExceptionParameterDeclaration,
    Instanceof,
    New,
    MethodReferenceNew,
    MethodReference,
    Cast,
    ConstructorArgument,
    MethodArgument,
    MethodReferenceNewArgument,
    MethodReferenceArgument,
}

/// The target-info payload of a type annotation, shaped by the
/// target-type discriminator.
#[derive(Debug, PartialEq)]
pub enum TargetInfo {
    TypeParameter { index: u8 },
    Supertype { index: u16 },
    TypeParameterBound { index: u8, bound_index: u8 },
    Empty,
    MethodFormalParameter { index: u8 },
    Throws { type_index: u16 },
    Localvar(Vec<LocalVariableTarget>),
    Catch { exception_table_index: u16 },
    Offset(u16),
    TypeArgument { offset: u16, index: u8 },
}

/// The path from a type to the annotated part of the type.
#[derive(Debug, Clone, PartialEq)]
pub struct TypePath {
    pub path: Vec<PathElement>,
}

/// One navigation step of a type path.
#[derive(Debug, Clone, Copy, PartialEq, Eq, Structural)]
pub struct PathElement {
    pub kind: TypePathKind,
    pub argument_index: u8,
}

/// The kind of one type-path step, tags 0–3.
#[derive(Debug, Clone, Copy, PartialEq, Eq, Structural)]
pub enum TypePathKind {
    Array,
    Nested,
    WildcardBound,
    TypeArgument,
}

/// One local-variable range of a type-annotation localvar target.
#[derive(Debug, Clone, Copy, PartialEq, Eq, Structural)]
pub struct LocalVariableTarget {
    pub start_pc: u16,
    pub length: u16,
    pub index: u16,
}

/// One entry of a `BootstrapMethods` attribute.
#[derive(Debug, Clone, PartialEq)]
pub struct BootstrapMethod {
    pub method_ref: u16,
    pub arguments: Vec<u16>,
}

/// One entry of a `MethodParameters` attribute.
#[derive(Debug, Clone, Copy, PartialEq, Eq, Structural)]
pub struct MethodParameter {
    pub name_index: u16,
    pub access_flags: u16,
}

/// One decoded bytecode instruction, one case per opcode, each carrying
/// exactly the operand fields its encoding defines. The `*_w` cases are the
/// `wide`-prefixed forms with 16-bit operands.
#[derive(Debug, Clone, PartialEq)]
#[allow(non_camel_case_types)]
pub enum Instruction {
    aaload,
    aastore,
    aconst_null,
    aload(u8),
    aload_0,
    aload_1,
    aload_2,
    aload_3,
    anewarray(u16),
    areturn,
    arraylength,
    astore(u8),
    astore_0,
    astore_1,
    astore_2,
    astore_3,
    athrow,
    baload,
    bastore,
    bipush(i8),
    caload,
    castore,
    checkcast(u16),
    d2f,
    d2i,
    d2l,
    dadd,
    daload,
    dastore,
    dcmpg,
    dcmpl,
    dconst_0,
    dconst_1,
    ddiv,
    dload(u8),
    dload_0,
    dload_1,
    dload_2,
    dload_3,
    dmul,
    dneg,
    drem,
    dreturn,
    dstore(u8),
    dstore_0,
    dstore_1,
    dstore_2,
    dstore_3,
    dsub,
    dup,
    dup_x1,
    dup_x2,
    dup2,
    dup2_x1,
    dup2_x2,
    f2d,
    f2i,
    f2l,
    fadd,
    faload,
    fastore,
    fcmpg,
    fcmpl,
    fconst_0,
    fconst_1,
    fconst_2,
    fdiv,
    fload(u8),
    fload_0,
    fload_1,
    fload_2,
    fload_3,
    fmul,
    fneg,
    frem,
    freturn,
    fstore(u8),
    fstore_0,
    fstore_1,
    fstore_2,
    fstore_3,
    fsub,
    getfield(u16),
    getstatic(u16),
    goto(i16),
    goto_w(i32),
    i2b,
    i2c,
    i2d,
    i2f,
    i2l,
    i2s,
    iadd,
    iaload,
    iand,
    iastore,
    iconst_m1,
    iconst_0,
    iconst_1,
    iconst_2,
    iconst_3,
    iconst_4,
    iconst_5,
    idiv,
    if_acmpeq(i16),
    if_acmpne(i16),
    if_icmpeq(i16),
    if_icmpne(i16),
    if_icmplt(i16),
    if_icmpge(i16),
    if_icmpgt(i16),
    if_icmple(i16),
    ifeq(i16),
    ifne(i16),
    iflt(i16),
    ifge(i16),
    ifgt(i16),
    ifle(i16),
    ifnonnull(i16),
    ifnull(i16),
    iinc(u8, i8),
    iload(u8),
    iload_0,
    iload_1,
    iload_2,
    iload_3,
    imul,
    ineg,
    instanceof(u16),
    invokedynamic(u16),
    invokeinterface(u16, u8),
    invokespecial(u16),
    invokestatic(u16),
    invokevirtual(u16),
    ior,
    irem,
    ireturn,
    ishl,
    ishr,
    istore(u8),
    istore_0,
    istore_1,
    istore_2,
    istore_3,
    isub,
    iushr,
    ixor,
    jsr(i16),
    jsr_w(i32),
    l2d,
    l2f,
    l2i,
    ladd,
    laload,
    land,
    lastore,
    lcmp,
    lconst_0,
    lconst_1,
    ldc(u8),
    ldc_w(u16),
    ldc2_w(u16),
    ldiv,
    lload(u8),
    lload_0,
    lload_1,
    lload_2,
    lload_3,
    lmul,
    lneg,
    lookupswitch(i32, Vec<(i32, i32)>),
    lor,
    lrem,
    lreturn,
    lshl,
    lshr,
    lstore(u8),
    lstore_0,
    lstore_1,
    lstore_2,
    lstore_3,
    lsub,
    lushr,
    lxor,
    monitorenter,
    monitorexit,
    multianewarray(u16, u8),
    new(u16),
    newarray(ArrayType),
    nop,
    pop,
    pop2,
    putfield(u16),
    putstatic(u16),
    ret(u8),
    return_,
    saload,
    sastore,
    sipush(i16),
    swap,
    tableswitch(i32, i32, Vec<i32>),
    iload_w(u16),
    fload_w(u16),
    aload_w(u16),
    lload_w(u16),
    dload_w(u16),
    istore_w(u16),
    fstore_w(u16),
    astore_w(u16),
    lstore_w(u16),
    dstore_w(u16),
    ret_w(u16),
    iinc_w(u16, i16),
}

/// The primitive element kind of a `newarray` instruction, tags 4–11.
#[derive(Debug, Clone, Copy, PartialEq, Eq, Structural)]
pub enum ArrayType {
    Boolean,
    Char,
    Float,
    Double,
    Byte,
    Short,
    Int,
    Long,
}

} // verus!
