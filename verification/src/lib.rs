//! A decoder for the JVM class-file container format: header, constant pool,
//! fields, methods, attributes (including nested `Code` attributes), and the
//! bytecode instruction stream.
//!
//! Every decoding function is specified against a byte-level grammar written
//! as spec functions over `Seq<u8>`; decoding either yields a value that the
//! grammar relates to the input bytes, or the precise error the grammar
//! assigns to them.

pub mod error;
pub mod model;
pub mod mutf8;
pub mod nums;
pub mod decode;
pub mod grammar;
pub mod reader;

pub use decode::decode_code;
pub use mutf8::read_modified_utf8;
pub use reader::ClassReader;
pub use error::ParseError;
pub use error::ParseResult;
pub use model::Annotation;
pub use model::ArrayType;
pub use model::Attribute;
pub use model::BootstrapMethod;
pub use model::Class;
pub use model::ConstantPoolInfo;
pub use model::ElementValue;
pub use model::ElementValuePair;
pub use model::Exception;
pub use model::Field;
pub use model::InnerClass;
pub use model::Instruction;
pub use model::LineNumber;
pub use model::LocalVariable;
pub use model::LocalVariableTarget;
pub use model::Method;
pub use model::MethodParameter;
pub use model::PathElement;
pub use model::StackMapFrame;
pub use model::TargetInfo;
pub use model::TargetType;
pub use model::TypeAnnotation;
pub use model::TypePath;
pub use model::TypePathKind;
pub use model::VerificationType;
