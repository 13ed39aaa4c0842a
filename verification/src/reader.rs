//! The sequential byte cursor and the class-file decoder built on it.
//!
//! `ClassReader` reads fixed-width big-endian fields and exact-length byte
//! runs, advancing by exactly what it consumes; reading past the end of the
//! input fails with `ParseError::Io`. Every decoding method is proved
//! against the corresponding relation of the byte grammar.

use vstd::prelude::*;
use vstd::string::StringExecFns;

use crate::error::ParseError;
use crate::error::ParseResult;
use crate::grammar::ann_group_at;
use crate::grammar::annotation_at;
use crate::grammar::attribute_at;
use crate::grammar::attrs_section_at;
use crate::grammar::class_file_at;
use crate::grammar::class_body_at;
use crate::grammar::code_attribute_at;
use crate::grammar::bootstrap_method_at;
use crate::grammar::boundaries;
use crate::grammar::boundary;
use crate::grammar::cp_entry_at;
use crate::grammar::cp_section_at;
use crate::grammar::element_value_at;
use crate::grammar::evpair_at;
use crate::grammar::exceptions_at;
use crate::grammar::fails_ann_groups;
use crate::grammar::fails_anns;
use crate::grammar::fails_attrs;
use crate::grammar::fails_bsms;
use crate::grammar::fails_cp;
use crate::grammar::fails_evps;
use crate::grammar::fails_evs;
use crate::grammar::fails_fields;
use crate::grammar::fails_frames;
use crate::grammar::fails_methods;
use crate::grammar::fails_path_elems;
use crate::grammar::fails_tanns;
use crate::grammar::fails_vts;
use crate::grammar::field_at;
use crate::grammar::fields_section_at;
use crate::grammar::frame_at;
use crate::grammar::inner_classes_at;
use crate::grammar::lemma_span_ann_groups_snoc;
use crate::grammar::lemma_span_ann_groups_then_fails;
use crate::grammar::lemma_span_anns_snoc;
use crate::grammar::lemma_span_anns_then_fails;
use crate::grammar::lemma_span_attrs_snoc;
use crate::grammar::lemma_span_attrs_then_fails;
use crate::grammar::lemma_span_bsms_snoc;
use crate::grammar::lemma_span_bsms_then_fails;
use crate::grammar::lemma_span_cp_snoc;
use crate::grammar::lemma_span_cp_snoc_double;
use crate::grammar::lemma_span_cp_then_fails;
use crate::grammar::lemma_span_evps_snoc;
use crate::grammar::lemma_span_evps_then_fails;
use crate::grammar::lemma_span_evs_snoc;
use crate::grammar::lemma_span_evs_then_fails;
use crate::grammar::lemma_span_fields_snoc;
use crate::grammar::lemma_span_fields_then_fails;
use crate::grammar::lemma_span_frames_snoc;
use crate::grammar::lemma_span_frames_then_fails;
use crate::grammar::lemma_span_methods_snoc;
use crate::grammar::lemma_span_methods_then_fails;
use crate::grammar::lemma_span_path_elems_snoc;
use crate::grammar::lemma_span_path_elems_then_fails;
use crate::grammar::lemma_span_tanns_snoc;
use crate::grammar::lemma_span_tanns_then_fails;
use crate::grammar::lemma_span_vts_snoc;
use crate::grammar::lemma_span_vts_then_fails;
use crate::grammar::line_numbers_at;
use crate::grammar::local_vars_at;
use crate::grammar::localvar_targets_at;
use crate::grammar::method_at;
use crate::grammar::method_params_at;
use crate::grammar::methods_section_at;
use crate::grammar::path_element_at;
use crate::grammar::span_ann_groups;
use crate::grammar::span_anns;
use crate::grammar::span_attrs;
use crate::grammar::span_bsms;
use crate::grammar::span_cp;
use crate::grammar::span_evps;
use crate::grammar::span_evs;
use crate::grammar::span_fields;
use crate::grammar::span_frames;
use crate::grammar::span_methods;
use crate::grammar::span_path_elems;
use crate::grammar::span_tanns;
use crate::grammar::span_vts;
use crate::grammar::step_to;
use crate::grammar::target_info_at;
use crate::grammar::tann_rest_at;
use crate::grammar::type_annotation_at;
use crate::grammar::u16s_at;
use crate::grammar::vtype_at;
use crate::model::Annotation;
use crate::model::Attribute;
use crate::model::BootstrapMethod;
use crate::model::Class;
use crate::model::ConstantPoolInfo;
use crate::model::ElementValue;
use crate::model::ElementValuePair;
use crate::model::Exception;
use crate::model::Field;
use crate::model::InnerClass;
use crate::model::LineNumber;
use crate::model::LocalVariable;
use crate::model::LocalVariableTarget;
use crate::model::Method;
use crate::model::MethodParameter;
use crate::model::PathElement;
use crate::model::StackMapFrame;
use crate::model::TargetInfo;
use crate::model::TargetType;
use crate::model::TypeAnnotation;
use crate::model::TypePath;
use crate::model::TypePathKind;
use crate::model::VerificationType;
use crate::mutf8::read_modified_utf8;
use crate::nums::be_u16;
use crate::nums::be_u32;
use crate::nums::be_u64;
use crate::nums::u32_to_i32;
use crate::nums::u64_to_i64;

verus! {

/// A forward-only cursor over an in-memory class-file image.
pub struct ClassReader {
    pub bytes: Vec<u8>,
    pub position: usize,
}

impl ClassReader {
    /// The cursor never stands past the end of its input.
    pub open spec fn wf(self) -> bool {
        self.position <= self.bytes.len()
    }

    /// A cursor at the start of `bytes`.
    pub fn new(bytes: Vec<u8>) -> (r: ClassReader)
        ensures
            r.wf(),
            r.bytes@ == bytes@,
            r.position == 0,
    {
        ClassReader { bytes, position: 0 }
    }

    /// Reads one byte; fails with `Io` exactly when none is left.
    pub fn read_u8(&mut self) -> (r: ParseResult<u8>)
        requires
            old(self).wf(),
        ensures
            final(self).wf(),
            final(self).bytes@ == old(self).bytes@,
            match r {
                Ok(v) => old(self).position + 1 <= old(self).bytes@.len() && final(self).position
                    == old(self).position + 1 && v == old(self).bytes@[old(self).position as int],
                Err(e) => e == ParseError::Io && old(self).position + 1 > old(self).bytes@.len()
                    && final(self).position == old(self).position,
            },
    {
        if self.bytes.len() - self.position < 1 {
            return Err(ParseError::Io);
        }
        let v = self.bytes[self.position];
        self.position = self.position + 1;
        Ok(v)
    }

    /// Reads a big-endian 16-bit field; fails with `Io` exactly when fewer
    /// than two bytes are left.
    pub fn read_u16(&mut self) -> (r: ParseResult<u16>)
        requires
            old(self).wf(),
        ensures
            final(self).wf(),
            final(self).bytes@ == old(self).bytes@,
            match r {
                Ok(v) => old(self).position + 2 <= old(self).bytes@.len() && final(self).position
                    == old(self).position + 2 && v as int == be_u16(old(self).bytes@,
                    old(self).position as int),
                Err(e) => e == ParseError::Io && old(self).position + 2 > old(self).bytes@.len()
                    && final(self).position == old(self).position,
            },
    {
        if self.bytes.len() - self.position < 2 {
            return Err(ParseError::Io);
        }
        let p = self.position;
        let v = (self.bytes[p] as u16) * 0x100 + (self.bytes[p + 1] as u16);
        self.position = p + 2;
        Ok(v)
    }

    /// Reads a big-endian 32-bit field; fails with `Io` exactly when fewer
    /// than four bytes are left.
    pub fn read_u32(&mut self) -> (r: ParseResult<u32>)
        requires
            old(self).wf(),
        ensures
            final(self).wf(),
            final(self).bytes@ == old(self).bytes@,
            match r {
                Ok(v) => old(self).position + 4 <= old(self).bytes@.len() && final(self).position
                    == old(self).position + 4 && v as int == be_u32(old(self).bytes@,
                    old(self).position as int),
                Err(e) => e == ParseError::Io && old(self).position + 4 > old(self).bytes@.len()
                    && final(self).position == old(self).position,
            },
    {
        if self.bytes.len() - self.position < 4 {
            return Err(ParseError::Io);
        }
        let p = self.position;
        let v = (self.bytes[p] as u32) * 0x1000000 + (self.bytes[p + 1] as u32) * 0x10000
            + (self.bytes[p + 2] as u32) * 0x100 + (self.bytes[p + 3] as u32);
        self.position = p + 4;
        Ok(v)
    }

    /// Reads a big-endian 64-bit field; fails with `Io` exactly when fewer
    /// than eight bytes are left.
    pub fn read_u64(&mut self) -> (r: ParseResult<u64>)
        requires
            old(self).wf(),
        ensures
            final(self).wf(),
            final(self).bytes@ == old(self).bytes@,
            match r {
                Ok(v) => old(self).position + 8 <= old(self).bytes@.len() && final(self).position
                    == old(self).position + 8 && v as int == be_u64(old(self).bytes@,
                    old(self).position as int),
                Err(e) => e == ParseError::Io && old(self).position + 8 > old(self).bytes@.len()
                    && final(self).position == old(self).position,
            },
    {
        if self.bytes.len() - self.position < 8 {
            return Err(ParseError::Io);
        }
        let hi = match self.read_u32() {
            Ok(v) => v,
            Err(e) => {
                return Err(e);
            },
        };
        let lo = match self.read_u32() {
            Ok(v) => v,
            Err(e) => {
                return Err(e);
            },
        };
        Ok((hi as u64) * 0x100000000 + (lo as u64))
    }

    /// Reads exactly `length` bytes; fails with `Io`, moving nothing,
    /// exactly when fewer are left.
    pub fn read_bytes(&mut self, length: u32) -> (r: ParseResult<Vec<u8>>)
        requires
            old(self).wf(),
        ensures
            final(self).wf(),
            final(self).bytes@ == old(self).bytes@,
            match r {
                Ok(v) => old(self).position + length <= old(self).bytes@.len()
                    && final(self).position == old(self).position + length && v@
                    == old(self).bytes@.subrange(old(self).position as int, old(self).position
                    + length),
                Err(e) => e == ParseError::Io && old(self).position + length
                    > old(self).bytes@.len() && final(self).position == old(self).position,
            },
    {
        if ((self.bytes.len() - self.position) as u64) < length as u64 {
            return Err(ParseError::Io);
        }
        let n = length as usize;
        let base = self.position;
        let mut v: Vec<u8> = Vec::new();
        let mut k: usize = 0;
        while k < n
            invariant
                self.wf(),
                base + n <= self.bytes.len(),
                k <= n,
                v@.len() == k as int,
                forall|j: int| 0 <= j < k as int ==> v@[j] == self.bytes@[base + j],
            decreases n - k,
        {
            let byte = self.bytes[base + k];
            v.push(byte);
            k = k + 1;
        }
        self.position = base + n;
        proof {
            assert(v@ =~= self.bytes@.subrange(base as int, base + length));
        }
        Ok(v)
    }

    /// Reads the count-prefixed interface index list.
    pub fn read_interfaces(&mut self) -> (r: ParseResult<Vec<u16>>)
        requires
            old(self).wf(),
        ensures
            final(self).wf(),
            final(self).bytes@ == old(self).bytes@,
            match r {
                Ok(v) => {
                    let b = old(self).bytes@;
                    let pos = old(self).position as int;
                    &&& pos + 2 <= b.len()
                    &&& final(self).position == pos + 2 + 2 * be_u16(b, pos)
                    &&& final(self).position <= b.len()
                    &&& u16s_at(b, pos + 2, be_u16(b, pos), v@)
                },
                Err(e) => {
                    let b = old(self).bytes@;
                    let pos = old(self).position as int;
                    e == ParseError::Io && (pos + 2 > b.len() || pos + 2 + 2 * be_u16(b, pos)
                        > b.len())
                },
            },
    {
        let ghost b = self.bytes@;
        let count = match self.read_u16() {
            Ok(v) => v,
            Err(e) => {
                return Err(e);
            },
        };
        let ghost base = self.position as int;
        if ((self.bytes.len() - self.position) as u64) < 2 * (count as u64) {
            return Err(ParseError::Io);
        }
        let mut v: Vec<u16> = Vec::new();
        let mut k: u32 = 0;
        while k < count as u32
            invariant
                self.wf(),
                self.bytes@ == b,
                self.position as int == base + 2 * (k as int),
                base + 2 * (count as int) <= b.len(),
                k <= count as u32,
                v@.len() == k as int,
                forall|j: int| 0 <= j < k as int ==> #[trigger] v@[j] == be_u16(b, base + 2 * j)
                    as u16,
            decreases count as int - k as int,
        {
            let x = match self.read_u16() {
                Ok(x) => x,
                Err(_) => {
                    proof {
                        assert(false);
                    }
                    return Err(ParseError::Io);
                },
            };
            v.push(x);
            k = k + 1;
        }
        Ok(v)
    }

    /// Reads one constant-pool record, dispatching on its tag byte.
    pub fn read_constant_pool_info(&mut self) -> (r: ParseResult<ConstantPoolInfo>)
        requires
            old(self).wf(),
        ensures
            final(self).wf(),
            final(self).bytes@ == old(self).bytes@,
            match r {
                Ok(v) => old(self).position < final(self).position && cp_entry_at(
                    old(self).bytes@, old(self).position as int, Ok((v,
                    final(self).position as int))),
                Err(e) => cp_entry_at(old(self).bytes@, old(self).position as int, Err(e)),
            },
    {
        let ghost pos = self.position as int;
        let tag = match self.read_u8() {
            Ok(v) => v,
            Err(e) => {
                return Err(e);
            },
        };
        match tag {
            1 => {
                let length = match self.read_u16() {
                    Ok(v) => v,
                    Err(e) => {
                        return Err(e);
                    },
                };
                let data = match self.read_bytes(length as u32) {
                    Ok(v) => v,
                    Err(e) => {
                        return Err(e);
                    },
                };
                let string = read_modified_utf8(&data);
                Ok(ConstantPoolInfo::Utf8(string))
            },
            3 => {
                let v = match self.read_u32() {
                    Ok(v) => v,
                    Err(e) => {
                        return Err(e);
                    },
                };
                Ok(ConstantPoolInfo::Integer(u32_to_i32(v)))
            },
            4 => {
                let v = match self.read_u32() {
                    Ok(v) => v,
                    Err(e) => {
                        return Err(e);
                    },
                };
                Ok(ConstantPoolInfo::Float(v))
            },
            5 => {
                let v = match self.read_u64() {
                    Ok(v) => v,
                    Err(e) => {
                        return Err(e);
                    },
                };
                Ok(ConstantPoolInfo::Long(u64_to_i64(v)))
            },
            6 => {
                let v = match self.read_u64() {
                    Ok(v) => v,
                    Err(e) => {
                        return Err(e);
                    },
                };
                Ok(ConstantPoolInfo::Double(v))
            },
            7 => {
                let v = match self.read_u16() {
                    Ok(v) => v,
                    Err(e) => {
                        return Err(e);
                    },
                };
                Ok(ConstantPoolInfo::Class(v))
            },
            8 => {
                let v = match self.read_u16() {
                    Ok(v) => v,
                    Err(e) => {
                        return Err(e);
                    },
                };
                Ok(ConstantPoolInfo::Str(v))
            },
            9 => {
                let a = match self.read_u16() {
                    Ok(v) => v,
                    Err(e) => {
                        return Err(e);
                    },
                };
                let b2 = match self.read_u16() {
                    Ok(v) => v,
                    Err(e) => {
                        return Err(e);
                    },
                };
                Ok(ConstantPoolInfo::Fieldref(a, b2))
            },
            10 => {
                let a = match self.read_u16() {
                    Ok(v) => v,
                    Err(e) => {
                        return Err(e);
                    },
                };
                let b2 = match self.read_u16() {
                    Ok(v) => v,
                    Err(e) => {
                        return Err(e);
                    },
                };
                Ok(ConstantPoolInfo::Methodref(a, b2))
            },
            11 => {
                let a = match self.read_u16() {
                    Ok(v) => v,
                    Err(e) => {
                        return Err(e);
                    },
                };
                let b2 = match self.read_u16() {
                    Ok(v) => v,
                    Err(e) => {
                        return Err(e);
                    },
                };
                Ok(ConstantPoolInfo::InterfaceMethodref(a, b2))
            },
            12 => {
                let a = match self.read_u16() {
                    Ok(v) => v,
                    Err(e) => {
                        return Err(e);
                    },
                };
                let b2 = match self.read_u16() {
                    Ok(v) => v,
                    Err(e) => {
                        return Err(e);
                    },
                };
                Ok(ConstantPoolInfo::NameAndType(a, b2))
            },
            15 => {
                let kind = match self.read_u8() {
                    Ok(v) => v,
                    Err(e) => {
                        return Err(e);
                    },
                };
                let ix = match self.read_u16() {
                    Ok(v) => v,
                    Err(e) => {
                        return Err(e);
                    },
                };
                Ok(ConstantPoolInfo::MethodHandle(kind, ix))
            },
            16 => {
                let v = match self.read_u16() {
                    Ok(v) => v,
                    Err(e) => {
                        return Err(e);
                    },
                };
                Ok(ConstantPoolInfo::MethodType(v))
            },
            18 => {
                let a = match self.read_u16() {
                    Ok(v) => v,
                    Err(e) => {
                        return Err(e);
                    },
                };
                let b2 = match self.read_u16() {
                    Ok(v) => v,
                    Err(e) => {
                        return Err(e);
                    },
                };
                Ok(ConstantPoolInfo::InvokeDynamic(a, b2))
            },
            _ => Err(ParseError::UnknownConstantPoolTag(tag, self.position - 1)),
        }
    }

    /// Reads the constant pool: a raw 16-bit count `N`, then records
    /// filling `N - 1` index slots, with an `Invalid` filler slot after
    /// each `Long` or `Double`.
    #[verifier::loop_isolation(false)]
    pub fn read_constant_pool(&mut self) -> (r: ParseResult<Vec<ConstantPoolInfo>>)
        requires
            old(self).wf(),
        ensures
            final(self).wf(),
            final(self).bytes@ == old(self).bytes@,
            match r {
                Ok(v) => old(self).position < final(self).position && cp_section_at(
                    old(self).bytes@, old(self).position as int, Ok((v@,
                    final(self).position as int))),
                Err(e) => cp_section_at(old(self).bytes@, old(self).position as int, Err(e)),
            },
    {
        let ghost b = self.bytes@;
        let ghost pos0 = self.position as int;
        let cp_count = match self.read_u16() {
            Ok(v) => v,
            Err(e) => {
                return Err(e);
            },
        };
        let m: u32 = if cp_count >= 1 {
            (cp_count - 1) as u32
        } else {
            0
        };
        let ghost start = self.position as int;
        let mut cp: Vec<ConstantPoolInfo> = Vec::new();
        let mut i: u32 = 0;
        while i < m
            invariant
                self.wf(),
                self.bytes@ == b,
                start <= self.position as int <= b.len(),
                m as int == (if be_u16(b, pos0) >= 1 {
                    be_u16(b, pos0) - 1
                } else {
                    0
                }),
                i <= m + 1,
                cp@.len() == i as int,
                span_cp(b, start, self.position as int, cp@),
                i == m + 1 ==> i >= 2 && (cp@[i as int - 2] is Long || cp@[i as int - 2]
                    is Double),
            decreases m as int + 1 - i as int,
        {
            let ghost cur = self.position as int;
            let ghost done = cp@;
            match self.read_constant_pool_info() {
                Ok(info) => {
                    let ghost mid = self.position as int;
                    let is_double = info.is_double_length();
                    if is_double {
                        proof {
                            lemma_span_cp_snoc_double(b, start, cur, done, info, mid);
                        }
                        cp.push(info);
                        cp.push(ConstantPoolInfo::Invalid);
                        i = i + 2;
                    } else {
                        proof {
                            lemma_span_cp_snoc(b, start, cur, done, info, mid);
                        }
                        cp.push(info);
                        i = i + 1;
                    }
                },
                Err(e) => {
                    proof {
                        assert(fails_cp(b, cur, m as int - i as int, e));
                        lemma_span_cp_then_fails(b, start, cur, done, m as int - i as int, e);
                        assert(fails_cp(b, start, m as int, e));
                    }
                    return Err(e);
                },
            }
        }
        Ok(cp)
    }

    /// Reads `n` exception-handler records.
    #[verifier::loop_isolation(false)]
    pub fn read_exception_table(&mut self, n: u16) -> (r: ParseResult<Vec<Exception>>)
        requires
            old(self).wf(),
        ensures
            final(self).wf(),
            final(self).bytes@ == old(self).bytes@,
            match r {
                Ok(v) => old(self).position + 8 * n <= old(self).bytes@.len()
                    && final(self).position == old(self).position + 8 * n && exceptions_at(
                    old(self).bytes@, old(self).position as int, n as int, v@),
                Err(e) => e == ParseError::Io && old(self).position + 8 * n
                    > old(self).bytes@.len(),
            },
    {
        let ghost b = self.bytes@;
        let ghost base = self.position as int;
        if ((self.bytes.len() - self.position) as u64) < 8 * (n as u64) {
            return Err(ParseError::Io);
        }
        let mut v: Vec<Exception> = Vec::new();
        let mut k: u32 = 0;
        while k < n as u32
            invariant
                self.wf(),
                self.bytes@ == b,
                self.position as int == base + 8 * (k as int),
                base + 8 * (n as int) <= b.len(),
                k <= n as u32,
                v@.len() == k as int,
                forall|j: int| 0 <= j < k as int ==> #[trigger] v@[j] == (Exception { start_pc: be_u16(b, base + 8 * j) as u16, end_pc: be_u16(b, base + 8 * j + 2) as u16, handler_pc: be_u16(b, base + 8 * j + 4) as u16, catch_type: be_u16(b, base + 8 * j + 6) as u16 }),
            decreases n as int - k as int,
        {
            let ghost cur = self.position as int;
            let start_pc = match self.read_u16() {
                Ok(x) => x,
                Err(_) => {
                    proof {
                        assert(false);
                    }
                    return Err(ParseError::Io);
                },
            };
            let end_pc = match self.read_u16() {
                Ok(x) => x,
                Err(_) => {
                    proof {
                        assert(false);
                    }
                    return Err(ParseError::Io);
                },
            };
            let handler_pc = match self.read_u16() {
                Ok(x) => x,
                Err(_) => {
                    proof {
                        assert(false);
                    }
                    return Err(ParseError::Io);
                },
            };
            let catch_type = match self.read_u16() {
                Ok(x) => x,
                Err(_) => {
                    proof {
                        assert(false);
                    }
                    return Err(ParseError::Io);
                },
            };
            let el = Exception { start_pc, end_pc, handler_pc, catch_type };
            v.push(el);
            k = k + 1;
        }
        Ok(v)
    }


    /// Reads `n` inner-class records.
    #[verifier::loop_isolation(false)]
    pub fn read_inner_classes(&mut self, n: u16) -> (r: ParseResult<Vec<InnerClass>>)
        requires
            old(self).wf(),
        ensures
            final(self).wf(),
            final(self).bytes@ == old(self).bytes@,
            match r {
                Ok(v) => old(self).position + 8 * n <= old(self).bytes@.len()
                    && final(self).position == old(self).position + 8 * n && inner_classes_at(
                    old(self).bytes@, old(self).position as int, n as int, v@),
                Err(e) => e == ParseError::Io && old(self).position + 8 * n
                    > old(self).bytes@.len(),
            },
    {
        let ghost b = self.bytes@;
        let ghost base = self.position as int;
        if ((self.bytes.len() - self.position) as u64) < 8 * (n as u64) {
            return Err(ParseError::Io);
        }
        let mut v: Vec<InnerClass> = Vec::new();
        let mut k: u32 = 0;
        while k < n as u32
            invariant
                self.wf(),
                self.bytes@ == b,
                self.position as int == base + 8 * (k as int),
                base + 8 * (n as int) <= b.len(),
                k <= n as u32,
                v@.len() == k as int,
                forall|j: int| 0 <= j < k as int ==> #[trigger] v@[j] == (InnerClass { inner_class_info_index: be_u16(b, base + 8 * j) as u16, outer_class_info_index: be_u16(b, base + 8 * j + 2) as u16, inner_name_index: be_u16(b, base + 8 * j + 4) as u16, inner_class_access_flags: be_u16(b, base + 8 * j + 6) as u16 }),
            decreases n as int - k as int,
        {
            let ghost cur = self.position as int;
            let inner_class_info_index = match self.read_u16() {
                Ok(x) => x,
                Err(_) => {
                    proof {
                        assert(false);
                    }
                    return Err(ParseError::Io);
                },
            };
            let outer_class_info_index = match self.read_u16() {
                Ok(x) => x,
                Err(_) => {
                    proof {
                        assert(false);
                    }
                    return Err(ParseError::Io);
                },
            };
            let inner_name_index = match self.read_u16() {
                Ok(x) => x,
                Err(_) => {
                    proof {
                        assert(false);
                    }
                    return Err(ParseError::Io);
                },
            };
            let inner_class_access_flags = match self.read_u16() {
                Ok(x) => x,
                Err(_) => {
                    proof {
                        assert(false);
                    }
                    return Err(ParseError::Io);
                },
            };
            let el = InnerClass { inner_class_info_index, outer_class_info_index, inner_name_index, inner_class_access_flags };
            v.push(el);
            k = k + 1;
        }
        Ok(v)
    }


    /// Reads `n` line-number records.
    #[verifier::loop_isolation(false)]
    pub fn read_line_numbers(&mut self, n: u16) -> (r: ParseResult<Vec<LineNumber>>)
        requires
            old(self).wf(),
        ensures
            final(self).wf(),
            final(self).bytes@ == old(self).bytes@,
            match r {
                Ok(v) => old(self).position + 4 * n <= old(self).bytes@.len()
                    && final(self).position == old(self).position + 4 * n && line_numbers_at(
                    old(self).bytes@, old(self).position as int, n as int, v@),
                Err(e) => e == ParseError::Io && old(self).position + 4 * n
                    > old(self).bytes@.len(),
            },
    {
        let ghost b = self.bytes@;
        let ghost base = self.position as int;
        if ((self.bytes.len() - self.position) as u64) < 4 * (n as u64) {
            return Err(ParseError::Io);
        }
        let mut v: Vec<LineNumber> = Vec::new();
        let mut k: u32 = 0;
        while k < n as u32
            invariant
                self.wf(),
                self.bytes@ == b,
                self.position as int == base + 4 * (k as int),
                base + 4 * (n as int) <= b.len(),
                k <= n as u32,
                v@.len() == k as int,
                forall|j: int| 0 <= j < k as int ==> #[trigger] v@[j] == (LineNumber { start_pc: be_u16(b, base + 4 * j) as u16, line_number: be_u16(b, base + 4 * j + 2) as u16 }),
            decreases n as int - k as int,
        {
            let ghost cur = self.position as int;
            let start_pc = match self.read_u16() {
                Ok(x) => x,
                Err(_) => {
                    proof {
                        assert(false);
                    }
                    return Err(ParseError::Io);
                },
            };
            let line_number = match self.read_u16() {
                Ok(x) => x,
                Err(_) => {
                    proof {
                        assert(false);
                    }
                    return Err(ParseError::Io);
                },
            };
            let el = LineNumber { start_pc, line_number };
            v.push(el);
            k = k + 1;
        }
        Ok(v)
    }


    /// Reads `n` local-variable records.
    #[verifier::loop_isolation(false)]
    pub fn read_local_variables(&mut self, n: u16) -> (r: ParseResult<Vec<LocalVariable>>)
        requires
            old(self).wf(),
        ensures
            final(self).wf(),
            final(self).bytes@ == old(self).bytes@,
            match r {
                Ok(v) => old(self).position + 10 * n <= old(self).bytes@.len()
                    && final(self).position == old(self).position + 10 * n && local_vars_at(
                    old(self).bytes@, old(self).position as int, n as int, v@),
                Err(e) => e == ParseError::Io && old(self).position + 10 * n
                    > old(self).bytes@.len(),
            },
    {
        let ghost b = self.bytes@;
        let ghost base = self.position as int;
        if ((self.bytes.len() - self.position) as u64) < 10 * (n as u64) {
            return Err(ParseError::Io);
        }
        let mut v: Vec<LocalVariable> = Vec::new();
        let mut k: u32 = 0;
        while k < n as u32
            invariant
                self.wf(),
                self.bytes@ == b,
                self.position as int == base + 10 * (k as int),
                base + 10 * (n as int) <= b.len(),
                k <= n as u32,
                v@.len() == k as int,
                forall|j: int| 0 <= j < k as int ==> #[trigger] v@[j] == (LocalVariable { start_pc: be_u16(b, base + 10 * j) as u16, length: be_u16(b, base + 10 * j + 2) as u16, name_index: be_u16(b, base + 10 * j + 4) as u16, descriptor_or_signature_index: be_u16(b, base + 10 * j + 6) as u16, index: be_u16(b, base + 10 * j + 8) as u16 }),
            decreases n as int - k as int,
        {
            let ghost cur = self.position as int;
            let start_pc = match self.read_u16() {
                Ok(x) => x,
                Err(_) => {
                    proof {
                        assert(false);
                    }
                    return Err(ParseError::Io);
                },
            };
            let length = match self.read_u16() {
                Ok(x) => x,
                Err(_) => {
                    proof {
                        assert(false);
                    }
                    return Err(ParseError::Io);
                },
            };
            let name_index = match self.read_u16() {
                Ok(x) => x,
                Err(_) => {
                    proof {
                        assert(false);
                    }
                    return Err(ParseError::Io);
                },
            };
            let descriptor_or_signature_index = match self.read_u16() {
                Ok(x) => x,
                Err(_) => {
                    proof {
                        assert(false);
                    }
                    return Err(ParseError::Io);
                },
            };
            let index = match self.read_u16() {
                Ok(x) => x,
                Err(_) => {
                    proof {
                        assert(false);
                    }
                    return Err(ParseError::Io);
                },
            };
            let el = LocalVariable { start_pc, length, name_index, descriptor_or_signature_index, index };
            v.push(el);
            k = k + 1;
        }
        Ok(v)
    }


    /// Reads `n` local-variable-target records.
    #[verifier::loop_isolation(false)]
    pub fn read_localvar_targets(&mut self, n: u16) -> (r: ParseResult<Vec<LocalVariableTarget>>)
        requires
            old(self).wf(),
        ensures
            final(self).wf(),
            final(self).bytes@ == old(self).bytes@,
            match r {
                Ok(v) => old(self).position + 6 * n <= old(self).bytes@.len()
                    && final(self).position == old(self).position + 6 * n && localvar_targets_at(
                    old(self).bytes@, old(self).position as int, n as int, v@),
                Err(e) => e == ParseError::Io && old(self).position + 6 * n
                    > old(self).bytes@.len(),
            },
    {
        let ghost b = self.bytes@;
        let ghost base = self.position as int;
        if ((self.bytes.len() - self.position) as u64) < 6 * (n as u64) {
            return Err(ParseError::Io);
        }
        let mut v: Vec<LocalVariableTarget> = Vec::new();
        let mut k: u32 = 0;
        while k < n as u32
            invariant
                self.wf(),
                self.bytes@ == b,
                self.position as int == base + 6 * (k as int),
                base + 6 * (n as int) <= b.len(),
                k <= n as u32,
                v@.len() == k as int,
                forall|j: int| 0 <= j < k as int ==> #[trigger] v@[j] == (LocalVariableTarget { start_pc: be_u16(b, base + 6 * j) as u16, length: be_u16(b, base + 6 * j + 2) as u16, index: be_u16(b, base + 6 * j + 4) as u16 }),
            decreases n as int - k as int,
        {
            let ghost cur = self.position as int;
            let start_pc = match self.read_u16() {
                Ok(x) => x,
                Err(_) => {
                    proof {
                        assert(false);
                    }
                    return Err(ParseError::Io);
                },
            };
            let length = match self.read_u16() {
                Ok(x) => x,
                Err(_) => {
                    proof {
                        assert(false);
                    }
                    return Err(ParseError::Io);
                },
            };
            let index = match self.read_u16() {
                Ok(x) => x,
                Err(_) => {
                    proof {
                        assert(false);
                    }
                    return Err(ParseError::Io);
                },
            };
            let el = LocalVariableTarget { start_pc, length, index };
            v.push(el);
            k = k + 1;
        }
        Ok(v)
    }


    /// Reads `n` method-parameter records.
    #[verifier::loop_isolation(false)]
    pub fn read_method_parameters(&mut self, n: u16) -> (r: ParseResult<Vec<MethodParameter>>)
        requires
            old(self).wf(),
        ensures
            final(self).wf(),
            final(self).bytes@ == old(self).bytes@,
            match r {
                Ok(v) => old(self).position + 4 * n <= old(self).bytes@.len()
                    && final(self).position == old(self).position + 4 * n && method_params_at(
                    old(self).bytes@, old(self).position as int, n as int, v@),
                Err(e) => e == ParseError::Io && old(self).position + 4 * n
                    > old(self).bytes@.len(),
            },
    {
        let ghost b = self.bytes@;
        let ghost base = self.position as int;
        if ((self.bytes.len() - self.position) as u64) < 4 * (n as u64) {
            return Err(ParseError::Io);
        }
        let mut v: Vec<MethodParameter> = Vec::new();
        let mut k: u32 = 0;
        while k < n as u32
            invariant
                self.wf(),
                self.bytes@ == b,
                self.position as int == base + 4 * (k as int),
                base + 4 * (n as int) <= b.len(),
                k <= n as u32,
                v@.len() == k as int,
                forall|j: int| 0 <= j < k as int ==> #[trigger] v@[j] == (MethodParameter { name_index: be_u16(b, base + 4 * j) as u16, access_flags: be_u16(b, base + 4 * j + 2) as u16 }),
            decreases n as int - k as int,
        {
            let ghost cur = self.position as int;
            let name_index = match self.read_u16() {
                Ok(x) => x,
                Err(_) => {
                    proof {
                        assert(false);
                    }
                    return Err(ParseError::Io);
                },
            };
            let access_flags = match self.read_u16() {
                Ok(x) => x,
                Err(_) => {
                    proof {
                        assert(false);
                    }
                    return Err(ParseError::Io);
                },
            };
            let el = MethodParameter { name_index, access_flags };
            v.push(el);
            k = k + 1;
        }
        Ok(v)
    }

    /// Reads `n` big-endian 16-bit values.
    #[verifier::loop_isolation(false)]
    pub fn read_u16_list(&mut self, n: u16) -> (r: ParseResult<Vec<u16>>)
        requires
            old(self).wf(),
        ensures
            final(self).wf(),
            final(self).bytes@ == old(self).bytes@,
            match r {
                Ok(v) => old(self).position + 2 * n <= old(self).bytes@.len()
                    && final(self).position == old(self).position + 2 * n && u16s_at(
                    old(self).bytes@, old(self).position as int, n as int, v@),
                Err(e) => e == ParseError::Io && old(self).position + 2 * n
                    > old(self).bytes@.len(),
            },
    {
        let ghost b = self.bytes@;
        let ghost base = self.position as int;
        if ((self.bytes.len() - self.position) as u64) < 2 * (n as u64) {
            return Err(ParseError::Io);
        }
        let mut v: Vec<u16> = Vec::new();
        let mut k: u32 = 0;
        while k < n as u32
            invariant
                self.wf(),
                self.bytes@ == b,
                self.position as int == base + 2 * (k as int),
                base + 2 * (n as int) <= b.len(),
                k <= n as u32,
                v@.len() == k as int,
                forall|j: int| 0 <= j < k as int ==> #[trigger] v@[j] == be_u16(b, base + 2 * j)
                    as u16,
            decreases n as int - k as int,
        {
            let x = match self.read_u16() {
                Ok(x) => x,
                Err(_) => {
                    proof {
                        assert(false);
                    }
                    return Err(ParseError::Io);
                },
            };
            v.push(x);
            k = k + 1;
        }
        Ok(v)
    }

    /// Reads `num` verification-type descriptors.
    #[verifier::loop_isolation(false)]
    pub fn read_verification_type_infos(&mut self, num: u16) -> (r: ParseResult<Vec<VerificationType>>)
        requires
            old(self).wf(),
        ensures
            final(self).wf(),
            final(self).bytes@ == old(self).bytes@,
            match r {
                Ok(v) => {
                    &&& v@.len() == num as int
                    &&& old(self).position <= final(self).position
                    &&& span_vts(old(self).bytes@, old(self).position as int,
                        final(self).position as int, v@)
                },
                Err(e) => fails_vts(old(self).bytes@, old(self).position as int, num as int,
                    e),
            },
    {
        let ghost b = self.bytes@;
        let ghost start = self.position as int;
        let mut v: Vec<VerificationType> = Vec::new();
        let mut k: u32 = 0;
        proof {
            assert(span_vts(b, start, start, v@));
        }
        while k < num as u32
            invariant
                self.wf(),
                self.bytes@ == b,
                start <= self.position as int <= b.len(),
                k <= num as u32,
                v@.len() == k as int,
                span_vts(b, start, self.position as int, v@),
            decreases num as int - k as int,
        {
            let ghost cur = self.position as int;
            let ghost done = v@;
            match self.read_verification_type_info() {
                Ok(el) => {
                    proof {
                        lemma_span_vts_snoc(b, start, cur, done, el, self.position as int);
                    }
                    v.push(el);
                    k = k + 1;
                },
                Err(e) => {
                    proof {
                        assert(fails_vts(b, cur, num as int - k as int, e));
                        lemma_span_vts_then_fails(b, start, cur, done, num as int - k as int,
                            e);
                    }
                    return Err(e);
                },
            }
        }
        Ok(v)
    }


    /// Reads `num` stack-map frames.
    #[verifier::loop_isolation(false)]
    pub fn read_stack_map_frames(&mut self, num: u16) -> (r: ParseResult<Vec<StackMapFrame>>)
        requires
            old(self).wf(),
        ensures
            final(self).wf(),
            final(self).bytes@ == old(self).bytes@,
            match r {
                Ok(v) => {
                    &&& v@.len() == num as int
                    &&& old(self).position <= final(self).position
                    &&& span_frames(old(self).bytes@, old(self).position as int,
                        final(self).position as int, v@)
                },
                Err(e) => fails_frames(old(self).bytes@, old(self).position as int, num as int,
                    e),
            },
    {
        let ghost b = self.bytes@;
        let ghost start = self.position as int;
        let mut v: Vec<StackMapFrame> = Vec::new();
        let mut k: u32 = 0;
        proof {
            assert(span_frames(b, start, start, v@));
        }
        while k < num as u32
            invariant
                self.wf(),
                self.bytes@ == b,
                start <= self.position as int <= b.len(),
                k <= num as u32,
                v@.len() == k as int,
                span_frames(b, start, self.position as int, v@),
            decreases num as int - k as int,
        {
            let ghost cur = self.position as int;
            let ghost done = v@;
            match self.read_stack_map_frame() {
                Ok(el) => {
                    proof {
                        lemma_span_frames_snoc(b, start, cur, done, el, self.position as int);
                    }
                    v.push(el);
                    k = k + 1;
                },
                Err(e) => {
                    proof {
                        assert(fails_frames(b, cur, num as int - k as int, e));
                        lemma_span_frames_then_fails(b, start, cur, done, num as int - k as int,
                            e);
                    }
                    return Err(e);
                },
            }
        }
        Ok(v)
    }


    /// Reads `num` type-path steps.
    #[verifier::loop_isolation(false)]
    pub fn read_path_elements(&mut self, num: u16) -> (r: ParseResult<Vec<PathElement>>)
        requires
            old(self).wf(),
        ensures
            final(self).wf(),
            final(self).bytes@ == old(self).bytes@,
            match r {
                Ok(v) => {
                    &&& v@.len() == num as int
                    &&& old(self).position <= final(self).position
                    &&& span_path_elems(old(self).bytes@, old(self).position as int,
                        final(self).position as int, v@)
                },
                Err(e) => fails_path_elems(old(self).bytes@, old(self).position as int, num as int,
                    e),
            },
    {
        let ghost b = self.bytes@;
        let ghost start = self.position as int;
        let mut v: Vec<PathElement> = Vec::new();
        let mut k: u32 = 0;
        proof {
            assert(span_path_elems(b, start, start, v@));
        }
        while k < num as u32
            invariant
                self.wf(),
                self.bytes@ == b,
                start <= self.position as int <= b.len(),
                k <= num as u32,
                v@.len() == k as int,
                span_path_elems(b, start, self.position as int, v@),
            decreases num as int - k as int,
        {
            let ghost cur = self.position as int;
            let ghost done = v@;
            match self.read_path_element() {
                Ok(el) => {
                    proof {
                        lemma_span_path_elems_snoc(b, start, cur, done, el, self.position as int);
                    }
                    v.push(el);
                    k = k + 1;
                },
                Err(e) => {
                    proof {
                        assert(fails_path_elems(b, cur, num as int - k as int, e));
                        lemma_span_path_elems_then_fails(b, start, cur, done, num as int - k as int,
                            e);
                    }
                    return Err(e);
                },
            }
        }
        Ok(v)
    }

    /// Reads a count-prefixed list of annotations.
    #[verifier::loop_isolation(false)]
    pub fn read_annotations(&mut self) -> (r: ParseResult<Vec<Annotation>>)
        requires
            old(self).wf(),
        ensures
            final(self).wf(),
            final(self).bytes@ == old(self).bytes@,
            match r {
                Ok(v) => {
                    let b = old(self).bytes@;
                    let pos = old(self).position as int;
                    &&& pos + 2 <= b.len()
                    &&& v@.len() == be_u16(b, pos)
                    &&& pos + 2 <= final(self).position <= b.len()
                    &&& span_anns(b, pos + 2, final(self).position as int, v@)
                },
                Err(e) => {
                    let b = old(self).bytes@;
                    let pos = old(self).position as int;
                    (pos + 2 > b.len() && e == ParseError::Io) || (pos + 2 <= b.len()
                        && fails_anns(b, pos + 2, be_u16(b, pos), e))
                },
            },
    {
        let ghost b = self.bytes@;
        let n = match self.read_u16() {
            Ok(v) => v,
            Err(e) => {
                return Err(e);
            },
        };
        let ghost start = self.position as int;
        let mut v: Vec<Annotation> = Vec::new();
        let mut k: u32 = 0;
        proof {
            assert(span_anns(b, start, start, v@));
        }
        while k < n as u32
            invariant
                self.wf(),
                self.bytes@ == b,
                start <= self.position as int <= b.len(),
                k <= n as u32,
                v@.len() == k as int,
                span_anns(b, start, self.position as int, v@),
            decreases n as int - k as int,
        {
            let ghost cur = self.position as int;
            let ghost done = v@;
            match self.read_annotation() {
                Ok(el) => {
                    proof {
                        lemma_span_anns_snoc(b, start, cur, done, el,
                            self.position as int);
                    }
                    v.push(el);
                    k = k + 1;
                },
                Err(e) => {
                    proof {
                        assert(fails_anns(b, cur, n as int - k as int, e));
                        lemma_span_anns_then_fails(b, start, cur, done,
                            n as int - k as int, e);
                    }
                    return Err(e);
                },
            }
        }
        Ok(v)
    }


    /// Reads a count-prefixed list of element-value pairs.
    #[verifier::loop_isolation(false)]
    pub fn read_element_value_pairs(&mut self) -> (r: ParseResult<Vec<ElementValuePair>>)
        requires
            old(self).wf(),
        ensures
            final(self).wf(),
            final(self).bytes@ == old(self).bytes@,
            match r {
                Ok(v) => {
                    let b = old(self).bytes@;
                    let pos = old(self).position as int;
                    &&& pos + 2 <= b.len()
                    &&& v@.len() == be_u16(b, pos)
                    &&& pos + 2 <= final(self).position <= b.len()
                    &&& span_evps(b, pos + 2, final(self).position as int, v@)
                },
                Err(e) => {
                    let b = old(self).bytes@;
                    let pos = old(self).position as int;
                    (pos + 2 > b.len() && e == ParseError::Io) || (pos + 2 <= b.len()
                        && fails_evps(b, pos + 2, be_u16(b, pos), e))
                },
            },
        decreases old(self).bytes@.len() - old(self).position,
    {
        let ghost b = self.bytes@;
        let n = match self.read_u16() {
            Ok(v) => v,
            Err(e) => {
                return Err(e);
            },
        };
        let ghost start = self.position as int;
        let mut v: Vec<ElementValuePair> = Vec::new();
        let mut k: u32 = 0;
        proof {
            assert(span_evps(b, start, start, v@));
        }
        while k < n as u32
            invariant
                self.wf(),
                self.bytes@ == b,
                start <= self.position as int <= b.len(),
                k <= n as u32,
                v@.len() == k as int,
                span_evps(b, start, self.position as int, v@),
            decreases n as int - k as int,
        {
            let ghost cur = self.position as int;
            let ghost done = v@;
            match self.read_element_value_pair() {
                Ok(el) => {
                    proof {
                        lemma_span_evps_snoc(b, start, cur, done, el,
                            self.position as int);
                    }
                    v.push(el);
                    k = k + 1;
                },
                Err(e) => {
                    proof {
                        assert(fails_evps(b, cur, n as int - k as int, e));
                        lemma_span_evps_then_fails(b, start, cur, done,
                            n as int - k as int, e);
                    }
                    return Err(e);
                },
            }
        }
        Ok(v)
    }


    /// Reads a count-prefixed list of element values.
    #[verifier::loop_isolation(false)]
    pub fn read_element_values(&mut self) -> (r: ParseResult<Vec<ElementValue>>)
        requires
            old(self).wf(),
        ensures
            final(self).wf(),
            final(self).bytes@ == old(self).bytes@,
            match r {
                Ok(v) => {
                    let b = old(self).bytes@;
                    let pos = old(self).position as int;
                    &&& pos + 2 <= b.len()
                    &&& v@.len() == be_u16(b, pos)
                    &&& pos + 2 <= final(self).position <= b.len()
                    &&& span_evs(b, pos + 2, final(self).position as int, v@)
                },
                Err(e) => {
                    let b = old(self).bytes@;
                    let pos = old(self).position as int;
                    (pos + 2 > b.len() && e == ParseError::Io) || (pos + 2 <= b.len()
                        && fails_evs(b, pos + 2, be_u16(b, pos), e))
                },
            },
        decreases old(self).bytes@.len() - old(self).position,
    {
        let ghost b = self.bytes@;
        let n = match self.read_u16() {
            Ok(v) => v,
            Err(e) => {
                return Err(e);
            },
        };
        let ghost start = self.position as int;
        let mut v: Vec<ElementValue> = Vec::new();
        let mut k: u32 = 0;
        proof {
            assert(span_evs(b, start, start, v@));
        }
        while k < n as u32
            invariant
                self.wf(),
                self.bytes@ == b,
                start <= self.position as int <= b.len(),
                k <= n as u32,
                v@.len() == k as int,
                span_evs(b, start, self.position as int, v@),
            decreases n as int - k as int,
        {
            let ghost cur = self.position as int;
            let ghost done = v@;
            match self.read_element_value() {
                Ok(el) => {
                    proof {
                        lemma_span_evs_snoc(b, start, cur, done, el,
                            self.position as int);
                    }
                    v.push(el);
                    k = k + 1;
                },
                Err(e) => {
                    proof {
                        assert(fails_evs(b, cur, n as int - k as int, e));
                        lemma_span_evs_then_fails(b, start, cur, done,
                            n as int - k as int, e);
                    }
                    return Err(e);
                },
            }
        }
        Ok(v)
    }


    /// Reads a count-prefixed list of type annotations.
    #[verifier::loop_isolation(false)]
    pub fn read_type_annotations(&mut self) -> (r: ParseResult<Vec<TypeAnnotation>>)
        requires
            old(self).wf(),
        ensures
            final(self).wf(),
            final(self).bytes@ == old(self).bytes@,
            match r {
                Ok(v) => {
                    let b = old(self).bytes@;
                    let pos = old(self).position as int;
                    &&& pos + 2 <= b.len()
                    &&& v@.len() == be_u16(b, pos)
                    &&& pos + 2 <= final(self).position <= b.len()
                    &&& span_tanns(b, pos + 2, final(self).position as int, v@)
                },
                Err(e) => {
                    let b = old(self).bytes@;
                    let pos = old(self).position as int;
                    (pos + 2 > b.len() && e == ParseError::Io) || (pos + 2 <= b.len()
                        && fails_tanns(b, pos + 2, be_u16(b, pos), e))
                },
            },
    {
        let ghost b = self.bytes@;
        let n = match self.read_u16() {
            Ok(v) => v,
            Err(e) => {
                return Err(e);
            },
        };
        let ghost start = self.position as int;
        let mut v: Vec<TypeAnnotation> = Vec::new();
        let mut k: u32 = 0;
        proof {
            assert(span_tanns(b, start, start, v@));
        }
        while k < n as u32
            invariant
                self.wf(),
                self.bytes@ == b,
                start <= self.position as int <= b.len(),
                k <= n as u32,
                v@.len() == k as int,
                span_tanns(b, start, self.position as int, v@),
            decreases n as int - k as int,
        {
            let ghost cur = self.position as int;
            let ghost done = v@;
            match self.read_type_annotation() {
                Ok(el) => {
                    proof {
                        lemma_span_tanns_snoc(b, start, cur, done, el,
                            self.position as int);
                    }
                    v.push(el);
                    k = k + 1;
                },
                Err(e) => {
                    proof {
                        assert(fails_tanns(b, cur, n as int - k as int, e));
                        lemma_span_tanns_then_fails(b, start, cur, done,
                            n as int - k as int, e);
                    }
                    return Err(e);
                },
            }
        }
        Ok(v)
    }


    /// Reads a count-prefixed list of bootstrap methods.
    #[verifier::loop_isolation(false)]
    pub fn read_bootstrap_methods(&mut self) -> (r: ParseResult<Vec<BootstrapMethod>>)
        requires
            old(self).wf(),
        ensures
            final(self).wf(),
            final(self).bytes@ == old(self).bytes@,
            match r {
                Ok(v) => {
                    let b = old(self).bytes@;
                    let pos = old(self).position as int;
                    &&& pos + 2 <= b.len()
                    &&& v@.len() == be_u16(b, pos)
                    &&& pos + 2 <= final(self).position <= b.len()
                    &&& span_bsms(b, pos + 2, final(self).position as int, v@)
                },
                Err(e) => {
                    let b = old(self).bytes@;
                    let pos = old(self).position as int;
                    (pos + 2 > b.len() && e == ParseError::Io) || (pos + 2 <= b.len()
                        && fails_bsms(b, pos + 2, be_u16(b, pos), e))
                },
            },
    {
        let ghost b = self.bytes@;
        let n = match self.read_u16() {
            Ok(v) => v,
            Err(e) => {
                return Err(e);
            },
        };
        let ghost start = self.position as int;
        let mut v: Vec<BootstrapMethod> = Vec::new();
        let mut k: u32 = 0;
        proof {
            assert(span_bsms(b, start, start, v@));
        }
        while k < n as u32
            invariant
                self.wf(),
                self.bytes@ == b,
                start <= self.position as int <= b.len(),
                k <= n as u32,
                v@.len() == k as int,
                span_bsms(b, start, self.position as int, v@),
            decreases n as int - k as int,
        {
            let ghost cur = self.position as int;
            let ghost done = v@;
            match self.read_bootstrap_method() {
                Ok(el) => {
                    proof {
                        lemma_span_bsms_snoc(b, start, cur, done, el,
                            self.position as int);
                    }
                    v.push(el);
                    k = k + 1;
                },
                Err(e) => {
                    proof {
                        assert(fails_bsms(b, cur, n as int - k as int, e));
                        lemma_span_bsms_then_fails(b, start, cur, done,
                            n as int - k as int, e);
                    }
                    return Err(e);
                },
            }
        }
        Ok(v)
    }


    /// Reads a count-prefixed list of per-parameter annotation lists.
    #[verifier::loop_isolation(false)]
    pub fn read_parameter_annotations(&mut self) -> (r: ParseResult<Vec<Vec<Annotation>>>)
        requires
            old(self).wf(),
        ensures
            final(self).wf(),
            final(self).bytes@ == old(self).bytes@,
            match r {
                Ok(v) => {
                    let b = old(self).bytes@;
                    let pos = old(self).position as int;
                    &&& pos + 1 <= b.len()
                    &&& v@.len() == b[pos] as int
                    &&& pos + 1 <= final(self).position <= b.len()
                    &&& span_ann_groups(b, pos + 1, final(self).position as int, v@)
                },
                Err(e) => {
                    let b = old(self).bytes@;
                    let pos = old(self).position as int;
                    (pos + 1 > b.len() && e == ParseError::Io) || (pos + 1 <= b.len()
                        && fails_ann_groups(b, pos + 1, b[pos] as int, e))
                },
            },
    {
        let ghost b = self.bytes@;
        let n = match self.read_u8() {
            Ok(v) => v,
            Err(e) => {
                return Err(e);
            },
        };
        let ghost start = self.position as int;
        let mut v: Vec<Vec<Annotation>> = Vec::new();
        let mut k: u32 = 0;
        proof {
            assert(span_ann_groups(b, start, start, v@));
        }
        while k < n as u32
            invariant
                self.wf(),
                self.bytes@ == b,
                start <= self.position as int <= b.len(),
                k <= n as u32,
                v@.len() == k as int,
                span_ann_groups(b, start, self.position as int, v@),
            decreases n as int - k as int,
        {
            let ghost cur = self.position as int;
            let ghost done = v@;
            match self.read_annotations() {
                Ok(el) => {
                    proof {
                        assert(ann_group_at(b, cur, Ok((el, self.position as int))));
                        lemma_span_ann_groups_snoc(b, start, cur, done, el,
                            self.position as int);
                    }
                    v.push(el);
                    k = k + 1;
                },
                Err(e) => {
                    proof {
                        assert(fails_ann_groups(b, cur, n as int - k as int, e));
                        lemma_span_ann_groups_then_fails(b, start, cur, done,
                            n as int - k as int, e);
                    }
                    return Err(e);
                },
            }
        }
        Ok(v)
    }


    /// Reads a count-prefixed list of attributes.
    #[verifier::loop_isolation(false)]
    pub fn read_attributes(&mut self, constant_pool: &Vec<ConstantPoolInfo>) -> (r: ParseResult<Vec<Attribute>>)
        requires
            old(self).wf(),
        ensures
            final(self).wf(),
            final(self).bytes@ == old(self).bytes@,
            match r {
                Ok(v) => {
                    let b = old(self).bytes@;
                    let pos = old(self).position as int;
                    &&& pos + 2 <= b.len()
                    &&& v@.len() == be_u16(b, pos)
                    &&& pos + 2 <= final(self).position <= b.len()
                    &&& span_attrs(b, constant_pool@, pos + 2, final(self).position as int, v@)
                },
                Err(e) => {
                    let b = old(self).bytes@;
                    let pos = old(self).position as int;
                    (pos + 2 > b.len() && e == ParseError::Io) || (pos + 2 <= b.len()
                        && fails_attrs(b, constant_pool@, pos + 2, be_u16(b, pos), e))
                },
            },
        decreases old(self).bytes@.len() - old(self).position,
    {
        let ghost b = self.bytes@;
        let n = match self.read_u16() {
            Ok(v) => v,
            Err(e) => {
                return Err(e);
            },
        };
        let ghost start = self.position as int;
        let mut v: Vec<Attribute> = Vec::new();
        let mut k: u32 = 0;
        proof {
            assert(span_attrs(b, constant_pool@, start, start, v@));
        }
        while k < n as u32
            invariant
                self.wf(),
                self.bytes@ == b,
                start <= self.position as int <= b.len(),
                k <= n as u32,
                v@.len() == k as int,
                span_attrs(b, constant_pool@, start, self.position as int, v@),
            decreases n as int - k as int,
        {
            let ghost cur = self.position as int;
            let ghost done = v@;
            match self.read_attribute(constant_pool) {
                Ok(el) => {
                    proof {
                        lemma_span_attrs_snoc(b, constant_pool@, start, cur, done, el,
                            self.position as int);
                    }
                    v.push(el);
                    k = k + 1;
                },
                Err(e) => {
                    proof {
                        assert(fails_attrs(b, constant_pool@, cur, n as int - k as int, e));
                        lemma_span_attrs_then_fails(b, constant_pool@, start, cur, done,
                            n as int - k as int, e);
                    }
                    return Err(e);
                },
            }
        }
        Ok(v)
    }


    /// Reads a count-prefixed list of field-table entries.
    #[verifier::loop_isolation(false)]
    pub fn read_fields(&mut self, constant_pool: &Vec<ConstantPoolInfo>) -> (r: ParseResult<Vec<Field>>)
        requires
            old(self).wf(),
        ensures
            final(self).wf(),
            final(self).bytes@ == old(self).bytes@,
            match r {
                Ok(v) => {
                    let b = old(self).bytes@;
                    let pos = old(self).position as int;
                    &&& pos + 2 <= b.len()
                    &&& v@.len() == be_u16(b, pos)
                    &&& pos + 2 <= final(self).position <= b.len()
                    &&& span_fields(b, constant_pool@, pos + 2, final(self).position as int, v@)
                },
                Err(e) => {
                    let b = old(self).bytes@;
                    let pos = old(self).position as int;
                    (pos + 2 > b.len() && e == ParseError::Io) || (pos + 2 <= b.len()
                        && fails_fields(b, constant_pool@, pos + 2, be_u16(b, pos), e))
                },
            },
    {
        let ghost b = self.bytes@;
        let n = match self.read_u16() {
            Ok(v) => v,
            Err(e) => {
                return Err(e);
            },
        };
        let ghost start = self.position as int;
        let mut v: Vec<Field> = Vec::new();
        let mut k: u32 = 0;
        proof {
            assert(span_fields(b, constant_pool@, start, start, v@));
        }
        while k < n as u32
            invariant
                self.wf(),
                self.bytes@ == b,
                start <= self.position as int <= b.len(),
                k <= n as u32,
                v@.len() == k as int,
                span_fields(b, constant_pool@, start, self.position as int, v@),
            decreases n as int - k as int,
        {
            let ghost cur = self.position as int;
            let ghost done = v@;
            match self.read_field(constant_pool) {
                Ok(el) => {
                    proof {
                        lemma_span_fields_snoc(b, constant_pool@, start, cur, done, el,
                            self.position as int);
                    }
                    v.push(el);
                    k = k + 1;
                },
                Err(e) => {
                    proof {
                        assert(fails_fields(b, constant_pool@, cur, n as int - k as int, e));
                        lemma_span_fields_then_fails(b, constant_pool@, start, cur, done,
                            n as int - k as int, e);
                    }
                    return Err(e);
                },
            }
        }
        Ok(v)
    }


    /// Reads a count-prefixed list of method-table entries.
    #[verifier::loop_isolation(false)]
    pub fn read_methods(&mut self, constant_pool: &Vec<ConstantPoolInfo>) -> (r: ParseResult<Vec<Method>>)
        requires
            old(self).wf(),
        ensures
            final(self).wf(),
            final(self).bytes@ == old(self).bytes@,
            match r {
                Ok(v) => {
                    let b = old(self).bytes@;
                    let pos = old(self).position as int;
                    &&& pos + 2 <= b.len()
                    &&& v@.len() == be_u16(b, pos)
                    &&& pos + 2 <= final(self).position <= b.len()
                    &&& span_methods(b, constant_pool@, pos + 2, final(self).position as int, v@)
                },
                Err(e) => {
                    let b = old(self).bytes@;
                    let pos = old(self).position as int;
                    (pos + 2 > b.len() && e == ParseError::Io) || (pos + 2 <= b.len()
                        && fails_methods(b, constant_pool@, pos + 2, be_u16(b, pos), e))
                },
            },
    {
        let ghost b = self.bytes@;
        let n = match self.read_u16() {
            Ok(v) => v,
            Err(e) => {
                return Err(e);
            },
        };
        let ghost start = self.position as int;
        let mut v: Vec<Method> = Vec::new();
        let mut k: u32 = 0;
        proof {
            assert(span_methods(b, constant_pool@, start, start, v@));
        }
        while k < n as u32
            invariant
                self.wf(),
                self.bytes@ == b,
                start <= self.position as int <= b.len(),
                k <= n as u32,
                v@.len() == k as int,
                span_methods(b, constant_pool@, start, self.position as int, v@),
            decreases n as int - k as int,
        {
            let ghost cur = self.position as int;
            let ghost done = v@;
            match self.read_method(constant_pool) {
                Ok(el) => {
                    proof {
                        lemma_span_methods_snoc(b, constant_pool@, start, cur, done, el,
                            self.position as int);
                    }
                    v.push(el);
                    k = k + 1;
                },
                Err(e) => {
                    proof {
                        assert(fails_methods(b, constant_pool@, cur, n as int - k as int, e));
                        lemma_span_methods_then_fails(b, constant_pool@, start, cur, done,
                            n as int - k as int, e);
                    }
                    return Err(e);
                },
            }
        }
        Ok(v)
    }

    /// Reads one verification-type descriptor.
    pub fn read_verification_type_info(&mut self) -> (r: ParseResult<VerificationType>)
        requires
            old(self).wf(),
        ensures
            final(self).wf(),
            final(self).bytes@ == old(self).bytes@,
            match r {
                Ok(v) => old(self).position < final(self).position && vtype_at(old(self).bytes@,
                    old(self).position as int, Ok((v, final(self).position as int))),
                Err(e) => vtype_at(old(self).bytes@, old(self).position as int, Err(e)),
            },
    {
        let tag = match self.read_u8() {
            Ok(v) => v,
            Err(e) => {
                return Err(e);
            },
        };
        match tag {
            0 => Ok(VerificationType::Top),
            1 => Ok(VerificationType::Integer),
            2 => Ok(VerificationType::Float),
            3 => Ok(VerificationType::Double),
            4 => Ok(VerificationType::Long),
            5 => Ok(VerificationType::Null),
            6 => Ok(VerificationType::UninitializedThis),
            7 => {
                let index = match self.read_u16() {
                    Ok(v) => v,
                    Err(e) => {
                        return Err(e);
                    },
                };
                Ok(VerificationType::Object { index })
            },
            8 => {
                let offset = match self.read_u16() {
                    Ok(v) => v,
                    Err(e) => {
                        return Err(e);
                    },
                };
                Ok(VerificationType::UninitializedVariable { offset })
            },
            _ => Err(ParseError::UnknownVerificationTypeTag(tag)),
        }
    }

    /// Reads one stack-map frame, dispatching on the frame-type tag.
    pub fn read_stack_map_frame(&mut self) -> (r: ParseResult<StackMapFrame>)
        requires
            old(self).wf(),
        ensures
            final(self).wf(),
            final(self).bytes@ == old(self).bytes@,
            match r {
                Ok(v) => old(self).position < final(self).position && frame_at(old(self).bytes@,
                    old(self).position as int, Ok((v, final(self).position as int))),
                Err(e) => frame_at(old(self).bytes@, old(self).position as int, Err(e)),
            },
    {
        let ghost b = self.bytes@;
        let ghost pos = self.position as int;
        let frame_type = match self.read_u8() {
            Ok(v) => v,
            Err(e) => {
                return Err(e);
            },
        };
        if frame_type <= 63 {
            Ok(StackMapFrame::SameFrame)
        } else if frame_type <= 127 {
            let info = match self.read_verification_type_info() {
                Ok(v) => v,
                Err(e) => {
                    return Err(e);
                },
            };
            Ok(StackMapFrame::SameLocals1StackItemFrame(info))
        } else if frame_type <= 246 {
            Err(ParseError::ReservedFrameType(frame_type))
        } else if frame_type == 247 {
            let offset_delta = match self.read_u16() {
                Ok(v) => v,
                Err(e) => {
                    return Err(e);
                },
            };
            let info = match self.read_verification_type_info() {
                Ok(v) => v,
                Err(e) => {
                    return Err(e);
                },
            };
            Ok(StackMapFrame::SameLocals1StackItemFrameExtended { offset_delta, stack: info })
        } else if frame_type <= 250 {
            let offset_delta = match self.read_u16() {
                Ok(v) => v,
                Err(e) => {
                    return Err(e);
                },
            };
            Ok(StackMapFrame::ChopFrame { offset_delta })
        } else if frame_type == 251 {
            let offset_delta = match self.read_u16() {
                Ok(v) => v,
                Err(e) => {
                    return Err(e);
                },
            };
            Ok(StackMapFrame::SameFrameExtended { offset_delta })
        } else if frame_type <= 254 {
            let offset_delta = match self.read_u16() {
                Ok(v) => v,
                Err(e) => {
                    return Err(e);
                },
            };
            let infos = match self.read_verification_type_infos((frame_type - 251) as u16) {
                Ok(v) => v,
                Err(e) => {
                    return Err(e);
                },
            };
            Ok(StackMapFrame::AppendFrame { offset_delta, locals: infos })
        } else {
            let offset_delta = match self.read_u16() {
                Ok(v) => v,
                Err(e) => {
                    return Err(e);
                },
            };
            let number_of_locals = match self.read_u16() {
                Ok(v) => v,
                Err(e) => {
                    return Err(e);
                },
            };
            let locals = match self.read_verification_type_infos(number_of_locals) {
                Ok(v) => v,
                Err(e) => {
                    return Err(e);
                },
            };
            let ghost mid = self.position as int;
            let number_of_stack_items = match self.read_u16() {
                Ok(v) => v,
                Err(e) => {
                    proof {
                        assert(step_to(locals@, mid) && pos + 5 <= mid <= b.len()
                            && span_vts(b, pos + 5, mid, locals@));
                    }
                    return Err(e);
                },
            };
            let stack = match self.read_verification_type_infos(number_of_stack_items) {
                Ok(v) => v,
                Err(e) => {
                    proof {
                        assert(step_to(locals@, mid) && pos + 5 <= mid <= b.len()
                            && span_vts(b, pos + 5, mid, locals@));
                    }
                    return Err(e);
                },
            };
            proof {
                assert(boundary(pos, mid));
            }
            Ok(StackMapFrame::FullFrame { offset_delta, locals, stack })
        }
    }

    /// Reads one type-path step.
    pub fn read_path_element(&mut self) -> (r: ParseResult<PathElement>)
        requires
            old(self).wf(),
        ensures
            final(self).wf(),
            final(self).bytes@ == old(self).bytes@,
            match r {
                Ok(v) => old(self).position < final(self).position && path_element_at(
                    old(self).bytes@, old(self).position as int, Ok((v,
                    final(self).position as int))),
                Err(e) => path_element_at(old(self).bytes@, old(self).position as int, Err(e)),
            },
    {
        let tag = match self.read_u8() {
            Ok(v) => v,
            Err(e) => {
                return Err(e);
            },
        };
        let kind = match tag {
            0 => TypePathKind::Array,
            1 => TypePathKind::Nested,
            2 => TypePathKind::WildcardBound,
            3 => TypePathKind::TypeArgument,
            _ => {
                return Err(ParseError::UnknownTypePathKind(tag));
            },
        };
        let argument_index = match self.read_u8() {
            Ok(v) => v,
            Err(e) => {
                return Err(e);
            },
        };
        Ok(PathElement { kind, argument_index })
    }

    /// Reads one annotation: a type index and its element-value pairs.
    pub fn read_annotation(&mut self) -> (r: ParseResult<Annotation>)
        requires
            old(self).wf(),
        ensures
            final(self).wf(),
            final(self).bytes@ == old(self).bytes@,
            match r {
                Ok(v) => old(self).position < final(self).position && annotation_at(
                    old(self).bytes@, old(self).position as int, Ok((v,
                    final(self).position as int))),
                Err(e) => annotation_at(old(self).bytes@, old(self).position as int, Err(e)),
            },
        decreases old(self).bytes@.len() - old(self).position,
    {
        let type_index = match self.read_u16() {
            Ok(v) => v,
            Err(e) => {
                return Err(e);
            },
        };
        let element_value_pairs = match self.read_element_value_pairs() {
            Ok(v) => v,
            Err(e) => {
                return Err(e);
            },
        };
        Ok(Annotation { type_index, element_value_pairs })
    }

    /// Reads one element-value pair: a name index and the value.
    pub fn read_element_value_pair(&mut self) -> (r: ParseResult<ElementValuePair>)
        requires
            old(self).wf(),
        ensures
            final(self).wf(),
            final(self).bytes@ == old(self).bytes@,
            match r {
                Ok(v) => old(self).position < final(self).position && evpair_at(old(self).bytes@,
                    old(self).position as int, Ok((v, final(self).position as int))),
                Err(e) => evpair_at(old(self).bytes@, old(self).position as int, Err(e)),
            },
        decreases old(self).bytes@.len() - old(self).position,
    {
        let element_name_index = match self.read_u16() {
            Ok(v) => v,
            Err(e) => {
                return Err(e);
            },
        };
        let value = match self.read_element_value() {
            Ok(v) => v,
            Err(e) => {
                return Err(e);
            },
        };
        Ok(ElementValuePair { element_name_index, value })
    }

    /// Reads one element value, dispatching on its tag character.
    pub fn read_element_value(&mut self) -> (r: ParseResult<ElementValue>)
        requires
            old(self).wf(),
        ensures
            final(self).wf(),
            final(self).bytes@ == old(self).bytes@,
            match r {
                Ok(v) => old(self).position < final(self).position && element_value_at(
                    old(self).bytes@, old(self).position as int, Ok((v,
                    final(self).position as int))),
                Err(e) => element_value_at(old(self).bytes@, old(self).position as int, Err(e)),
            },
        decreases old(self).bytes@.len() - old(self).position,
    {
        let tag = match self.read_u8() {
            Ok(v) => v,
            Err(e) => {
                return Err(e);
            },
        };
        match tag {
            0x42 | 0x43 | 0x44 | 0x46 | 0x49 | 0x4A | 0x53 | 0x5A | 0x73 => {
                let const_value_index = match self.read_u16() {
                    Ok(v) => v,
                    Err(e) => {
                        return Err(e);
                    },
                };
                Ok(ElementValue::Constant { const_value_index })
            },
            0x65 => {
                let type_name_index = match self.read_u16() {
                    Ok(v) => v,
                    Err(e) => {
                        return Err(e);
                    },
                };
                let const_name_index = match self.read_u16() {
                    Ok(v) => v,
                    Err(e) => {
                        return Err(e);
                    },
                };
                Ok(ElementValue::EnumConstant { type_name_index, const_name_index })
            },
            0x63 => {
                let class_info_index = match self.read_u16() {
                    Ok(v) => v,
                    Err(e) => {
                        return Err(e);
                    },
                };
                Ok(ElementValue::Class { class_info_index })
            },
            0x40 => {
                let annotation = match self.read_annotation() {
                    Ok(v) => v,
                    Err(e) => {
                        return Err(e);
                    },
                };
                Ok(ElementValue::Annotation(annotation))
            },
            0x5B => {
                let element_values = match self.read_element_values() {
                    Ok(v) => v,
                    Err(e) => {
                        return Err(e);
                    },
                };
                Ok(ElementValue::Array(element_values))
            },
            _ => Err(ParseError::UnknownElementValueTag(tag)),
        }
    }

    /// Reads one bootstrap-method record.
    pub fn read_bootstrap_method(&mut self) -> (r: ParseResult<BootstrapMethod>)
        requires
            old(self).wf(),
        ensures
            final(self).wf(),
            final(self).bytes@ == old(self).bytes@,
            match r {
                Ok(v) => old(self).position < final(self).position && bootstrap_method_at(
                    old(self).bytes@, old(self).position as int, Ok((v,
                    final(self).position as int))),
                Err(e) => bootstrap_method_at(old(self).bytes@, old(self).position as int,
                    Err(e)),
            },
    {
        let method_ref = match self.read_u16() {
            Ok(v) => v,
            Err(e) => {
                return Err(e);
            },
        };
        let num_arguments = match self.read_u16() {
            Ok(v) => v,
            Err(e) => {
                return Err(e);
            },
        };
        let arguments = match self.read_u16_list(num_arguments) {
            Ok(v) => v,
            Err(e) => {
                return Err(e);
            },
        };
        Ok(BootstrapMethod { method_ref, arguments })
    }

    /// Reads one type annotation: target-type tag, target info, type path,
    /// type index, and element-value pairs.
    pub fn read_type_annotation(&mut self) -> (r: ParseResult<TypeAnnotation>)
        requires
            old(self).wf(),
        ensures
            final(self).wf(),
            final(self).bytes@ == old(self).bytes@,
            match r {
                Ok(v) => old(self).position < final(self).position && type_annotation_at(
                    old(self).bytes@, old(self).position as int, Ok((v,
                    final(self).position as int))),
                Err(e) => type_annotation_at(old(self).bytes@, old(self).position as int,
                    Err(e)),
            },
    {
        let ghost b = self.bytes@;
        let ghost pos = self.position as int;
        let target_type_tag = match self.read_u8() {
            Ok(v) => v,
            Err(e) => {
                return Err(e);
            },
        };
        let target_type = match target_type_tag {
            0x00 => TargetType::Type,
            0x01 => TargetType::Method,
            0x10 => TargetType::Supertype,
            0x11 => TargetType::TypeBound,
            0x12 => TargetType::MethodBound,
            0x13 => TargetType::Field,
            0x14 => TargetType::MethodReturnType,
            0x15 => TargetType::ReceiverType,
            0x16 => TargetType::Parameter,
            0x17 => TargetType::Throws,
            0x40 => TargetType::LocalVariableDeclaration,
            0x41 => TargetType::ResourceVariableDeclaration,
            0x42 => TargetType::ExceptionParameterDeclaration,
            0x43 => TargetType::Instanceof,
            0x44 => TargetType::New,
            0x45 => TargetType::MethodReferenceNew,
            0x46 => TargetType::MethodReference,
            0x47 => TargetType::Cast,
            0x48 => TargetType::ConstructorArgument,
            0x49 => TargetType::MethodArgument,
            0x4A => TargetType::MethodReferenceNewArgument,
            0x4B => TargetType::MethodReferenceArgument,
            _ => {
                return Err(ParseError::UnknownTargetType(target_type_tag));
            },
        };
        let target_info = match self.read_target_info(target_type_tag) {
            Ok(v) => v,
            Err(e) => {
                return Err(e);
            },
        };
        let ghost q = self.position as int;
        let path_length = match self.read_u8() {
            Ok(v) => v,
            Err(e) => {
                return Err(e);
            },
        };
        let path = match self.read_path_elements(path_length as u16) {
            Ok(v) => v,
            Err(e) => {
                return Err(e);
            },
        };
        let ghost mid = self.position as int;
        let type_index = match self.read_u16() {
            Ok(v) => v,
            Err(e) => {
                proof {
                    assert(step_to(path@, mid) && q + 1 <= mid <= b.len()
                        && span_path_elems(b, q + 1, mid, path@));
                }
                return Err(e);
            },
        };
        let element_value_pairs = match self.read_element_value_pairs() {
            Ok(v) => v,
            Err(e) => {
                proof {
                    assert(step_to(path@, mid) && q + 1 <= mid <= b.len()
                        && span_path_elems(b, q + 1, mid, path@));
                }
                return Err(e);
            },
        };
        let result = TypeAnnotation {
            target_type,
            target_info,
            type_path: TypePath { path },
            type_index,
            element_value_pairs,
        };
        proof {
            assert(boundary(q, mid));
            assert(tann_rest_at(b, b[pos], pos, result, q, mid, self.position as int));
        }
        Ok(result)
    }

    /// Reads the target-info payload whose shape the (already validated)
    /// target-type tag selects.
    pub fn read_target_info(&mut self, tag: u8) -> (r: ParseResult<TargetInfo>)
        requires
            old(self).wf(),
        ensures
            final(self).wf(),
            final(self).bytes@ == old(self).bytes@,
            match r {
                Ok(v) => old(self).position <= final(self).position && target_info_at(
                    old(self).bytes@, tag, old(self).position as int, Ok((v,
                    final(self).position as int))),
                Err(e) => target_info_at(old(self).bytes@, tag, old(self).position as int,
                    Err(e)),
            },
    {
        if tag == 0x00 || tag == 0x01 {
            let index = match self.read_u8() {
                Ok(v) => v,
                Err(e) => {
                    return Err(e);
                },
            };
            Ok(TargetInfo::TypeParameter { index })
        } else if tag == 0x10 {
            let index = match self.read_u16() {
                Ok(v) => v,
                Err(e) => {
                    return Err(e);
                },
            };
            Ok(TargetInfo::Supertype { index })
        } else if tag == 0x11 || tag == 0x12 {
            let index = match self.read_u8() {
                Ok(v) => v,
                Err(e) => {
                    return Err(e);
                },
            };
            let bound_index = match self.read_u8() {
                Ok(v) => v,
                Err(e) => {
                    return Err(e);
                },
            };
            Ok(TargetInfo::TypeParameterBound { index, bound_index })
        } else if tag >= 0x13 && tag <= 0x15 {
            Ok(TargetInfo::Empty)
        } else if tag == 0x16 {
            let index = match self.read_u8() {
                Ok(v) => v,
                Err(e) => {
                    return Err(e);
                },
            };
            Ok(TargetInfo::MethodFormalParameter { index })
        } else if tag == 0x17 {
            let type_index = match self.read_u16() {
                Ok(v) => v,
                Err(e) => {
                    return Err(e);
                },
            };
            Ok(TargetInfo::Throws { type_index })
        } else if tag == 0x40 || tag == 0x41 {
            let table_length = match self.read_u16() {
                Ok(v) => v,
                Err(e) => {
                    return Err(e);
                },
            };
            let table = match self.read_localvar_targets(table_length) {
                Ok(v) => v,
                Err(e) => {
                    return Err(e);
                },
            };
            Ok(TargetInfo::Localvar(table))
        } else if tag == 0x42 {
            let exception_table_index = match self.read_u16() {
                Ok(v) => v,
                Err(e) => {
                    return Err(e);
                },
            };
            Ok(TargetInfo::Catch { exception_table_index })
        } else if tag >= 0x43 && tag <= 0x46 {
            let offset = match self.read_u16() {
                Ok(v) => v,
                Err(e) => {
                    return Err(e);
                },
            };
            Ok(TargetInfo::Offset(offset))
        } else {
            let offset = match self.read_u16() {
                Ok(v) => v,
                Err(e) => {
                    return Err(e);
                },
            };
            let index = match self.read_u8() {
                Ok(v) => v,
                Err(e) => {
                    return Err(e);
                },
            };
            Ok(TargetInfo::TypeArgument { offset, index })
        }
    }

    /// Reads one field-table entry.
    pub fn read_field(&mut self, constant_pool: &Vec<ConstantPoolInfo>) -> (r: ParseResult<Field>)
        requires
            old(self).wf(),
        ensures
            final(self).wf(),
            final(self).bytes@ == old(self).bytes@,
            match r {
                Ok(v) => old(self).position < final(self).position && field_at(old(self).bytes@,
                    constant_pool@, old(self).position as int, Ok((v,
                    final(self).position as int))),
                Err(e) => field_at(old(self).bytes@, constant_pool@, old(self).position as int,
                    Err(e)),
            },
    {
        let access_flags = match self.read_u16() {
            Ok(v) => v,
            Err(e) => {
                return Err(e);
            },
        };
        let name_index = match self.read_u16() {
            Ok(v) => v,
            Err(e) => {
                return Err(e);
            },
        };
        let descriptor_index = match self.read_u16() {
            Ok(v) => v,
            Err(e) => {
                return Err(e);
            },
        };
        let attributes = match self.read_attributes(constant_pool) {
            Ok(v) => v,
            Err(e) => {
                return Err(e);
            },
        };
        Ok(Field { access_flags, name_index, descriptor_index, attributes })
    }

    /// Reads one method-table entry.
    pub fn read_method(&mut self, constant_pool: &Vec<ConstantPoolInfo>) -> (r: ParseResult<
        Method,
    >)
        requires
            old(self).wf(),
        ensures
            final(self).wf(),
            final(self).bytes@ == old(self).bytes@,
            match r {
                Ok(v) => old(self).position < final(self).position && method_at(old(self).bytes@,
                    constant_pool@, old(self).position as int, Ok((v,
                    final(self).position as int))),
                Err(e) => method_at(old(self).bytes@, constant_pool@, old(self).position as int,
                    Err(e)),
            },
    {
        let access_flags = match self.read_u16() {
            Ok(v) => v,
            Err(e) => {
                return Err(e);
            },
        };
        let name_index = match self.read_u16() {
            Ok(v) => v,
            Err(e) => {
                return Err(e);
            },
        };
        let descriptor_index = match self.read_u16() {
            Ok(v) => v,
            Err(e) => {
                return Err(e);
            },
        };
        let attributes = match self.read_attributes(constant_pool) {
            Ok(v) => v,
            Err(e) => {
                return Err(e);
            },
        };
        Ok(Method { access_flags, name_index, descriptor_index, attributes })
    }

    /// Reads one attribute: a name index, a declared length, then the
    /// layout selected by the name the index resolves to; an unrecognized
    /// name keeps exactly `length` raw bytes.
    pub fn read_attribute(&mut self, constant_pool: &Vec<ConstantPoolInfo>) -> (r: ParseResult<
        Attribute,
    >)
        requires
            old(self).wf(),
        ensures
            final(self).wf(),
            final(self).bytes@ == old(self).bytes@,
            match r {
                Ok(v) => old(self).position < final(self).position && attribute_at(
                    old(self).bytes@, constant_pool@, old(self).position as int, Ok((v,
                    final(self).position as int))),
                Err(e) => attribute_at(old(self).bytes@, constant_pool@,
                    old(self).position as int, Err(e)),
            },
        decreases old(self).bytes@.len() - old(self).position,
    {
        let name_index = match self.read_u16() {
            Ok(v) => v,
            Err(e) => {
                return Err(e);
            },
        };
        let length = match self.read_u32() {
            Ok(v) => v,
            Err(e) => {
                return Err(e);
            },
        };
        if name_index == 0 || name_index as usize > constant_pool.len() {
            return Err(ParseError::AttributeNameOutOfRange(name_index));
        }
        let entry = &constant_pool[name_index as usize - 1];
        let name: &String = match entry {
            ConstantPoolInfo::Utf8(s) => s,
            _ => {
                return Err(ParseError::AttributeNameNotUtf8(name_index));
            },
        };
        if *name == String::from_str("Code") {
            self.read_code_attribute(constant_pool)
        } else if *name == String::from_str("ConstantValue") {
            let constvalue_index = match self.read_u16() {
                Ok(v) => v,
                Err(e) => {
                    return Err(e);
                },
            };
            Ok(Attribute::ConstantValue { constvalue_index })
        } else if *name == String::from_str("StackMapTable") {
            let number_of_entries = match self.read_u16() {
                Ok(v) => v,
                Err(e) => {
                    return Err(e);
                },
            };
            let entries = match self.read_stack_map_frames(number_of_entries) {
                Ok(v) => v,
                Err(e) => {
                    return Err(e);
                },
            };
            Ok(Attribute::StackMapTable(entries))
        } else if *name == String::from_str("Exceptions") {
            let number_of_exceptions = match self.read_u16() {
                Ok(v) => v,
                Err(e) => {
                    return Err(e);
                },
            };
            let exception_index_table = match self.read_u16_list(number_of_exceptions) {
                Ok(v) => v,
                Err(e) => {
                    return Err(e);
                },
            };
            Ok(Attribute::Exceptions { exception_index_table })
        } else if *name == String::from_str("InnerClasses") {
            let number_of_classes = match self.read_u16() {
                Ok(v) => v,
                Err(e) => {
                    return Err(e);
                },
            };
            let classes = match self.read_inner_classes(number_of_classes) {
                Ok(v) => v,
                Err(e) => {
                    return Err(e);
                },
            };
            Ok(Attribute::InnerClasses { classes })
        } else if *name == String::from_str("EnclosingMethod") {
            let class_index = match self.read_u16() {
                Ok(v) => v,
                Err(e) => {
                    return Err(e);
                },
            };
            let method_index = match self.read_u16() {
                Ok(v) => v,
                Err(e) => {
                    return Err(e);
                },
            };
            Ok(Attribute::EnclosingMethod { class_index, method_index })
        } else if *name == String::from_str("Synthetic") {
            Ok(Attribute::Synthetic)
        } else if *name == String::from_str("Signature") {
            let signature_index = match self.read_u16() {
                Ok(v) => v,
                Err(e) => {
                    return Err(e);
                },
            };
            Ok(Attribute::Signature { signature_index })
        } else if *name == String::from_str("SourceFile") {
            let sourcefile_index = match self.read_u16() {
                Ok(v) => v,
                Err(e) => {
                    return Err(e);
                },
            };
            Ok(Attribute::SourceFile { sourcefile_index })
        } else if *name == String::from_str("SourceDebugExtension") {
            let data = match self.read_bytes(length) {
                Ok(v) => v,
                Err(e) => {
                    return Err(e);
                },
            };
            Ok(Attribute::SourceDebugExtension(data))
        } else if *name == String::from_str("LineNumberTable") {
            let table_length = match self.read_u16() {
                Ok(v) => v,
                Err(e) => {
                    return Err(e);
                },
            };
            let entries = match self.read_line_numbers(table_length) {
                Ok(v) => v,
                Err(e) => {
                    return Err(e);
                },
            };
            Ok(Attribute::LineNumberTable(entries))
        } else if *name == String::from_str("LocalVariableTable") {
            let table_length = match self.read_u16() {
                Ok(v) => v,
                Err(e) => {
                    return Err(e);
                },
            };
            let entries = match self.read_local_variables(table_length) {
                Ok(v) => v,
                Err(e) => {
                    return Err(e);
                },
            };
            Ok(Attribute::LocalVariableTable(entries))
        } else if *name == String::from_str("LocalVariableTypeTable") {
            let table_length = match self.read_u16() {
                Ok(v) => v,
                Err(e) => {
                    return Err(e);
                },
            };
            let entries = match self.read_local_variables(table_length) {
                Ok(v) => v,
                Err(e) => {
                    return Err(e);
                },
            };
            Ok(Attribute::LocalVariableTypeTable(entries))
        } else if *name == String::from_str("Deprecated") {
            Ok(Attribute::Deprecated)
        } else if *name == String::from_str("RuntimeVisibleAnnotations") {
            let annotations = match self.read_annotations() {
                Ok(v) => v,
                Err(e) => {
                    return Err(e);
                },
            };
            Ok(Attribute::RuntimeVisibleAnnotations(annotations))
        } else if *name == String::from_str("RuntimeInvisibleAnnotations") {
            let annotations = match self.read_annotations() {
                Ok(v) => v,
                Err(e) => {
                    return Err(e);
                },
            };
            Ok(Attribute::RuntimeInvisibleAnnotations(annotations))
        } else if *name == String::from_str("RuntimeVisibleParameterAnnotations") {
            let parameter_annotations = match self.read_parameter_annotations() {
                Ok(v) => v,
                Err(e) => {
                    return Err(e);
                },
            };
            Ok(Attribute::RuntimeVisibleParameterAnnotations(parameter_annotations))
        } else if *name == String::from_str("RuntimeInvisibleParameterAnnotations") {
            let parameter_annotations = match self.read_parameter_annotations() {
                Ok(v) => v,
                Err(e) => {
                    return Err(e);
                },
            };
            Ok(Attribute::RuntimeInvisibleParameterAnnotations(parameter_annotations))
        } else if *name == String::from_str("RuntimeVisibleTypeAnnotations") {
            let type_annotations = match self.read_type_annotations() {
                Ok(v) => v,
                Err(e) => {
                    return Err(e);
                },
            };
            Ok(Attribute::RuntimeVisibleTypeAnnotations(type_annotations))
        } else if *name == String::from_str("RuntimeInvisibleTypeAnnotations") {
            let type_annotations = match self.read_type_annotations() {
                Ok(v) => v,
                Err(e) => {
                    return Err(e);
                },
            };
            Ok(Attribute::RuntimeInvisibleTypeAnnotations(type_annotations))
        } else if *name == String::from_str("AnnotationDefault") {
            let element_value = match self.read_element_value() {
                Ok(v) => v,
                Err(e) => {
                    return Err(e);
                },
            };
            Ok(Attribute::AnnotationDefault { element_value })
        } else if *name == String::from_str("BootstrapMethods") {
            let bootstrap_methods = match self.read_bootstrap_methods() {
                Ok(v) => v,
                Err(e) => {
                    return Err(e);
                },
            };
            Ok(Attribute::BootstrapMethods(bootstrap_methods))
        } else if *name == String::from_str("MethodParameters") {
            let num_parameters = match self.read_u8() {
                Ok(v) => v,
                Err(e) => {
                    return Err(e);
                },
            };
            let parameters = match self.read_method_parameters(num_parameters as u16) {
                Ok(v) => v,
                Err(e) => {
                    return Err(e);
                },
            };
            Ok(Attribute::MethodParameters(parameters))
        } else {
            let info = match self.read_bytes(length) {
                Ok(v) => v,
                Err(e) => {
                    return Err(e);
                },
            };
            Ok(Attribute::Unknown(info))
        }
    }

    /// Reads the body of a `Code` attribute: stack and local sizing, the
    /// instruction bytes (decoded separately), the exception table, and a
    /// nested attribute list.
    pub fn read_code_attribute(&mut self, constant_pool: &Vec<ConstantPoolInfo>) -> (r:
        ParseResult<Attribute>)
        requires
            old(self).wf(),
        ensures
            final(self).wf(),
            final(self).bytes@ == old(self).bytes@,
            match r {
                Ok(v) => old(self).position < final(self).position && code_attribute_at(
                    old(self).bytes@, constant_pool@, old(self).position as int, Ok((v,
                    final(self).position as int))),
                Err(e) => code_attribute_at(old(self).bytes@, constant_pool@,
                    old(self).position as int, Err(e)),
            },
        decreases old(self).bytes@.len() - old(self).position,
    {
        let ghost b = self.bytes@;
        let ghost p = self.position as int;
        let max_stack = match self.read_u16() {
            Ok(v) => v,
            Err(e) => {
                return Err(e);
            },
        };
        let max_locals = match self.read_u16() {
            Ok(v) => v,
            Err(e) => {
                return Err(e);
            },
        };
        let code_length = match self.read_u32() {
            Ok(v) => v,
            Err(e) => {
                return Err(e);
            },
        };
        let code = match self.read_bytes(code_length) {
            Ok(v) => v,
            Err(e) => {
                return Err(e);
            },
        };
        let ghost q = self.position as int;
        let exception_table_length = match self.read_u16() {
            Ok(v) => v,
            Err(e) => {
                return Err(e);
            },
        };
        let exceptions = match self.read_exception_table(exception_table_length) {
            Ok(v) => v,
            Err(e) => {
                return Err(e);
            },
        };
        let ghost r0 = q + 2 + 8 * (exception_table_length as int);
        let attributes = match self.read_attributes(constant_pool) {
            Ok(v) => v,
            Err(e) => {
                return Err(e);
            },
        };
        let instructions = match crate::decode::decode_code(&code) {
            Ok(v) => v,
            Err(e) => {
                proof {
                    assert(step_to(attributes@, self.position as int)
                        && attrs_section_at(b, constant_pool@, r0, Ok((attributes@,
                        self.position as int))));
                }
                return Err(e);
            },
        };
        Ok(Attribute::Code {
            max_stack,
            max_locals,
            code: instructions,
            exception_table: exceptions,
            attributes,
        })
    }

    /// Decodes a whole class file from an in-memory image: the fully
    /// populated `Class`, or the first error encountered.
    pub fn new_from_bytes(bytes: Vec<u8>) -> (r: ParseResult<Class>)
        ensures
            class_file_at(bytes@, r),
    {
        let ghost b = bytes@;
        let mut cr = ClassReader::new(bytes);
        let magic = match cr.read_u32() {
            Ok(v) => v,
            Err(e) => {
                return Err(e);
            },
        };
        let minor_version = match cr.read_u16() {
            Ok(v) => v,
            Err(e) => {
                return Err(e);
            },
        };
        let major_version = match cr.read_u16() {
            Ok(v) => v,
            Err(e) => {
                return Err(e);
            },
        };
        let constant_pool = match cr.read_constant_pool() {
            Ok(v) => v,
            Err(e) => {
                return Err(e);
            },
        };
        let ghost p1 = cr.position as int;
        let access_flags = match cr.read_u16() {
            Ok(v) => v,
            Err(e) => {
                proof {
                    assert(cp_section_at(b, 8, Ok((constant_pool@, p1))));
                }
                return Err(e);
            },
        };
        let this_class = match cr.read_u16() {
            Ok(v) => v,
            Err(e) => {
                proof {
                    assert(cp_section_at(b, 8, Ok((constant_pool@, p1))));
                }
                return Err(e);
            },
        };
        let super_class = match cr.read_u16() {
            Ok(v) => v,
            Err(e) => {
                proof {
                    assert(cp_section_at(b, 8, Ok((constant_pool@, p1))));
                }
                return Err(e);
            },
        };
        let interfaces = match cr.read_interfaces() {
            Ok(v) => v,
            Err(e) => {
                proof {
                    assert(cp_section_at(b, 8, Ok((constant_pool@, p1))));
                }
                return Err(e);
            },
        };
        let ghost p2 = cr.position as int;
        let fields = match cr.read_fields(&constant_pool) {
            Ok(v) => v,
            Err(e) => {
                proof {
                    assert(cp_section_at(b, 8, Ok((constant_pool@, p1))));
                    assert(fields_section_at(b, constant_pool@, p2, Err(e)));
                }
                return Err(e);
            },
        };
        let ghost p3 = cr.position as int;
        let methods = match cr.read_methods(&constant_pool) {
            Ok(v) => v,
            Err(e) => {
                proof {
                    assert(cp_section_at(b, 8, Ok((constant_pool@, p1))));
                    assert(fields_section_at(b, constant_pool@, p2, Ok((fields@, p3))));
                    assert(methods_section_at(b, constant_pool@, p3, Err(e)));
                }
                return Err(e);
            },
        };
        let ghost p4 = cr.position as int;
        let attributes = match cr.read_attributes(&constant_pool) {
            Ok(v) => v,
            Err(e) => {
                proof {
                    assert(cp_section_at(b, 8, Ok((constant_pool@, p1))));
                    assert(fields_section_at(b, constant_pool@, p2, Ok((fields@, p3))));
                    assert(methods_section_at(b, constant_pool@, p3, Ok((methods@, p4))));
                    assert(attrs_section_at(b, constant_pool@, p4, Err(e)));
                }
                return Err(e);
            },
        };
        let ghost p5 = cr.position as int;
        let result = Class {
            magic,
            minor_version,
            major_version,
            constant_pool,
            access_flags,
            this_class,
            super_class,
            interfaces,
            fields,
            methods,
            attributes,
        };
        proof {
            reveal(class_body_at);
            assert(boundaries(p1, p3, p4, p5));
            assert(cp_section_at(b, 8, Ok((result.constant_pool@, p1))));
            assert(fields_section_at(b, result.constant_pool@, p2, Ok((result.fields@, p3))));
            assert(methods_section_at(b, result.constant_pool@, p3, Ok((result.methods@, p4))));
            assert(attrs_section_at(b, result.constant_pool@, p4, Ok((result.attributes@, p5))));
            assert(class_body_at(b, result, p1, p3, p4, p5));
        }
        Ok(result)
    }
}

} // verus!
