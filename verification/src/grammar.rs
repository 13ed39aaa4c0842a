//! The byte-level grammar of the class-file container, as relations between
//! byte sequences and decoded values.
//!
//! Each `*_at` spec function relates the bytes from a position to the decoded
//! value together with the position after it (`Ok((value, end))`), or to the
//! exact error those bytes produce (`Err(e)`). The branching follows the
//! bytes, never the candidate outcome, so for a given input exactly one
//! outcome (up to the abstract contents of `Vec` and `String` payloads)
//! satisfies each relation.
//!
//! Lists come in two forms: fixed-width records are pinned with a `forall`
//! (`u16s_at`, `exceptions_at`, ...); variable-width records use a `span_*`
//! relation (a range decodes exactly to a sequence) with a `fails_*` relation
//! for the error case, plus the two lemmas each loop needs: appending one
//! element extends a span, and a span followed by a failure fails the list.
//!
//! The second half of the module states and proves the grammar's laws: the
//! constant pool's index bookkeeping (`lemma_pool_slot_bookkeeping`),
//! determinism up to structural equality at every level — culminating in
//! `lemma_class_file_deterministic` — and monotonicity of successful
//! decoding under input extension, which yields
//! `lemma_truncation_never_decodes`: an image consumed in full can never
//! decode after truncation.

use vstd::prelude::*;

use crate::decode::code_fails;
use crate::decode::code_span;
use crate::error::ParseError;
use crate::model::Annotation;
use crate::model::Attribute;
use crate::model::BootstrapMethod;
use crate::model::Class;
use crate::model::ConstantPoolInfo;
use crate::model::ElementValue;
use crate::model::ElementValuePair;
use crate::model::Exception;
use crate::model::Field;
use crate::model::InnerClass;
use crate::model::LineNumber;
use crate::model::LocalVariable;
use crate::model::LocalVariableTarget;
use crate::model::Method;
use crate::model::MethodParameter;
use crate::model::PathElement;
use crate::model::StackMapFrame;
use crate::model::TargetInfo;
use crate::model::TargetType;
use crate::model::TypeAnnotation;
use crate::model::TypePathKind;
use crate::model::VerificationType;
use crate::mutf8::char_points;
use crate::mutf8::mutf8_points;
use crate::nums::be_u16;
use crate::nums::be_u32;
use crate::nums::be_u64;
use crate::nums::spec_i32;
use crate::nums::spec_i64;

verus! {

/// Always true; used only as a quantifier trigger, marking `mid` as the
/// position after a decoded step whose value is `x`.
pub open spec fn step_to<T>(x: T, mid: int) -> bool {
    true
}

/// Always true; used only as a quantifier trigger, marking `mid` as a
/// decoding boundary reached from `lo`.
pub open spec fn boundary(lo: int, mid: int) -> bool {
    true
}

/// Always true; used only as a quantifier trigger, marking the four stage
/// boundaries of a decoded class file.
pub open spec fn boundaries(p1: int, p3: int, p4: int, p5: int) -> bool {
    true
}

/// One constant-pool record at `pos`: a tag byte, then the tag's payload.
/// A text record (tag 1) carries a 16-bit byte length and that many bytes of
/// modified multi-byte text.
pub open spec fn cp_entry_at(
    b: Seq<u8>,
    pos: int,
    out: Result<(ConstantPoolInfo, int), ParseError>,
) -> bool {
    if pos + 1 > b.len() {
        out == Err::<(ConstantPoolInfo, int), _>(ParseError::Io)
    } else {
        let tag = b[pos];
        if tag == 1 {
            if pos + 3 > b.len() {
                out == Err::<(ConstantPoolInfo, int), _>(ParseError::Io)
            } else {
                let n = be_u16(b, pos + 1);
                if pos + 3 + n > b.len() {
                    out == Err::<(ConstantPoolInfo, int), _>(ParseError::Io)
                } else {
                    out matches Ok((e, end)) && end == pos + 3 + n && (e matches
                        ConstantPoolInfo::Utf8(s)
                        && char_points(s@) == mutf8_points(b.subrange(pos + 3, pos + 3 + n)))
                }
            }
        } else if tag == 3 {
            if pos + 5 > b.len() {
                out == Err::<(ConstantPoolInfo, int), _>(ParseError::Io)
            } else {
                out == Ok::<_, ParseError>((ConstantPoolInfo::Integer(spec_i32(be_u32(b, pos + 1)
                    as u32)), pos + 5))
            }
        } else if tag == 4 {
            if pos + 5 > b.len() {
                out == Err::<(ConstantPoolInfo, int), _>(ParseError::Io)
            } else {
                out == Ok::<_, ParseError>((ConstantPoolInfo::Float(be_u32(b, pos + 1) as u32),
                    pos + 5))
            }
        } else if tag == 5 {
            if pos + 9 > b.len() {
                out == Err::<(ConstantPoolInfo, int), _>(ParseError::Io)
            } else {
                out == Ok::<_, ParseError>((ConstantPoolInfo::Long(spec_i64(be_u64(b, pos + 1)
                    as u64)), pos + 9))
            }
        } else if tag == 6 {
            if pos + 9 > b.len() {
                out == Err::<(ConstantPoolInfo, int), _>(ParseError::Io)
            } else {
                out == Ok::<_, ParseError>((ConstantPoolInfo::Double(be_u64(b, pos + 1) as u64),
                    pos + 9))
            }
        } else if tag == 7 {
            if pos + 3 > b.len() {
                out == Err::<(ConstantPoolInfo, int), _>(ParseError::Io)
            } else {
                out == Ok::<_, ParseError>((ConstantPoolInfo::Class(be_u16(b, pos + 1) as u16),
                    pos + 3))
            }
        } else if tag == 8 {
            if pos + 3 > b.len() {
                out == Err::<(ConstantPoolInfo, int), _>(ParseError::Io)
            } else {
                out == Ok::<_, ParseError>((ConstantPoolInfo::Str(be_u16(b, pos + 1) as u16),
                    pos + 3))
            }
        } else if tag == 9 {
            if pos + 5 > b.len() {
                out == Err::<(ConstantPoolInfo, int), _>(ParseError::Io)
            } else {
                out == Ok::<_, ParseError>((ConstantPoolInfo::Fieldref(be_u16(b, pos + 1) as u16,
                    be_u16(b, pos + 3) as u16), pos + 5))
            }
        } else if tag == 10 {
            if pos + 5 > b.len() {
                out == Err::<(ConstantPoolInfo, int), _>(ParseError::Io)
            } else {
                out == Ok::<_, ParseError>((ConstantPoolInfo::Methodref(be_u16(b, pos + 1) as u16,
                    be_u16(b, pos + 3) as u16), pos + 5))
            }
        } else if tag == 11 {
            if pos + 5 > b.len() {
                out == Err::<(ConstantPoolInfo, int), _>(ParseError::Io)
            } else {
                out == Ok::<_, ParseError>((ConstantPoolInfo::InterfaceMethodref(be_u16(b, pos + 1)
                    as u16, be_u16(b, pos + 3) as u16), pos + 5))
            }
        } else if tag == 12 {
            if pos + 5 > b.len() {
                out == Err::<(ConstantPoolInfo, int), _>(ParseError::Io)
            } else {
                out == Ok::<_, ParseError>((ConstantPoolInfo::NameAndType(be_u16(b, pos + 1)
                    as u16, be_u16(b, pos + 3) as u16), pos + 5))
            }
        } else if tag == 15 {
            if pos + 4 > b.len() {
                out == Err::<(ConstantPoolInfo, int), _>(ParseError::Io)
            } else {
                out == Ok::<_, ParseError>((ConstantPoolInfo::MethodHandle(b[pos + 1], be_u16(b,
                    pos + 2) as u16), pos + 4))
            }
        } else if tag == 16 {
            if pos + 3 > b.len() {
                out == Err::<(ConstantPoolInfo, int), _>(ParseError::Io)
            } else {
                out == Ok::<_, ParseError>((ConstantPoolInfo::MethodType(be_u16(b, pos + 1)
                    as u16), pos + 3))
            }
        } else if tag == 18 {
            if pos + 5 > b.len() {
                out == Err::<(ConstantPoolInfo, int), _>(ParseError::Io)
            } else {
                out == Ok::<_, ParseError>((ConstantPoolInfo::InvokeDynamic(be_u16(b, pos + 1)
                    as u16, be_u16(b, pos + 3) as u16), pos + 5))
            }
        } else {
            out == Err::<(ConstantPoolInfo, int), _>(ParseError::UnknownConstantPoolTag(tag,
                pos as usize))
        }
    }
}

/// The byte range `lo..hi` decodes exactly to the pool slots `s`: one record
/// per tag, with an `Invalid` filler slot right after each `Long` or
/// `Double`.
pub open spec fn span_cp(b: Seq<u8>, lo: int, hi: int, s: Seq<ConstantPoolInfo>) -> bool
    decreases s.len(),
{
    if s.len() == 0 {
        lo == hi
    } else {
        exists|mid: int|
            lo < mid <= b.len() && #[trigger] cp_entry_at(b, lo, Ok((s[0], mid))) && (if s[0]
                is Long || s[0] is Double {
                s.len() >= 2 && s[1] == ConstantPoolInfo::Invalid && span_cp(b, mid, hi, s.skip(2))
            } else {
                span_cp(b, mid, hi, s.drop_first())
            })
    }
}

/// Decoding constant-pool records with `k` index slots still owed fails with
/// exactly the error `e`.
pub open spec fn fails_cp(b: Seq<u8>, pos: int, k: int, e: ParseError) -> bool
    decreases b.len() - pos,
{
    k > 0 && (cp_entry_at(b, pos, Err(e)) || exists|el: ConstantPoolInfo, mid: int|
        pos < mid <= b.len() && #[trigger] cp_entry_at(b, pos, Ok((el, mid))) && (if el is Long
            || el is Double {
            fails_cp(b, mid, k - 2, e)
        } else {
            fails_cp(b, mid, k - 1, e)
        }))
}

/// Appending one decoded single-slot record extends a decoded pool span.
pub proof fn lemma_span_cp_snoc(
    b: Seq<u8>,
    lo: int,
    mid: int,
    s: Seq<ConstantPoolInfo>,
    el: ConstantPoolInfo,
    end: int,
)
    requires
        span_cp(b, lo, mid, s),
        cp_entry_at(b, mid, Ok((el, end))),
        !(el is Long || el is Double),
        mid < end <= b.len(),
    ensures
        span_cp(b, lo, end, s.push(el)),
    decreases s.len(),
{
    if s.len() == 0 {
        assert(s.push(el)[0] == el);
        assert(s.push(el).drop_first() =~= Seq::<ConstantPoolInfo>::empty());
        assert(span_cp(b, end, end, s.push(el).drop_first()));
    } else {
        let m = choose|m: int|
            lo < m <= b.len() && #[trigger] cp_entry_at(b, lo, Ok((s[0], m))) && (if s[0] is Long
                || s[0] is Double {
                s.len() >= 2 && s[1] == ConstantPoolInfo::Invalid && span_cp(b, m, mid, s.skip(2))
            } else {
                span_cp(b, m, mid, s.drop_first())
            });
        if s[0] is Long || s[0] is Double {
            lemma_span_cp_snoc(b, m, mid, s.skip(2), el, end);
            assert(s.push(el)[0] == s[0]);
            assert(s.push(el)[1] == s[1]);
            assert(s.push(el).skip(2) =~= s.skip(2).push(el));
            assert(lo < m <= b.len() && cp_entry_at(b, lo, Ok((s.push(el)[0], m)))
                && span_cp(b, m, end, s.push(el).skip(2)));
        } else {
            lemma_span_cp_snoc(b, m, mid, s.drop_first(), el, end);
            assert(s.push(el)[0] == s[0]);
            assert(s.push(el).drop_first() =~= s.drop_first().push(el));
            assert(lo < m <= b.len() && cp_entry_at(b, lo, Ok((s.push(el)[0], m)))
                && span_cp(b, m, end, s.push(el).drop_first()));
        }
    }
}

/// Appending one decoded two-slot record and its filler extends a decoded
/// pool span.
pub proof fn lemma_span_cp_snoc_double(
    b: Seq<u8>,
    lo: int,
    mid: int,
    s: Seq<ConstantPoolInfo>,
    el: ConstantPoolInfo,
    end: int,
)
    requires
        span_cp(b, lo, mid, s),
        cp_entry_at(b, mid, Ok((el, end))),
        el is Long || el is Double,
        mid < end <= b.len(),
    ensures
        span_cp(b, lo, end, s.push(el).push(ConstantPoolInfo::Invalid)),
    decreases s.len(),
{
    let s2 = s.push(el).push(ConstantPoolInfo::Invalid);
    if s.len() == 0 {
        assert(s2[0] == el);
        assert(s2[1] == ConstantPoolInfo::Invalid);
        assert(s2.skip(2) =~= Seq::<ConstantPoolInfo>::empty());
        assert(span_cp(b, end, end, s2.skip(2)));
    } else {
        let m = choose|m: int|
            lo < m <= b.len() && #[trigger] cp_entry_at(b, lo, Ok((s[0], m))) && (if s[0] is Long
                || s[0] is Double {
                s.len() >= 2 && s[1] == ConstantPoolInfo::Invalid && span_cp(b, m, mid, s.skip(2))
            } else {
                span_cp(b, m, mid, s.drop_first())
            });
        if s[0] is Long || s[0] is Double {
            lemma_span_cp_snoc_double(b, m, mid, s.skip(2), el, end);
            assert(s2[0] == s[0]);
            assert(s2[1] == s[1]);
            assert(s2.skip(2) =~= s.skip(2).push(el).push(ConstantPoolInfo::Invalid));
            assert(lo < m <= b.len() && cp_entry_at(b, lo, Ok((s2[0], m)))
                && span_cp(b, m, end, s2.skip(2)));
        } else {
            lemma_span_cp_snoc_double(b, m, mid, s.drop_first(), el, end);
            assert(s2[0] == s[0]);
            assert(s2.drop_first() =~= s.drop_first().push(el).push(ConstantPoolInfo::Invalid));
            assert(lo < m <= b.len() && cp_entry_at(b, lo, Ok((s2[0], m)))
                && span_cp(b, m, end, s2.drop_first()));
        }
    }
}

/// A decoded pool span followed by a failure fails the whole pool read.
pub proof fn lemma_span_cp_then_fails(
    b: Seq<u8>,
    lo: int,
    mid: int,
    s: Seq<ConstantPoolInfo>,
    k: int,
    e: ParseError,
)
    requires
        span_cp(b, lo, mid, s),
        fails_cp(b, mid, k, e),
    ensures
        fails_cp(b, lo, s.len() + k, e),
    decreases s.len(),
{
    if s.len() == 0 {
    } else {
        let m = choose|m: int|
            lo < m <= b.len() && #[trigger] cp_entry_at(b, lo, Ok((s[0], m))) && (if s[0] is Long
                || s[0] is Double {
                s.len() >= 2 && s[1] == ConstantPoolInfo::Invalid && span_cp(b, m, mid, s.skip(2))
            } else {
                span_cp(b, m, mid, s.drop_first())
            });
        if s[0] is Long || s[0] is Double {
            lemma_span_cp_then_fails(b, m, mid, s.skip(2), k, e);
            assert(lo < m <= b.len() && cp_entry_at(b, lo, Ok((s[0], m)))
                && fails_cp(b, m, s.len() + k - 2, e));
        } else {
            lemma_span_cp_then_fails(b, m, mid, s.drop_first(), k, e);
            assert(lo < m <= b.len() && cp_entry_at(b, lo, Ok((s[0], m)))
                && fails_cp(b, m, s.len() + k - 1, e));
        }
    }
}

/// The constant-pool section at `pos`: a 16-bit raw count `N`, then records
/// filling `N - 1` index slots. A two-slot record opening at the last owed
/// slot still emits its filler, so the decoded pool may hold one slot more.
pub open spec fn cp_section_at(
    b: Seq<u8>,
    pos: int,
    out: Result<(Seq<ConstantPoolInfo>, int), ParseError>,
) -> bool {
    if pos + 2 > b.len() {
        out == Err::<(Seq<ConstantPoolInfo>, int), _>(ParseError::Io)
    } else {
        let n = be_u16(b, pos);
        let m: int = if n >= 1 {
            n - 1
        } else {
            0
        };
        match out {
            Ok((s, end)) => span_cp(b, pos + 2, end, s) && (s.len() == m || (s.len() == m + 1
                && s.len() >= 2 && (s[s.len() - 2] is Long || s[s.len() - 2] is Double))),
            Err(e) => fails_cp(b, pos + 2, m, e),
        }
    }
}

/// `s` is the `n` big-endian 16-bit values starting at `base`.
pub open spec fn u16s_at(b: Seq<u8>, base: int, n: int, s: Seq<u16>) -> bool {
    s.len() == n && forall|k: int| 0 <= k < n ==> #[trigger] s[k] == be_u16(b, base + 2 * k) as u16
}

/// `s` is the `n` 8-byte exception-handler records starting at `base`.
pub open spec fn exceptions_at(b: Seq<u8>, base: int, n: int, s: Seq<Exception>) -> bool {
    s.len() == n && forall|k: int| 0 <= k < n ==> #[trigger] s[k] == (Exception {
        start_pc: be_u16(b, base + 8 * k) as u16,
        end_pc: be_u16(b, base + 8 * k + 2) as u16,
        handler_pc: be_u16(b, base + 8 * k + 4) as u16,
        catch_type: be_u16(b, base + 8 * k + 6) as u16,
    })
}

/// `s` is the `n` 8-byte inner-class records starting at `base`.
pub open spec fn inner_classes_at(b: Seq<u8>, base: int, n: int, s: Seq<InnerClass>) -> bool {
    s.len() == n && forall|k: int| 0 <= k < n ==> #[trigger] s[k] == (InnerClass {
        inner_class_info_index: be_u16(b, base + 8 * k) as u16,
        outer_class_info_index: be_u16(b, base + 8 * k + 2) as u16,
        inner_name_index: be_u16(b, base + 8 * k + 4) as u16,
        inner_class_access_flags: be_u16(b, base + 8 * k + 6) as u16,
    })
}

/// `s` is the `n` 4-byte line-number records starting at `base`.
pub open spec fn line_numbers_at(b: Seq<u8>, base: int, n: int, s: Seq<LineNumber>) -> bool {
    s.len() == n && forall|k: int| 0 <= k < n ==> #[trigger] s[k] == (LineNumber {
        start_pc: be_u16(b, base + 4 * k) as u16,
        line_number: be_u16(b, base + 4 * k + 2) as u16,
    })
}

/// `s` is the `n` 10-byte local-variable records starting at `base`.
pub open spec fn local_vars_at(b: Seq<u8>, base: int, n: int, s: Seq<LocalVariable>) -> bool {
    s.len() == n && forall|k: int| 0 <= k < n ==> #[trigger] s[k] == (LocalVariable {
        start_pc: be_u16(b, base + 10 * k) as u16,
        length: be_u16(b, base + 10 * k + 2) as u16,
        name_index: be_u16(b, base + 10 * k + 4) as u16,
        descriptor_or_signature_index: be_u16(b, base + 10 * k + 6) as u16,
        index: be_u16(b, base + 10 * k + 8) as u16,
    })
}

/// `s` is the `n` 6-byte local-variable-target records starting at `base`.
pub open spec fn localvar_targets_at(
    b: Seq<u8>,
    base: int,
    n: int,
    s: Seq<LocalVariableTarget>,
) -> bool {
    s.len() == n && forall|k: int| 0 <= k < n ==> #[trigger] s[k] == (LocalVariableTarget {
        start_pc: be_u16(b, base + 6 * k) as u16,
        length: be_u16(b, base + 6 * k + 2) as u16,
        index: be_u16(b, base + 6 * k + 4) as u16,
    })
}

/// `s` is the `n` 4-byte method-parameter records starting at `base`.
pub open spec fn method_params_at(b: Seq<u8>, base: int, n: int, s: Seq<MethodParameter>) -> bool {
    s.len() == n && forall|k: int| 0 <= k < n ==> #[trigger] s[k] == (MethodParameter {
        name_index: be_u16(b, base + 4 * k) as u16,
        access_flags: be_u16(b, base + 4 * k + 2) as u16,
    })
}

/// One verification-type descriptor at `pos`: a tag 0-8, where tags 7
/// (object) and 8 (uninitialized variable) carry a 16-bit operand.
pub open spec fn vtype_at(
    b: Seq<u8>,
    pos: int,
    out: Result<(VerificationType, int), ParseError>,
) -> bool {
    if pos + 1 > b.len() {
        out == Err::<(VerificationType, int), _>(ParseError::Io)
    } else {
        let tag = b[pos];
        if tag == 0 {
            out == Ok::<_, ParseError>((VerificationType::Top, pos + 1))
        } else if tag == 1 {
            out == Ok::<_, ParseError>((VerificationType::Integer, pos + 1))
        } else if tag == 2 {
            out == Ok::<_, ParseError>((VerificationType::Float, pos + 1))
        } else if tag == 3 {
            out == Ok::<_, ParseError>((VerificationType::Double, pos + 1))
        } else if tag == 4 {
            out == Ok::<_, ParseError>((VerificationType::Long, pos + 1))
        } else if tag == 5 {
            out == Ok::<_, ParseError>((VerificationType::Null, pos + 1))
        } else if tag == 6 {
            out == Ok::<_, ParseError>((VerificationType::UninitializedThis, pos + 1))
        } else if tag == 7 {
            if pos + 3 > b.len() {
                out == Err::<(VerificationType, int), _>(ParseError::Io)
            } else {
                out == Ok::<_, ParseError>((VerificationType::Object {
                    index: be_u16(b, pos + 1) as u16,
                }, pos + 3))
            }
        } else if tag == 8 {
            if pos + 3 > b.len() {
                out == Err::<(VerificationType, int), _>(ParseError::Io)
            } else {
                out == Ok::<_, ParseError>((VerificationType::UninitializedVariable {
                    offset: be_u16(b, pos + 1) as u16,
                }, pos + 3))
            }
        } else {
            out == Err::<(VerificationType, int), _>(ParseError::UnknownVerificationTypeTag(tag))
        }
    }
}

/// The byte range `lo..hi` decodes exactly to the sequence `s` of attributes.
pub open spec fn span_attrs(b: Seq<u8>, pool: Seq<ConstantPoolInfo>, lo: int, hi: int, s: Seq<Attribute>) -> bool
    decreases b.len() - lo, 1int,
{
    if s.len() == 0 {
        lo == hi
    } else {
        exists|mid: int|
            #[trigger] boundary(lo, mid) && lo < mid <= b.len()
                && attribute_at(b, pool, lo, Ok((s[0], mid)))
                && span_attrs(b, pool, mid, hi, s.drop_first())
    }
}

/// Decoding `n` attributes from `pos` fails with exactly the error `e`.
pub open spec fn fails_attrs(b: Seq<u8>, pool: Seq<ConstantPoolInfo>, pos: int, n: int, e: ParseError) -> bool
    decreases b.len() - pos, 1int,
{
    n > 0 && (attribute_at(b, pool, pos, Err(e)) || exists|el: Attribute, mid: int|
        #[trigger] step_to(el, mid) && pos < mid <= b.len() && attribute_at(b, pool, pos, Ok((el, mid)))
            && fails_attrs(b, pool, mid, n - 1, e))
}

/// Appending one decoded element extends a decoded span.
pub proof fn lemma_span_attrs_snoc(b: Seq<u8>, pool: Seq<ConstantPoolInfo>, lo: int, mid: int, s: Seq<Attribute>, el: Attribute, end: int)
    requires
        span_attrs(b, pool, lo, mid, s),
        attribute_at(b, pool, mid, Ok((el, end))),
        mid < end <= b.len(),
    ensures
        span_attrs(b, pool, lo, end, s.push(el)),
    decreases s.len(),
{
    if s.len() == 0 {
        assert(s.push(el)[0] == el);
        assert(s.push(el).drop_first() =~= Seq::<Attribute>::empty());
        assert(span_attrs(b, pool, end, end, s.push(el).drop_first()));
        assert(boundary(lo, end));
    } else {
        let m = choose|m: int|
            #[trigger] boundary(lo, m) && lo < m <= b.len() && attribute_at(b, pool, lo, Ok((s[0], m)))
                && span_attrs(b, pool, m, mid, s.drop_first());
        lemma_span_attrs_snoc(b, pool, m, mid, s.drop_first(), el, end);
        assert(s.push(el)[0] == s[0]);
        assert(s.push(el).drop_first() =~= s.drop_first().push(el));
        assert(boundary(lo, m) && lo < m <= b.len()
            && attribute_at(b, pool, lo, Ok((s.push(el)[0], m)))
            && span_attrs(b, pool, m, end, s.push(el).drop_first()));
    }
}

/// A decoded span followed by a failure fails the whole list.
pub proof fn lemma_span_attrs_then_fails(b: Seq<u8>, pool: Seq<ConstantPoolInfo>, lo: int, mid: int, s: Seq<Attribute>, n: int, e: ParseError)
    requires
        span_attrs(b, pool, lo, mid, s),
        fails_attrs(b, pool, mid, n, e),
    ensures
        fails_attrs(b, pool, lo, s.len() + n, e),
    decreases s.len(),
{
    if s.len() == 0 {
    } else {
        let m = choose|m: int|
            #[trigger] boundary(lo, m) && lo < m <= b.len() && attribute_at(b, pool, lo, Ok((s[0], m)))
                && span_attrs(b, pool, m, mid, s.drop_first());
        lemma_span_attrs_then_fails(b, pool, m, mid, s.drop_first(), n, e);
        assert(step_to(s[0], m) && lo < m <= b.len() && attribute_at(b, pool, lo, Ok((s[0], m)))
            && fails_attrs(b, pool, m, s.len() - 1 + n, e));
    }
}

/// The byte range `lo..hi` decodes exactly to the sequence `s` of field-table entries.
pub open spec fn span_fields(b: Seq<u8>, pool: Seq<ConstantPoolInfo>, lo: int, hi: int, s: Seq<Field>) -> bool
    decreases b.len() - lo, 1int,
{
    if s.len() == 0 {
        lo == hi
    } else {
        exists|mid: int|
            lo < mid <= b.len() && #[trigger] field_at(b, pool, lo, Ok((s[0], mid)))
                && span_fields(b, pool, mid, hi, s.drop_first())
    }
}

/// Decoding `n` field-table entries from `pos` fails with exactly the error `e`.
pub open spec fn fails_fields(b: Seq<u8>, pool: Seq<ConstantPoolInfo>, pos: int, n: int, e: ParseError) -> bool
    decreases b.len() - pos, 1int,
{
    n > 0 && (field_at(b, pool, pos, Err(e)) || exists|el: Field, mid: int|
        pos < mid <= b.len() && #[trigger] field_at(b, pool, pos, Ok((el, mid)))
            && fails_fields(b, pool, mid, n - 1, e))
}

/// Appending one decoded element extends a decoded span.
pub proof fn lemma_span_fields_snoc(b: Seq<u8>, pool: Seq<ConstantPoolInfo>, lo: int, mid: int, s: Seq<Field>, el: Field, end: int)
    requires
        span_fields(b, pool, lo, mid, s),
        field_at(b, pool, mid, Ok((el, end))),
        mid < end <= b.len(),
    ensures
        span_fields(b, pool, lo, end, s.push(el)),
    decreases s.len(),
{
    if s.len() == 0 {
        assert(s.push(el)[0] == el);
        assert(s.push(el).drop_first() =~= Seq::<Field>::empty());
        assert(span_fields(b, pool, end, end, s.push(el).drop_first()));
    } else {
        let m = choose|m: int|
            lo < m <= b.len() && #[trigger] field_at(b, pool, lo, Ok((s[0], m)))
                && span_fields(b, pool, m, mid, s.drop_first());
        lemma_span_fields_snoc(b, pool, m, mid, s.drop_first(), el, end);
        assert(s.push(el)[0] == s[0]);
        assert(s.push(el).drop_first() =~= s.drop_first().push(el));
        assert(lo < m <= b.len() && field_at(b, pool, lo, Ok((s.push(el)[0], m)))
            && span_fields(b, pool, m, end, s.push(el).drop_first()));
    }
}

/// A decoded span followed by a failure fails the whole list.
pub proof fn lemma_span_fields_then_fails(b: Seq<u8>, pool: Seq<ConstantPoolInfo>, lo: int, mid: int, s: Seq<Field>, n: int, e: ParseError)
    requires
        span_fields(b, pool, lo, mid, s),
        fails_fields(b, pool, mid, n, e),
    ensures
        fails_fields(b, pool, lo, s.len() + n, e),
    decreases s.len(),
{
    if s.len() == 0 {
    } else {
        let m = choose|m: int|
            lo < m <= b.len() && #[trigger] field_at(b, pool, lo, Ok((s[0], m)))
                && span_fields(b, pool, m, mid, s.drop_first());
        lemma_span_fields_then_fails(b, pool, m, mid, s.drop_first(), n, e);
        assert(lo < m <= b.len() && field_at(b, pool, lo, Ok((s[0], m)))
            && fails_fields(b, pool, m, s.len() - 1 + n, e));
    }
}

/// The byte range `lo..hi` decodes exactly to the sequence `s` of method-table entries.
pub open spec fn span_methods(b: Seq<u8>, pool: Seq<ConstantPoolInfo>, lo: int, hi: int, s: Seq<Method>) -> bool
    decreases b.len() - lo, 1int,
{
    if s.len() == 0 {
        lo == hi
    } else {
        exists|mid: int|
            lo < mid <= b.len() && #[trigger] method_at(b, pool, lo, Ok((s[0], mid)))
                && span_methods(b, pool, mid, hi, s.drop_first())
    }
}

/// Decoding `n` method-table entries from `pos` fails with exactly the error `e`.
pub open spec fn fails_methods(b: Seq<u8>, pool: Seq<ConstantPoolInfo>, pos: int, n: int, e: ParseError) -> bool
    decreases b.len() - pos, 1int,
{
    n > 0 && (method_at(b, pool, pos, Err(e)) || exists|el: Method, mid: int|
        pos < mid <= b.len() && #[trigger] method_at(b, pool, pos, Ok((el, mid)))
            && fails_methods(b, pool, mid, n - 1, e))
}

/// Appending one decoded element extends a decoded span.
pub proof fn lemma_span_methods_snoc(b: Seq<u8>, pool: Seq<ConstantPoolInfo>, lo: int, mid: int, s: Seq<Method>, el: Method, end: int)
    requires
        span_methods(b, pool, lo, mid, s),
        method_at(b, pool, mid, Ok((el, end))),
        mid < end <= b.len(),
    ensures
        span_methods(b, pool, lo, end, s.push(el)),
    decreases s.len(),
{
    if s.len() == 0 {
        assert(s.push(el)[0] == el);
        assert(s.push(el).drop_first() =~= Seq::<Method>::empty());
        assert(span_methods(b, pool, end, end, s.push(el).drop_first()));
    } else {
        let m = choose|m: int|
            lo < m <= b.len() && #[trigger] method_at(b, pool, lo, Ok((s[0], m)))
                && span_methods(b, pool, m, mid, s.drop_first());
        lemma_span_methods_snoc(b, pool, m, mid, s.drop_first(), el, end);
        assert(s.push(el)[0] == s[0]);
        assert(s.push(el).drop_first() =~= s.drop_first().push(el));
        assert(lo < m <= b.len() && method_at(b, pool, lo, Ok((s.push(el)[0], m)))
            && span_methods(b, pool, m, end, s.push(el).drop_first()));
    }
}

/// A decoded span followed by a failure fails the whole list.
pub proof fn lemma_span_methods_then_fails(b: Seq<u8>, pool: Seq<ConstantPoolInfo>, lo: int, mid: int, s: Seq<Method>, n: int, e: ParseError)
    requires
        span_methods(b, pool, lo, mid, s),
        fails_methods(b, pool, mid, n, e),
    ensures
        fails_methods(b, pool, lo, s.len() + n, e),
    decreases s.len(),
{
    if s.len() == 0 {
    } else {
        let m = choose|m: int|
            lo < m <= b.len() && #[trigger] method_at(b, pool, lo, Ok((s[0], m)))
                && span_methods(b, pool, m, mid, s.drop_first());
        lemma_span_methods_then_fails(b, pool, m, mid, s.drop_first(), n, e);
        assert(lo < m <= b.len() && method_at(b, pool, lo, Ok((s[0], m)))
            && fails_methods(b, pool, m, s.len() - 1 + n, e));
    }
}

/// The byte range `lo..hi` decodes exactly to the sequence `s` of stack-map frames.
pub open spec fn span_frames(b: Seq<u8>, lo: int, hi: int, s: Seq<StackMapFrame>) -> bool
    decreases b.len() - lo, 1int,
{
    if s.len() == 0 {
        lo == hi
    } else {
        exists|mid: int|
            lo < mid <= b.len() && #[trigger] frame_at(b, lo, Ok((s[0], mid)))
                && span_frames(b, mid, hi, s.drop_first())
    }
}

/// Decoding `n` stack-map frames from `pos` fails with exactly the error `e`.
pub open spec fn fails_frames(b: Seq<u8>, pos: int, n: int, e: ParseError) -> bool
    decreases b.len() - pos, 1int,
{
    n > 0 && (frame_at(b, pos, Err(e)) || exists|el: StackMapFrame, mid: int|
        pos < mid <= b.len() && #[trigger] frame_at(b, pos, Ok((el, mid)))
            && fails_frames(b, mid, n - 1, e))
}

/// Appending one decoded element extends a decoded span.
pub proof fn lemma_span_frames_snoc(b: Seq<u8>, lo: int, mid: int, s: Seq<StackMapFrame>, el: StackMapFrame, end: int)
    requires
        span_frames(b, lo, mid, s),
        frame_at(b, mid, Ok((el, end))),
        mid < end <= b.len(),
    ensures
        span_frames(b, lo, end, s.push(el)),
    decreases s.len(),
{
    if s.len() == 0 {
        assert(s.push(el)[0] == el);
        assert(s.push(el).drop_first() =~= Seq::<StackMapFrame>::empty());
        assert(span_frames(b, end, end, s.push(el).drop_first()));
    } else {
        let m = choose|m: int|
            lo < m <= b.len() && #[trigger] frame_at(b, lo, Ok((s[0], m)))
                && span_frames(b, m, mid, s.drop_first());
        lemma_span_frames_snoc(b, m, mid, s.drop_first(), el, end);
        assert(s.push(el)[0] == s[0]);
        assert(s.push(el).drop_first() =~= s.drop_first().push(el));
        assert(lo < m <= b.len() && frame_at(b, lo, Ok((s.push(el)[0], m)))
            && span_frames(b, m, end, s.push(el).drop_first()));
    }
}

/// A decoded span followed by a failure fails the whole list.
pub proof fn lemma_span_frames_then_fails(b: Seq<u8>, lo: int, mid: int, s: Seq<StackMapFrame>, n: int, e: ParseError)
    requires
        span_frames(b, lo, mid, s),
        fails_frames(b, mid, n, e),
    ensures
        fails_frames(b, lo, s.len() + n, e),
    decreases s.len(),
{
    if s.len() == 0 {
    } else {
        let m = choose|m: int|
            lo < m <= b.len() && #[trigger] frame_at(b, lo, Ok((s[0], m)))
                && span_frames(b, m, mid, s.drop_first());
        lemma_span_frames_then_fails(b, m, mid, s.drop_first(), n, e);
        assert(lo < m <= b.len() && frame_at(b, lo, Ok((s[0], m)))
            && fails_frames(b, m, s.len() - 1 + n, e));
    }
}

/// The byte range `lo..hi` decodes exactly to the sequence `s` of verification types.
pub open spec fn span_vts(b: Seq<u8>, lo: int, hi: int, s: Seq<VerificationType>) -> bool
    decreases b.len() - lo, 1int,
{
    if s.len() == 0 {
        lo == hi
    } else {
        exists|mid: int|
            lo < mid <= b.len() && #[trigger] vtype_at(b, lo, Ok((s[0], mid)))
                && span_vts(b, mid, hi, s.drop_first())
    }
}

/// Decoding `n` verification types from `pos` fails with exactly the error `e`.
pub open spec fn fails_vts(b: Seq<u8>, pos: int, n: int, e: ParseError) -> bool
    decreases b.len() - pos, 1int,
{
    n > 0 && (vtype_at(b, pos, Err(e)) || exists|el: VerificationType, mid: int|
        pos < mid <= b.len() && #[trigger] vtype_at(b, pos, Ok((el, mid)))
            && fails_vts(b, mid, n - 1, e))
}

/// Appending one decoded element extends a decoded span.
pub proof fn lemma_span_vts_snoc(b: Seq<u8>, lo: int, mid: int, s: Seq<VerificationType>, el: VerificationType, end: int)
    requires
        span_vts(b, lo, mid, s),
        vtype_at(b, mid, Ok((el, end))),
        mid < end <= b.len(),
    ensures
        span_vts(b, lo, end, s.push(el)),
    decreases s.len(),
{
    if s.len() == 0 {
        assert(s.push(el)[0] == el);
        assert(s.push(el).drop_first() =~= Seq::<VerificationType>::empty());
        assert(span_vts(b, end, end, s.push(el).drop_first()));
    } else {
        let m = choose|m: int|
            lo < m <= b.len() && #[trigger] vtype_at(b, lo, Ok((s[0], m)))
                && span_vts(b, m, mid, s.drop_first());
        lemma_span_vts_snoc(b, m, mid, s.drop_first(), el, end);
        assert(s.push(el)[0] == s[0]);
        assert(s.push(el).drop_first() =~= s.drop_first().push(el));
        assert(lo < m <= b.len() && vtype_at(b, lo, Ok((s.push(el)[0], m)))
            && span_vts(b, m, end, s.push(el).drop_first()));
    }
}

/// A decoded span followed by a failure fails the whole list.
pub proof fn lemma_span_vts_then_fails(b: Seq<u8>, lo: int, mid: int, s: Seq<VerificationType>, n: int, e: ParseError)
    requires
        span_vts(b, lo, mid, s),
        fails_vts(b, mid, n, e),
    ensures
        fails_vts(b, lo, s.len() + n, e),
    decreases s.len(),
{
    if s.len() == 0 {
    } else {
        let m = choose|m: int|
            lo < m <= b.len() && #[trigger] vtype_at(b, lo, Ok((s[0], m)))
                && span_vts(b, m, mid, s.drop_first());
        lemma_span_vts_then_fails(b, m, mid, s.drop_first(), n, e);
        assert(lo < m <= b.len() && vtype_at(b, lo, Ok((s[0], m)))
            && fails_vts(b, m, s.len() - 1 + n, e));
    }
}

/// The byte range `lo..hi` decodes exactly to the sequence `s` of annotations.
pub open spec fn span_anns(b: Seq<u8>, lo: int, hi: int, s: Seq<Annotation>) -> bool
    decreases b.len() - lo, 1int,
{
    if s.len() == 0 {
        lo == hi
    } else {
        exists|mid: int|
            #[trigger] boundary(lo, mid) && lo < mid <= b.len()
                && annotation_at(b, lo, Ok((s[0], mid)))
                && span_anns(b, mid, hi, s.drop_first())
    }
}

/// Decoding `n` annotations from `pos` fails with exactly the error `e`.
pub open spec fn fails_anns(b: Seq<u8>, pos: int, n: int, e: ParseError) -> bool
    decreases b.len() - pos, 1int,
{
    n > 0 && (annotation_at(b, pos, Err(e)) || exists|el: Annotation, mid: int|
        #[trigger] step_to(el, mid) && pos < mid <= b.len() && annotation_at(b, pos, Ok((el, mid)))
            && fails_anns(b, mid, n - 1, e))
}

/// Appending one decoded element extends a decoded span.
pub proof fn lemma_span_anns_snoc(b: Seq<u8>, lo: int, mid: int, s: Seq<Annotation>, el: Annotation, end: int)
    requires
        span_anns(b, lo, mid, s),
        annotation_at(b, mid, Ok((el, end))),
        mid < end <= b.len(),
    ensures
        span_anns(b, lo, end, s.push(el)),
    decreases s.len(),
{
    if s.len() == 0 {
        assert(s.push(el)[0] == el);
        assert(s.push(el).drop_first() =~= Seq::<Annotation>::empty());
        assert(span_anns(b, end, end, s.push(el).drop_first()));
        assert(boundary(lo, end));
    } else {
        let m = choose|m: int|
            #[trigger] boundary(lo, m) && lo < m <= b.len() && annotation_at(b, lo, Ok((s[0], m)))
                && span_anns(b, m, mid, s.drop_first());
        lemma_span_anns_snoc(b, m, mid, s.drop_first(), el, end);
        assert(s.push(el)[0] == s[0]);
        assert(s.push(el).drop_first() =~= s.drop_first().push(el));
        assert(boundary(lo, m) && lo < m <= b.len()
            && annotation_at(b, lo, Ok((s.push(el)[0], m)))
            && span_anns(b, m, end, s.push(el).drop_first()));
    }
}

/// A decoded span followed by a failure fails the whole list.
pub proof fn lemma_span_anns_then_fails(b: Seq<u8>, lo: int, mid: int, s: Seq<Annotation>, n: int, e: ParseError)
    requires
        span_anns(b, lo, mid, s),
        fails_anns(b, mid, n, e),
    ensures
        fails_anns(b, lo, s.len() + n, e),
    decreases s.len(),
{
    if s.len() == 0 {
    } else {
        let m = choose|m: int|
            #[trigger] boundary(lo, m) && lo < m <= b.len() && annotation_at(b, lo, Ok((s[0], m)))
                && span_anns(b, m, mid, s.drop_first());
        lemma_span_anns_then_fails(b, m, mid, s.drop_first(), n, e);
        assert(step_to(s[0], m) && lo < m <= b.len() && annotation_at(b, lo, Ok((s[0], m)))
            && fails_anns(b, m, s.len() - 1 + n, e));
    }
}

/// The byte range `lo..hi` decodes exactly to the sequence `s` of per-parameter annotation lists.
pub open spec fn span_ann_groups(b: Seq<u8>, lo: int, hi: int, s: Seq<Vec<Annotation>>) -> bool
    decreases b.len() - lo, 1int,
{
    if s.len() == 0 {
        lo == hi
    } else {
        exists|mid: int|
            lo < mid <= b.len() && #[trigger] ann_group_at(b, lo, Ok((s[0], mid)))
                && span_ann_groups(b, mid, hi, s.drop_first())
    }
}

/// Decoding `n` per-parameter annotation lists from `pos` fails with exactly the error `e`.
pub open spec fn fails_ann_groups(b: Seq<u8>, pos: int, n: int, e: ParseError) -> bool
    decreases b.len() - pos, 1int,
{
    n > 0 && (ann_group_at(b, pos, Err(e)) || exists|el: Vec<Annotation>, mid: int|
        pos < mid <= b.len() && #[trigger] ann_group_at(b, pos, Ok((el, mid)))
            && fails_ann_groups(b, mid, n - 1, e))
}

/// Appending one decoded element extends a decoded span.
pub proof fn lemma_span_ann_groups_snoc(b: Seq<u8>, lo: int, mid: int, s: Seq<Vec<Annotation>>, el: Vec<Annotation>, end: int)
    requires
        span_ann_groups(b, lo, mid, s),
        ann_group_at(b, mid, Ok((el, end))),
        mid < end <= b.len(),
    ensures
        span_ann_groups(b, lo, end, s.push(el)),
    decreases s.len(),
{
    if s.len() == 0 {
        assert(s.push(el)[0] == el);
        assert(s.push(el).drop_first() =~= Seq::<Vec<Annotation>>::empty());
        assert(span_ann_groups(b, end, end, s.push(el).drop_first()));
    } else {
        let m = choose|m: int|
            lo < m <= b.len() && #[trigger] ann_group_at(b, lo, Ok((s[0], m)))
                && span_ann_groups(b, m, mid, s.drop_first());
        lemma_span_ann_groups_snoc(b, m, mid, s.drop_first(), el, end);
        assert(s.push(el)[0] == s[0]);
        assert(s.push(el).drop_first() =~= s.drop_first().push(el));
        assert(lo < m <= b.len() && ann_group_at(b, lo, Ok((s.push(el)[0], m)))
            && span_ann_groups(b, m, end, s.push(el).drop_first()));
    }
}

/// A decoded span followed by a failure fails the whole list.
pub proof fn lemma_span_ann_groups_then_fails(b: Seq<u8>, lo: int, mid: int, s: Seq<Vec<Annotation>>, n: int, e: ParseError)
    requires
        span_ann_groups(b, lo, mid, s),
        fails_ann_groups(b, mid, n, e),
    ensures
        fails_ann_groups(b, lo, s.len() + n, e),
    decreases s.len(),
{
    if s.len() == 0 {
    } else {
        let m = choose|m: int|
            lo < m <= b.len() && #[trigger] ann_group_at(b, lo, Ok((s[0], m)))
                && span_ann_groups(b, m, mid, s.drop_first());
        lemma_span_ann_groups_then_fails(b, m, mid, s.drop_first(), n, e);
        assert(lo < m <= b.len() && ann_group_at(b, lo, Ok((s[0], m)))
            && fails_ann_groups(b, m, s.len() - 1 + n, e));
    }
}

/// The byte range `lo..hi` decodes exactly to the sequence `s` of element-value pairs.
pub open spec fn span_evps(b: Seq<u8>, lo: int, hi: int, s: Seq<ElementValuePair>) -> bool
    decreases b.len() - lo, 1int,
{
    if s.len() == 0 {
        lo == hi
    } else {
        exists|mid: int|
            #[trigger] boundary(lo, mid) && lo < mid <= b.len()
                && evpair_at(b, lo, Ok((s[0], mid)))
                && span_evps(b, mid, hi, s.drop_first())
    }
}

/// Decoding `n` element-value pairs from `pos` fails with exactly the error `e`.
pub open spec fn fails_evps(b: Seq<u8>, pos: int, n: int, e: ParseError) -> bool
    decreases b.len() - pos, 1int,
{
    n > 0 && (evpair_at(b, pos, Err(e)) || exists|el: ElementValuePair, mid: int|
        #[trigger] step_to(el, mid) && pos < mid <= b.len() && evpair_at(b, pos, Ok((el, mid)))
            && fails_evps(b, mid, n - 1, e))
}

/// Appending one decoded element extends a decoded span.
pub proof fn lemma_span_evps_snoc(b: Seq<u8>, lo: int, mid: int, s: Seq<ElementValuePair>, el: ElementValuePair, end: int)
    requires
        span_evps(b, lo, mid, s),
        evpair_at(b, mid, Ok((el, end))),
        mid < end <= b.len(),
    ensures
        span_evps(b, lo, end, s.push(el)),
    decreases s.len(),
{
    if s.len() == 0 {
        assert(s.push(el)[0] == el);
        assert(s.push(el).drop_first() =~= Seq::<ElementValuePair>::empty());
        assert(span_evps(b, end, end, s.push(el).drop_first()));
        assert(boundary(lo, end));
    } else {
        let m = choose|m: int|
            #[trigger] boundary(lo, m) && lo < m <= b.len() && evpair_at(b, lo, Ok((s[0], m)))
                && span_evps(b, m, mid, s.drop_first());
        lemma_span_evps_snoc(b, m, mid, s.drop_first(), el, end);
        assert(s.push(el)[0] == s[0]);
        assert(s.push(el).drop_first() =~= s.drop_first().push(el));
        assert(boundary(lo, m) && lo < m <= b.len()
            && evpair_at(b, lo, Ok((s.push(el)[0], m)))
            && span_evps(b, m, end, s.push(el).drop_first()));
    }
}

/// A decoded span followed by a failure fails the whole list.
pub proof fn lemma_span_evps_then_fails(b: Seq<u8>, lo: int, mid: int, s: Seq<ElementValuePair>, n: int, e: ParseError)
    requires
        span_evps(b, lo, mid, s),
        fails_evps(b, mid, n, e),
    ensures
        fails_evps(b, lo, s.len() + n, e),
    decreases s.len(),
{
    if s.len() == 0 {
    } else {
        let m = choose|m: int|
            #[trigger] boundary(lo, m) && lo < m <= b.len() && evpair_at(b, lo, Ok((s[0], m)))
                && span_evps(b, m, mid, s.drop_first());
        lemma_span_evps_then_fails(b, m, mid, s.drop_first(), n, e);
        assert(step_to(s[0], m) && lo < m <= b.len() && evpair_at(b, lo, Ok((s[0], m)))
            && fails_evps(b, m, s.len() - 1 + n, e));
    }
}

/// The byte range `lo..hi` decodes exactly to the sequence `s` of element values.
pub open spec fn span_evs(b: Seq<u8>, lo: int, hi: int, s: Seq<ElementValue>) -> bool
    decreases b.len() - lo, 1int,
{
    if s.len() == 0 {
        lo == hi
    } else {
        exists|mid: int|
            #[trigger] boundary(lo, mid) && lo < mid <= b.len()
                && element_value_at(b, lo, Ok((s[0], mid)))
                && span_evs(b, mid, hi, s.drop_first())
    }
}

/// Decoding `n` element values from `pos` fails with exactly the error `e`.
pub open spec fn fails_evs(b: Seq<u8>, pos: int, n: int, e: ParseError) -> bool
    decreases b.len() - pos, 1int,
{
    n > 0 && (element_value_at(b, pos, Err(e)) || exists|el: ElementValue, mid: int|
        #[trigger] step_to(el, mid) && pos < mid <= b.len() && element_value_at(b, pos, Ok((el, mid)))
            && fails_evs(b, mid, n - 1, e))
}

/// Appending one decoded element extends a decoded span.
pub proof fn lemma_span_evs_snoc(b: Seq<u8>, lo: int, mid: int, s: Seq<ElementValue>, el: ElementValue, end: int)
    requires
        span_evs(b, lo, mid, s),
        element_value_at(b, mid, Ok((el, end))),
        mid < end <= b.len(),
    ensures
        span_evs(b, lo, end, s.push(el)),
    decreases s.len(),
{
    if s.len() == 0 {
        assert(s.push(el)[0] == el);
        assert(s.push(el).drop_first() =~= Seq::<ElementValue>::empty());
        assert(span_evs(b, end, end, s.push(el).drop_first()));
        assert(boundary(lo, end));
    } else {
        let m = choose|m: int|
            #[trigger] boundary(lo, m) && lo < m <= b.len() && element_value_at(b, lo, Ok((s[0], m)))
                && span_evs(b, m, mid, s.drop_first());
        lemma_span_evs_snoc(b, m, mid, s.drop_first(), el, end);
        assert(s.push(el)[0] == s[0]);
        assert(s.push(el).drop_first() =~= s.drop_first().push(el));
        assert(boundary(lo, m) && lo < m <= b.len()
            && element_value_at(b, lo, Ok((s.push(el)[0], m)))
            && span_evs(b, m, end, s.push(el).drop_first()));
    }
}

/// A decoded span followed by a failure fails the whole list.
pub proof fn lemma_span_evs_then_fails(b: Seq<u8>, lo: int, mid: int, s: Seq<ElementValue>, n: int, e: ParseError)
    requires
        span_evs(b, lo, mid, s),
        fails_evs(b, mid, n, e),
    ensures
        fails_evs(b, lo, s.len() + n, e),
    decreases s.len(),
{
    if s.len() == 0 {
    } else {
        let m = choose|m: int|
            #[trigger] boundary(lo, m) && lo < m <= b.len() && element_value_at(b, lo, Ok((s[0], m)))
                && span_evs(b, m, mid, s.drop_first());
        lemma_span_evs_then_fails(b, m, mid, s.drop_first(), n, e);
        assert(step_to(s[0], m) && lo < m <= b.len() && element_value_at(b, lo, Ok((s[0], m)))
            && fails_evs(b, m, s.len() - 1 + n, e));
    }
}

/// The byte range `lo..hi` decodes exactly to the sequence `s` of type-path steps.
pub open spec fn span_path_elems(b: Seq<u8>, lo: int, hi: int, s: Seq<PathElement>) -> bool
    decreases b.len() - lo, 1int,
{
    if s.len() == 0 {
        lo == hi
    } else {
        exists|mid: int|
            lo < mid <= b.len() && #[trigger] path_element_at(b, lo, Ok((s[0], mid)))
                && span_path_elems(b, mid, hi, s.drop_first())
    }
}

/// Decoding `n` type-path steps from `pos` fails with exactly the error `e`.
pub open spec fn fails_path_elems(b: Seq<u8>, pos: int, n: int, e: ParseError) -> bool
    decreases b.len() - pos, 1int,
{
    n > 0 && (path_element_at(b, pos, Err(e)) || exists|el: PathElement, mid: int|
        pos < mid <= b.len() && #[trigger] path_element_at(b, pos, Ok((el, mid)))
            && fails_path_elems(b, mid, n - 1, e))
}

/// Appending one decoded element extends a decoded span.
pub proof fn lemma_span_path_elems_snoc(b: Seq<u8>, lo: int, mid: int, s: Seq<PathElement>, el: PathElement, end: int)
    requires
        span_path_elems(b, lo, mid, s),
        path_element_at(b, mid, Ok((el, end))),
        mid < end <= b.len(),
    ensures
        span_path_elems(b, lo, end, s.push(el)),
    decreases s.len(),
{
    if s.len() == 0 {
        assert(s.push(el)[0] == el);
        assert(s.push(el).drop_first() =~= Seq::<PathElement>::empty());
        assert(span_path_elems(b, end, end, s.push(el).drop_first()));
    } else {
        let m = choose|m: int|
            lo < m <= b.len() && #[trigger] path_element_at(b, lo, Ok((s[0], m)))
                && span_path_elems(b, m, mid, s.drop_first());
        lemma_span_path_elems_snoc(b, m, mid, s.drop_first(), el, end);
        assert(s.push(el)[0] == s[0]);
        assert(s.push(el).drop_first() =~= s.drop_first().push(el));
        assert(lo < m <= b.len() && path_element_at(b, lo, Ok((s.push(el)[0], m)))
            && span_path_elems(b, m, end, s.push(el).drop_first()));
    }
}

/// A decoded span followed by a failure fails the whole list.
pub proof fn lemma_span_path_elems_then_fails(b: Seq<u8>, lo: int, mid: int, s: Seq<PathElement>, n: int, e: ParseError)
    requires
        span_path_elems(b, lo, mid, s),
        fails_path_elems(b, mid, n, e),
    ensures
        fails_path_elems(b, lo, s.len() + n, e),
    decreases s.len(),
{
    if s.len() == 0 {
    } else {
        let m = choose|m: int|
            lo < m <= b.len() && #[trigger] path_element_at(b, lo, Ok((s[0], m)))
                && span_path_elems(b, m, mid, s.drop_first());
        lemma_span_path_elems_then_fails(b, m, mid, s.drop_first(), n, e);
        assert(lo < m <= b.len() && path_element_at(b, lo, Ok((s[0], m)))
            && fails_path_elems(b, m, s.len() - 1 + n, e));
    }
}

/// The byte range `lo..hi` decodes exactly to the sequence `s` of type annotations.
pub open spec fn span_tanns(b: Seq<u8>, lo: int, hi: int, s: Seq<TypeAnnotation>) -> bool
    decreases b.len() - lo, 1int,
{
    if s.len() == 0 {
        lo == hi
    } else {
        exists|mid: int|
            lo < mid <= b.len() && #[trigger] type_annotation_at(b, lo, Ok((s[0], mid)))
                && span_tanns(b, mid, hi, s.drop_first())
    }
}

/// Decoding `n` type annotations from `pos` fails with exactly the error `e`.
pub open spec fn fails_tanns(b: Seq<u8>, pos: int, n: int, e: ParseError) -> bool
    decreases b.len() - pos, 1int,
{
    n > 0 && (type_annotation_at(b, pos, Err(e)) || exists|el: TypeAnnotation, mid: int|
        pos < mid <= b.len() && #[trigger] type_annotation_at(b, pos, Ok((el, mid)))
            && fails_tanns(b, mid, n - 1, e))
}

/// Appending one decoded element extends a decoded span.
pub proof fn lemma_span_tanns_snoc(b: Seq<u8>, lo: int, mid: int, s: Seq<TypeAnnotation>, el: TypeAnnotation, end: int)
    requires
        span_tanns(b, lo, mid, s),
        type_annotation_at(b, mid, Ok((el, end))),
        mid < end <= b.len(),
    ensures
        span_tanns(b, lo, end, s.push(el)),
    decreases s.len(),
{
    if s.len() == 0 {
        assert(s.push(el)[0] == el);
        assert(s.push(el).drop_first() =~= Seq::<TypeAnnotation>::empty());
        assert(span_tanns(b, end, end, s.push(el).drop_first()));
    } else {
        let m = choose|m: int|
            lo < m <= b.len() && #[trigger] type_annotation_at(b, lo, Ok((s[0], m)))
                && span_tanns(b, m, mid, s.drop_first());
        lemma_span_tanns_snoc(b, m, mid, s.drop_first(), el, end);
        assert(s.push(el)[0] == s[0]);
        assert(s.push(el).drop_first() =~= s.drop_first().push(el));
        assert(lo < m <= b.len() && type_annotation_at(b, lo, Ok((s.push(el)[0], m)))
            && span_tanns(b, m, end, s.push(el).drop_first()));
    }
}

/// A decoded span followed by a failure fails the whole list.
pub proof fn lemma_span_tanns_then_fails(b: Seq<u8>, lo: int, mid: int, s: Seq<TypeAnnotation>, n: int, e: ParseError)
    requires
        span_tanns(b, lo, mid, s),
        fails_tanns(b, mid, n, e),
    ensures
        fails_tanns(b, lo, s.len() + n, e),
    decreases s.len(),
{
    if s.len() == 0 {
    } else {
        let m = choose|m: int|
            lo < m <= b.len() && #[trigger] type_annotation_at(b, lo, Ok((s[0], m)))
                && span_tanns(b, m, mid, s.drop_first());
        lemma_span_tanns_then_fails(b, m, mid, s.drop_first(), n, e);
        assert(lo < m <= b.len() && type_annotation_at(b, lo, Ok((s[0], m)))
            && fails_tanns(b, m, s.len() - 1 + n, e));
    }
}

/// The byte range `lo..hi` decodes exactly to the sequence `s` of bootstrap methods.
pub open spec fn span_bsms(b: Seq<u8>, lo: int, hi: int, s: Seq<BootstrapMethod>) -> bool
    decreases b.len() - lo, 1int,
{
    if s.len() == 0 {
        lo == hi
    } else {
        exists|mid: int|
            lo < mid <= b.len() && #[trigger] bootstrap_method_at(b, lo, Ok((s[0], mid)))
                && span_bsms(b, mid, hi, s.drop_first())
    }
}

/// Decoding `n` bootstrap methods from `pos` fails with exactly the error `e`.
pub open spec fn fails_bsms(b: Seq<u8>, pos: int, n: int, e: ParseError) -> bool
    decreases b.len() - pos, 1int,
{
    n > 0 && (bootstrap_method_at(b, pos, Err(e)) || exists|el: BootstrapMethod, mid: int|
        pos < mid <= b.len() && #[trigger] bootstrap_method_at(b, pos, Ok((el, mid)))
            && fails_bsms(b, mid, n - 1, e))
}

/// Appending one decoded element extends a decoded span.
pub proof fn lemma_span_bsms_snoc(b: Seq<u8>, lo: int, mid: int, s: Seq<BootstrapMethod>, el: BootstrapMethod, end: int)
    requires
        span_bsms(b, lo, mid, s),
        bootstrap_method_at(b, mid, Ok((el, end))),
        mid < end <= b.len(),
    ensures
        span_bsms(b, lo, end, s.push(el)),
    decreases s.len(),
{
    if s.len() == 0 {
        assert(s.push(el)[0] == el);
        assert(s.push(el).drop_first() =~= Seq::<BootstrapMethod>::empty());
        assert(span_bsms(b, end, end, s.push(el).drop_first()));
    } else {
        let m = choose|m: int|
            lo < m <= b.len() && #[trigger] bootstrap_method_at(b, lo, Ok((s[0], m)))
                && span_bsms(b, m, mid, s.drop_first());
        lemma_span_bsms_snoc(b, m, mid, s.drop_first(), el, end);
        assert(s.push(el)[0] == s[0]);
        assert(s.push(el).drop_first() =~= s.drop_first().push(el));
        assert(lo < m <= b.len() && bootstrap_method_at(b, lo, Ok((s.push(el)[0], m)))
            && span_bsms(b, m, end, s.push(el).drop_first()));
    }
}

/// A decoded span followed by a failure fails the whole list.
pub proof fn lemma_span_bsms_then_fails(b: Seq<u8>, lo: int, mid: int, s: Seq<BootstrapMethod>, n: int, e: ParseError)
    requires
        span_bsms(b, lo, mid, s),
        fails_bsms(b, mid, n, e),
    ensures
        fails_bsms(b, lo, s.len() + n, e),
    decreases s.len(),
{
    if s.len() == 0 {
    } else {
        let m = choose|m: int|
            lo < m <= b.len() && #[trigger] bootstrap_method_at(b, lo, Ok((s[0], m)))
                && span_bsms(b, m, mid, s.drop_first());
        lemma_span_bsms_then_fails(b, m, mid, s.drop_first(), n, e);
        assert(lo < m <= b.len() && bootstrap_method_at(b, lo, Ok((s[0], m)))
            && fails_bsms(b, m, s.len() - 1 + n, e));
    }
}

/// One stack-map frame at `pos`, selected by the leading tag byte.
/// Tags 128-246 are reserved and fatal.
pub open spec fn frame_at(b: Seq<u8>, pos: int, out: Result<(StackMapFrame, int), ParseError>) -> bool {
    if pos + 1 > b.len() {
        out == Err::<(StackMapFrame, int), _>(ParseError::Io)
    } else {
        let ft = b[pos];
        if ft <= 63 {
            out == Ok::<_, ParseError>((StackMapFrame::SameFrame, pos + 1))
        } else if ft <= 127 {
            match out {
                Ok((f, end)) => f matches StackMapFrame::SameLocals1StackItemFrame(vt)
                    && vtype_at(b, pos + 1, Ok((vt, end))),
                Err(e) => vtype_at(b, pos + 1, Err(e)),
            }
        } else if ft <= 246 {
            out == Err::<(StackMapFrame, int), _>(ParseError::ReservedFrameType(ft))
        } else if ft == 247 {
            if pos + 3 > b.len() {
                out == Err::<(StackMapFrame, int), _>(ParseError::Io)
            } else {
                match out {
                    Ok((f, end)) => f matches StackMapFrame::SameLocals1StackItemFrameExtended {
                        offset_delta,
                        stack,
                    } && offset_delta == be_u16(b, pos + 1) as u16
                        && vtype_at(b, pos + 3, Ok((stack, end))),
                    Err(e) => vtype_at(b, pos + 3, Err(e)),
                }
            }
        } else if ft <= 250 {
            if pos + 3 > b.len() {
                out == Err::<(StackMapFrame, int), _>(ParseError::Io)
            } else {
                out == Ok::<_, ParseError>((StackMapFrame::ChopFrame {
                    offset_delta: be_u16(b, pos + 1) as u16,
                }, pos + 3))
            }
        } else if ft == 251 {
            if pos + 3 > b.len() {
                out == Err::<(StackMapFrame, int), _>(ParseError::Io)
            } else {
                out == Ok::<_, ParseError>((StackMapFrame::SameFrameExtended {
                    offset_delta: be_u16(b, pos + 1) as u16,
                }, pos + 3))
            }
        } else if ft <= 254 {
            if pos + 3 > b.len() {
                out == Err::<(StackMapFrame, int), _>(ParseError::Io)
            } else {
                let n: int = ft - 251;
                match out {
                    Ok((f, end)) => f matches StackMapFrame::AppendFrame { offset_delta, locals }
                        && offset_delta == be_u16(b, pos + 1) as u16 && locals@.len() == n
                        && span_vts(b, pos + 3, end, locals@),
                    Err(e) => fails_vts(b, pos + 3, n, e),
                }
            }
        } else {
            if pos + 5 > b.len() {
                out == Err::<(StackMapFrame, int), _>(ParseError::Io)
            } else {
                let nl = be_u16(b, pos + 3);
                match out {
                    Ok((f, end)) => f matches StackMapFrame::FullFrame {
                        offset_delta,
                        locals,
                        stack,
                    } && offset_delta == be_u16(b, pos + 1) as u16 && locals@.len() == nl
                        && exists|mid: int|
                            #[trigger] boundary(pos, mid) && pos + 5 <= mid && mid + 2 <= b.len()
                                && span_vts(b, pos + 5, mid, locals@)
                                && stack@.len() == be_u16(b, mid)
                                && span_vts(b, mid + 2, end, stack@),
                    Err(e) => fails_vts(b, pos + 5, nl, e) || exists|ls: Seq<VerificationType>, mid: int|
                        #[trigger] step_to(ls, mid) && pos + 5 <= mid <= b.len() && ls.len() == nl
                            && span_vts(b, pos + 5, mid, ls) && (if mid + 2 > b.len() {
                            e == ParseError::Io
                        } else {
                            fails_vts(b, mid + 2, be_u16(b, mid), e)
                        }),
                }
            }
        }
    }
}

/// One annotation at `pos`: a type index, then a count-prefixed list of
/// element-value pairs.
pub open spec fn annotation_at(b: Seq<u8>, pos: int, out: Result<(Annotation, int), ParseError>) -> bool
    decreases b.len() - pos, 0int,
{
    if pos + 4 > b.len() {
        out == Err::<(Annotation, int), _>(ParseError::Io)
    } else {
        let n = be_u16(b, pos + 2);
        match out {
            Ok((a, end)) => a.type_index == be_u16(b, pos) as u16
                && a.element_value_pairs@.len() == n
                && span_evps(b, pos + 4, end, a.element_value_pairs@),
            Err(e) => fails_evps(b, pos + 4, n, e),
        }
    }
}

/// One element-value pair at `pos`: a name index, then the value.
pub open spec fn evpair_at(
    b: Seq<u8>,
    pos: int,
    out: Result<(ElementValuePair, int), ParseError>,
) -> bool
    decreases b.len() - pos, 0int,
{
    if pos + 2 > b.len() {
        out == Err::<(ElementValuePair, int), _>(ParseError::Io)
    } else {
        match out {
            Ok((p0, end)) => p0.element_name_index == be_u16(b, pos) as u16
                && element_value_at(b, pos + 2, Ok((p0.value, end))),
            Err(e) => element_value_at(b, pos + 2, Err(e)),
        }
    }
}

/// One element value at `pos`, selected by its tag character: a primitive
/// constant reference, an enum constant, a class reference, a nested
/// annotation, or a count-prefixed array of values.
pub open spec fn element_value_at(
    b: Seq<u8>,
    pos: int,
    out: Result<(ElementValue, int), ParseError>,
) -> bool
    decreases b.len() - pos, 0int,
{
    if pos + 1 > b.len() {
        out == Err::<(ElementValue, int), _>(ParseError::Io)
    } else {
        let tag = b[pos];
        if tag == 0x42 || tag == 0x43 || tag == 0x44 || tag == 0x46 || tag == 0x49 || tag == 0x4A
            || tag == 0x53 || tag == 0x5A || tag == 0x73 {
            if pos + 3 > b.len() {
                out == Err::<(ElementValue, int), _>(ParseError::Io)
            } else {
                out == Ok::<_, ParseError>((ElementValue::Constant {
                    const_value_index: be_u16(b, pos + 1) as u16,
                }, pos + 3))
            }
        } else if tag == 0x65 {
            if pos + 5 > b.len() {
                out == Err::<(ElementValue, int), _>(ParseError::Io)
            } else {
                out == Ok::<_, ParseError>((ElementValue::EnumConstant {
                    type_name_index: be_u16(b, pos + 1) as u16,
                    const_name_index: be_u16(b, pos + 3) as u16,
                }, pos + 5))
            }
        } else if tag == 0x63 {
            if pos + 3 > b.len() {
                out == Err::<(ElementValue, int), _>(ParseError::Io)
            } else {
                out == Ok::<_, ParseError>((ElementValue::Class {
                    class_info_index: be_u16(b, pos + 1) as u16,
                }, pos + 3))
            }
        } else if tag == 0x40 {
            match out {
                Ok((v, end)) => v matches ElementValue::Annotation(a)
                    && annotation_at(b, pos + 1, Ok((a, end))),
                Err(e) => annotation_at(b, pos + 1, Err(e)),
            }
        } else if tag == 0x5B {
            if pos + 3 > b.len() {
                out == Err::<(ElementValue, int), _>(ParseError::Io)
            } else {
                let n = be_u16(b, pos + 1);
                match out {
                    Ok((v, end)) => v matches ElementValue::Array(vs) && vs@.len() == n
                        && span_evs(b, pos + 3, end, vs@),
                    Err(e) => fails_evs(b, pos + 3, n, e),
                }
            }
        } else {
            out == Err::<(ElementValue, int), _>(ParseError::UnknownElementValueTag(tag))
        }
    }
}

/// One per-parameter annotation list: a 16-bit count, then that many
/// annotations.
pub open spec fn ann_group_at(
    b: Seq<u8>,
    pos: int,
    out: Result<(Vec<Annotation>, int), ParseError>,
) -> bool {
    if pos + 2 > b.len() {
        out == Err::<(Vec<Annotation>, int), _>(ParseError::Io)
    } else {
        let n = be_u16(b, pos);
        match out {
            Ok((v, end)) => v@.len() == n && span_anns(b, pos + 2, end, v@),
            Err(e) => fails_anns(b, pos + 2, n, e),
        }
    }
}

/// The target-type discriminator named by a type-annotation tag byte.
pub open spec fn target_type_of(tt: u8) -> Option<TargetType> {
    match tt {
        0x00 => Some(TargetType::Type),
        0x01 => Some(TargetType::Method),
        0x10 => Some(TargetType::Supertype),
        0x11 => Some(TargetType::TypeBound),
        0x12 => Some(TargetType::MethodBound),
        0x13 => Some(TargetType::Field),
        0x14 => Some(TargetType::MethodReturnType),
        0x15 => Some(TargetType::ReceiverType),
        0x16 => Some(TargetType::Parameter),
        0x17 => Some(TargetType::Throws),
        0x40 => Some(TargetType::LocalVariableDeclaration),
        0x41 => Some(TargetType::ResourceVariableDeclaration),
        0x42 => Some(TargetType::ExceptionParameterDeclaration),
        0x43 => Some(TargetType::Instanceof),
        0x44 => Some(TargetType::New),
        0x45 => Some(TargetType::MethodReferenceNew),
        0x46 => Some(TargetType::MethodReference),
        0x47 => Some(TargetType::Cast),
        0x48 => Some(TargetType::ConstructorArgument),
        0x49 => Some(TargetType::MethodArgument),
        0x4A => Some(TargetType::MethodReferenceNewArgument),
        0x4B => Some(TargetType::MethodReferenceArgument),
        _ => None,
    }
}

/// The target-info payload at `pos`, whose shape is selected by the
/// (already validated) target-type tag.
pub open spec fn target_info_at(
    b: Seq<u8>,
    tag: u8,
    pos: int,
    out: Result<(TargetInfo, int), ParseError>,
) -> bool {
    if tag == 0x00 || tag == 0x01 {
        if pos + 1 > b.len() {
            out == Err::<(TargetInfo, int), _>(ParseError::Io)
        } else {
            out == Ok::<_, ParseError>((TargetInfo::TypeParameter { index: b[pos] }, pos + 1))
        }
    } else if tag == 0x10 {
        if pos + 2 > b.len() {
            out == Err::<(TargetInfo, int), _>(ParseError::Io)
        } else {
            out == Ok::<_, ParseError>((TargetInfo::Supertype { index: be_u16(b, pos) as u16 },
                pos + 2))
        }
    } else if tag == 0x11 || tag == 0x12 {
        if pos + 2 > b.len() {
            out == Err::<(TargetInfo, int), _>(ParseError::Io)
        } else {
            out == Ok::<_, ParseError>((TargetInfo::TypeParameterBound {
                index: b[pos],
                bound_index: b[pos + 1],
            }, pos + 2))
        }
    } else if 0x13 <= tag && tag <= 0x15 {
        out == Ok::<_, ParseError>((TargetInfo::Empty, pos))
    } else if tag == 0x16 {
        if pos + 1 > b.len() {
            out == Err::<(TargetInfo, int), _>(ParseError::Io)
        } else {
            out == Ok::<_, ParseError>((TargetInfo::MethodFormalParameter { index: b[pos] },
                pos + 1))
        }
    } else if tag == 0x17 {
        if pos + 2 > b.len() {
            out == Err::<(TargetInfo, int), _>(ParseError::Io)
        } else {
            out == Ok::<_, ParseError>((TargetInfo::Throws { type_index: be_u16(b, pos) as u16 },
                pos + 2))
        }
    } else if tag == 0x40 || tag == 0x41 {
        if pos + 2 > b.len() {
            out == Err::<(TargetInfo, int), _>(ParseError::Io)
        } else {
            let n = be_u16(b, pos);
            if pos + 2 + 6 * n > b.len() {
                out == Err::<(TargetInfo, int), _>(ParseError::Io)
            } else {
                out matches Ok((ti, end)) && end == pos + 2 + 6 * n && (ti matches
                    TargetInfo::Localvar(t) && localvar_targets_at(b, pos + 2, n, t@))
            }
        }
    } else if tag == 0x42 {
        if pos + 2 > b.len() {
            out == Err::<(TargetInfo, int), _>(ParseError::Io)
        } else {
            out == Ok::<_, ParseError>((TargetInfo::Catch {
                exception_table_index: be_u16(b, pos) as u16,
            }, pos + 2))
        }
    } else if 0x43 <= tag && tag <= 0x46 {
        if pos + 2 > b.len() {
            out == Err::<(TargetInfo, int), _>(ParseError::Io)
        } else {
            out == Ok::<_, ParseError>((TargetInfo::Offset(be_u16(b, pos) as u16), pos + 2))
        }
    } else {
        if pos + 3 > b.len() {
            out == Err::<(TargetInfo, int), _>(ParseError::Io)
        } else {
            out == Ok::<_, ParseError>((TargetInfo::TypeArgument {
                offset: be_u16(b, pos) as u16,
                index: b[pos + 2],
            }, pos + 3))
        }
    }
}

/// The kind of one type-path step, for a (already validated) tag 0-3.
pub open spec fn type_path_kind_of(k: u8) -> TypePathKind {
    if k == 0 {
        TypePathKind::Array
    } else if k == 1 {
        TypePathKind::Nested
    } else if k == 2 {
        TypePathKind::WildcardBound
    } else {
        TypePathKind::TypeArgument
    }
}

/// One type-path step at `pos`: a kind tag 0-3 and an argument index.
pub open spec fn path_element_at(
    b: Seq<u8>,
    pos: int,
    out: Result<(PathElement, int), ParseError>,
) -> bool {
    if pos + 1 > b.len() {
        out == Err::<(PathElement, int), _>(ParseError::Io)
    } else {
        let k = b[pos];
        if k <= 3 {
            if pos + 2 > b.len() {
                out == Err::<(PathElement, int), _>(ParseError::Io)
            } else {
                out == Ok::<_, ParseError>((PathElement {
                    kind: type_path_kind_of(k),
                    argument_index: b[pos + 1],
                }, pos + 2))
            }
        } else {
            out == Err::<(PathElement, int), _>(ParseError::UnknownTypePathKind(k))
        }
    }
}

/// The body of a decoded type annotation after its (validated) target-type
/// tag: target info ending at `q`, a type path ending at `mid`, then the
/// type index and element-value pairs ending at `end`.
pub open spec fn tann_rest_at(
    b: Seq<u8>,
    tag: u8,
    pos: int,
    ta: TypeAnnotation,
    q: int,
    mid: int,
    end: int,
) -> bool {
    &&& pos + 1 <= q
    &&& q + 1 <= b.len()
    &&& target_info_at(b, tag, pos + 1, Ok((ta.target_info, q)))
    &&& ta.type_path.path@.len() == b[q]
    &&& q + 1 <= mid
    &&& mid + 4 <= b.len()
    &&& span_path_elems(b, q + 1, mid, ta.type_path.path@)
    &&& ta.type_index == be_u16(b, mid) as u16
    &&& ta.element_value_pairs@.len() == be_u16(b, mid + 2)
    &&& span_evps(b, mid + 4, end, ta.element_value_pairs@)
}

/// One type annotation at `pos`: a target-type tag, the tag's target-info
/// payload, a count-prefixed type path, a type index, and element-value
/// pairs.
pub open spec fn type_annotation_at(
    b: Seq<u8>,
    pos: int,
    out: Result<(TypeAnnotation, int), ParseError>,
) -> bool {
    if pos + 1 > b.len() {
        out == Err::<(TypeAnnotation, int), _>(ParseError::Io)
    } else {
        match target_type_of(b[pos]) {
            None => out == Err::<(TypeAnnotation, int), _>(ParseError::UnknownTargetType(b[pos])),
            Some(tt) => match out {
                Ok((ta, end)) => ta.target_type == tt && exists|q: int, mid: int|
                    #[trigger] boundary(q, mid) && tann_rest_at(b, b[pos], pos, ta, q, mid, end),
                Err(e) => target_info_at(b, b[pos], pos + 1, Err(e)) || exists|info: TargetInfo, q: int|
                    pos + 1 <= q <= b.len()
                        && #[trigger] target_info_at(b, b[pos], pos + 1, Ok((info, q))) && (if q + 1
                        > b.len() {
                        e == ParseError::Io
                    } else {
                        fails_path_elems(b, q + 1, b[q] as int, e) || exists|pes: Seq<PathElement>, mid: int|
                            #[trigger] step_to(pes, mid) && q + 1 <= mid <= b.len() && pes.len() == b[q]
                                && span_path_elems(b, q + 1, mid, pes) && (if mid + 4
                                > b.len() {
                                e == ParseError::Io
                            } else {
                                fails_evps(b, mid + 4, be_u16(b, mid + 2), e)
                            })
                    }),
            },
        }
    }
}

/// One bootstrap-method record at `pos`: a method-handle reference and a
/// count-prefixed list of 16-bit argument indices.
pub open spec fn bootstrap_method_at(
    b: Seq<u8>,
    pos: int,
    out: Result<(BootstrapMethod, int), ParseError>,
) -> bool {
    if pos + 4 > b.len() {
        out == Err::<(BootstrapMethod, int), _>(ParseError::Io)
    } else {
        let n = be_u16(b, pos + 2);
        if pos + 4 + 2 * n > b.len() {
            out == Err::<(BootstrapMethod, int), _>(ParseError::Io)
        } else {
            out matches Ok((m0, end)) && end == pos + 4 + 2 * n && m0.method_ref == be_u16(b, pos)
                as u16 && u16s_at(b, pos + 4, n, m0.arguments@)
        }
    }
}

/// One field-table entry at `pos`: three 16-bit indices, then the entry's
/// attribute list.
pub open spec fn field_at(
    b: Seq<u8>,
    pool: Seq<ConstantPoolInfo>,
    pos: int,
    out: Result<(Field, int), ParseError>,
) -> bool {
    if pos + 6 > b.len() {
        out == Err::<(Field, int), _>(ParseError::Io)
    } else {
        match out {
            Ok((f, end)) => f.access_flags == be_u16(b, pos) as u16 && f.name_index == be_u16(b,
                pos + 2) as u16 && f.descriptor_index == be_u16(b, pos + 4) as u16
                && attrs_section_at(b, pool, pos + 6, Ok((f.attributes@, end))),
            Err(e) => attrs_section_at(b, pool, pos + 6, Err(e)),
        }
    }
}

/// One method-table entry at `pos`: three 16-bit indices, then the entry's
/// attribute list.
pub open spec fn method_at(
    b: Seq<u8>,
    pool: Seq<ConstantPoolInfo>,
    pos: int,
    out: Result<(Method, int), ParseError>,
) -> bool {
    if pos + 6 > b.len() {
        out == Err::<(Method, int), _>(ParseError::Io)
    } else {
        match out {
            Ok((m0, end)) => m0.access_flags == be_u16(b, pos) as u16 && m0.name_index == be_u16(b,
                pos + 2) as u16 && m0.descriptor_index == be_u16(b, pos + 4) as u16
                && attrs_section_at(b, pool, pos + 6, Ok((m0.attributes@, end))),
            Err(e) => attrs_section_at(b, pool, pos + 6, Err(e)),
        }
    }
}

/// A count-prefixed attribute list at `pos`.
pub open spec fn attrs_section_at(
    b: Seq<u8>,
    pool: Seq<ConstantPoolInfo>,
    pos: int,
    out: Result<(Seq<Attribute>, int), ParseError>,
) -> bool
    decreases b.len() - pos, 0int,
{
    if pos + 2 > b.len() {
        out == Err::<(Seq<Attribute>, int), _>(ParseError::Io)
    } else {
        let n = be_u16(b, pos);
        match out {
            Ok((s, end)) => s.len() == n && span_attrs(b, pool, pos + 2, end, s),
            Err(e) => fails_attrs(b, pool, pos + 2, n, e),
        }
    }
}

/// A count-prefixed field table at `pos`.
pub open spec fn fields_section_at(
    b: Seq<u8>,
    pool: Seq<ConstantPoolInfo>,
    pos: int,
    out: Result<(Seq<Field>, int), ParseError>,
) -> bool {
    if pos + 2 > b.len() {
        out == Err::<(Seq<Field>, int), _>(ParseError::Io)
    } else {
        let n = be_u16(b, pos);
        match out {
            Ok((s, end)) => s.len() == n && span_fields(b, pool, pos + 2, end, s),
            Err(e) => fails_fields(b, pool, pos + 2, n, e),
        }
    }
}

/// A count-prefixed method table at `pos`.
pub open spec fn methods_section_at(
    b: Seq<u8>,
    pool: Seq<ConstantPoolInfo>,
    pos: int,
    out: Result<(Seq<Method>, int), ParseError>,
) -> bool {
    if pos + 2 > b.len() {
        out == Err::<(Seq<Method>, int), _>(ParseError::Io)
    } else {
        let n = be_u16(b, pos);
        match out {
            Ok((s, end)) => s.len() == n && span_methods(b, pool, pos + 2, end, s),
            Err(e) => fails_methods(b, pool, pos + 2, n, e),
        }
    }
}

/// The body of a `Code` attribute at `p` (after the attribute header):
/// stack and local sizing, the instruction bytes, the exception table, and
/// a nested attribute list. The instruction bytes are decoded separately
/// against the instruction grammar; the nested attributes are decoded first,
/// so their error wins over an instruction error.
pub open spec fn code_attribute_at(
    b: Seq<u8>,
    pool: Seq<ConstantPoolInfo>,
    p: int,
    out: Result<(Attribute, int), ParseError>,
) -> bool
    decreases b.len() - p, 0int,
{
    if p + 8 > b.len() {
        out == Err::<(Attribute, int), _>(ParseError::Io)
    } else {
        let cl = be_u32(b, p + 4);
        if p + 8 + cl > b.len() {
            out == Err::<(Attribute, int), _>(ParseError::Io)
        } else {
            let cb = b.subrange(p + 8, p + 8 + cl);
            let q = p + 8 + cl;
            if q + 2 > b.len() {
                out == Err::<(Attribute, int), _>(ParseError::Io)
            } else {
                let ec = be_u16(b, q);
                if q + 2 + 8 * ec > b.len() {
                    out == Err::<(Attribute, int), _>(ParseError::Io)
                } else {
                    let r0 = q + 2 + 8 * ec;
                    match out {
                        Ok((a, end)) => {
                            &&& a matches Attribute::Code {
                                max_stack,
                                max_locals,
                                code,
                                exception_table,
                                attributes,
                            }
                            &&& max_stack == be_u16(b, p) as u16
                            &&& max_locals == be_u16(b, p + 2) as u16
                            &&& exceptions_at(b, q + 2, ec, exception_table@)
                            &&& attrs_section_at(b, pool, r0, Ok((attributes@, end)))
                            &&& code_span(cb, 0, cl, code@)
                        },
                        Err(e) => attrs_section_at(b, pool, r0, Err(e)) || ((exists|ats: Seq<
                            Attribute,
                        >, e2: int|
                            #[trigger] step_to(ats, e2) && attrs_section_at(b, pool, r0,
                                Ok((ats, e2)))) && code_fails(cb, 0, e)),
                    }
                }
            }
        }
    }
}

/// One attribute at `pos`: a 16-bit name index, a 32-bit declared length,
/// then a layout selected by the name the index resolves to. Recognized
/// names are decoded by their own exact layout (the declared length is not
/// used to skip); an unrecognized name keeps exactly `length` raw bytes.
pub open spec fn attribute_at(
    b: Seq<u8>,
    pool: Seq<ConstantPoolInfo>,
    pos: int,
    out: Result<(Attribute, int), ParseError>,
) -> bool
    decreases b.len() - pos, 0int,
{
    if pos + 6 > b.len() {
        out == Err::<(Attribute, int), _>(ParseError::Io)
    } else {
        let ni = be_u16(b, pos);
        let length = be_u32(b, pos + 2);
        let p = pos + 6;
        if ni == 0 || ni > pool.len() {
            out == Err::<(Attribute, int), _>(ParseError::AttributeNameOutOfRange(ni as u16))
        } else if !(pool[ni - 1] is Utf8) {
            out == Err::<(Attribute, int), _>(ParseError::AttributeNameNotUtf8(ni as u16))
        } else {
            let name = pool[ni - 1]->Utf8_0@;
            if name == "Code"@ {
                code_attribute_at(b, pool, p, out)
            } else if name == "ConstantValue"@ {
                if p + 2 > b.len() {
                    out == Err::<(Attribute, int), _>(ParseError::Io)
                } else {
                    out == Ok::<_, ParseError>((Attribute::ConstantValue {
                        constvalue_index: be_u16(b, p) as u16,
                    }, p + 2))
                }
            } else if name == "StackMapTable"@ {
                if p + 2 > b.len() {
                    out == Err::<(Attribute, int), _>(ParseError::Io)
                } else {
                    let n = be_u16(b, p);
                    match out {
                        Ok((a, end)) => a matches Attribute::StackMapTable(fs) && fs@.len() == n
                            && span_frames(b, p + 2, end, fs@),
                        Err(e) => fails_frames(b, p + 2, n, e),
                    }
                }
            } else if name == "Exceptions"@ {
                if p + 2 > b.len() {
                    out == Err::<(Attribute, int), _>(ParseError::Io)
                } else {
                    let n = be_u16(b, p);
                    if p + 2 + 2 * n > b.len() {
                        out == Err::<(Attribute, int), _>(ParseError::Io)
                    } else {
                        out matches Ok((a, end)) && end == p + 2 + 2 * n && (a matches
                            Attribute::Exceptions { exception_index_table }
                            && u16s_at(b, p + 2, n, exception_index_table@))
                    }
                }
            } else if name == "InnerClasses"@ {
                if p + 2 > b.len() {
                    out == Err::<(Attribute, int), _>(ParseError::Io)
                } else {
                    let n = be_u16(b, p);
                    if p + 2 + 8 * n > b.len() {
                        out == Err::<(Attribute, int), _>(ParseError::Io)
                    } else {
                        out matches Ok((a, end)) && end == p + 2 + 8 * n && (a matches
                            Attribute::InnerClasses { classes }
                            && inner_classes_at(b, p + 2, n, classes@))
                    }
                }
            } else if name == "EnclosingMethod"@ {
                if p + 4 > b.len() {
                    out == Err::<(Attribute, int), _>(ParseError::Io)
                } else {
                    out == Ok::<_, ParseError>((Attribute::EnclosingMethod {
                        class_index: be_u16(b, p) as u16,
                        method_index: be_u16(b, p + 2) as u16,
                    }, p + 4))
                }
            } else if name == "Synthetic"@ {
                out == Ok::<_, ParseError>((Attribute::Synthetic, p))
            } else if name == "Signature"@ {
                if p + 2 > b.len() {
                    out == Err::<(Attribute, int), _>(ParseError::Io)
                } else {
                    out == Ok::<_, ParseError>((Attribute::Signature {
                        signature_index: be_u16(b, p) as u16,
                    }, p + 2))
                }
            } else if name == "SourceFile"@ {
                if p + 2 > b.len() {
                    out == Err::<(Attribute, int), _>(ParseError::Io)
                } else {
                    out == Ok::<_, ParseError>((Attribute::SourceFile {
                        sourcefile_index: be_u16(b, p) as u16,
                    }, p + 2))
                }
            } else if name == "SourceDebugExtension"@ {
                if p + length > b.len() {
                    out == Err::<(Attribute, int), _>(ParseError::Io)
                } else {
                    out matches Ok((a, end)) && end == p + length && (a matches
                        Attribute::SourceDebugExtension(d) && d@ == b.subrange(p, p + length))
                }
            } else if name == "LineNumberTable"@ {
                if p + 2 > b.len() {
                    out == Err::<(Attribute, int), _>(ParseError::Io)
                } else {
                    let n = be_u16(b, p);
                    if p + 2 + 4 * n > b.len() {
                        out == Err::<(Attribute, int), _>(ParseError::Io)
                    } else {
                        out matches Ok((a, end)) && end == p + 2 + 4 * n && (a matches
                            Attribute::LineNumberTable(es) && line_numbers_at(b, p + 2, n, es@))
                    }
                }
            } else if name == "LocalVariableTable"@ {
                if p + 2 > b.len() {
                    out == Err::<(Attribute, int), _>(ParseError::Io)
                } else {
                    let n = be_u16(b, p);
                    if p + 2 + 10 * n > b.len() {
                        out == Err::<(Attribute, int), _>(ParseError::Io)
                    } else {
                        out matches Ok((a, end)) && end == p + 2 + 10 * n && (a matches
                            Attribute::LocalVariableTable(es) && local_vars_at(b, p + 2, n, es@))
                    }
                }
            } else if name == "LocalVariableTypeTable"@ {
                if p + 2 > b.len() {
                    out == Err::<(Attribute, int), _>(ParseError::Io)
                } else {
                    let n = be_u16(b, p);
                    if p + 2 + 10 * n > b.len() {
                        out == Err::<(Attribute, int), _>(ParseError::Io)
                    } else {
                        out matches Ok((a, end)) && end == p + 2 + 10 * n && (a matches
                            Attribute::LocalVariableTypeTable(es)
                            && local_vars_at(b, p + 2, n, es@))
                    }
                }
            } else if name == "Deprecated"@ {
                out == Ok::<_, ParseError>((Attribute::Deprecated, p))
            } else if name == "RuntimeVisibleAnnotations"@ {
                if p + 2 > b.len() {
                    out == Err::<(Attribute, int), _>(ParseError::Io)
                } else {
                    let n = be_u16(b, p);
                    match out {
                        Ok((a, end)) => a matches Attribute::RuntimeVisibleAnnotations(ans)
                            && ans@.len() == n && span_anns(b, p + 2, end, ans@),
                        Err(e) => fails_anns(b, p + 2, n, e),
                    }
                }
            } else if name == "RuntimeInvisibleAnnotations"@ {
                if p + 2 > b.len() {
                    out == Err::<(Attribute, int), _>(ParseError::Io)
                } else {
                    let n = be_u16(b, p);
                    match out {
                        Ok((a, end)) => a matches Attribute::RuntimeInvisibleAnnotations(ans)
                            && ans@.len() == n && span_anns(b, p + 2, end, ans@),
                        Err(e) => fails_anns(b, p + 2, n, e),
                    }
                }
            } else if name == "RuntimeVisibleParameterAnnotations"@ {
                if p + 1 > b.len() {
                    out == Err::<(Attribute, int), _>(ParseError::Io)
                } else {
                    let n = b[p];
                    match out {
                        Ok((a, end)) => a matches
                            Attribute::RuntimeVisibleParameterAnnotations(gs) && gs@.len() == n
                            && span_ann_groups(b, p + 1, end, gs@),
                        Err(e) => fails_ann_groups(b, p + 1, n as int, e),
                    }
                }
            } else if name == "RuntimeInvisibleParameterAnnotations"@ {
                if p + 1 > b.len() {
                    out == Err::<(Attribute, int), _>(ParseError::Io)
                } else {
                    let n = b[p];
                    match out {
                        Ok((a, end)) => a matches
                            Attribute::RuntimeInvisibleParameterAnnotations(gs) && gs@.len() == n
                            && span_ann_groups(b, p + 1, end, gs@),
                        Err(e) => fails_ann_groups(b, p + 1, n as int, e),
                    }
                }
            } else if name == "RuntimeVisibleTypeAnnotations"@ {
                if p + 2 > b.len() {
                    out == Err::<(Attribute, int), _>(ParseError::Io)
                } else {
                    let n = be_u16(b, p);
                    match out {
                        Ok((a, end)) => a matches Attribute::RuntimeVisibleTypeAnnotations(tas)
                            && tas@.len() == n && span_tanns(b, p + 2, end, tas@),
                        Err(e) => fails_tanns(b, p + 2, n, e),
                    }
                }
            } else if name == "RuntimeInvisibleTypeAnnotations"@ {
                if p + 2 > b.len() {
                    out == Err::<(Attribute, int), _>(ParseError::Io)
                } else {
                    let n = be_u16(b, p);
                    match out {
                        Ok((a, end)) => a matches Attribute::RuntimeInvisibleTypeAnnotations(tas)
                            && tas@.len() == n && span_tanns(b, p + 2, end, tas@),
                        Err(e) => fails_tanns(b, p + 2, n, e),
                    }
                }
            } else if name == "AnnotationDefault"@ {
                match out {
                    Ok((a, end)) => a matches Attribute::AnnotationDefault { element_value }
                        && element_value_at(b, p, Ok((element_value, end))),
                    Err(e) => element_value_at(b, p, Err(e)),
                }
            } else if name == "BootstrapMethods"@ {
                if p + 2 > b.len() {
                    out == Err::<(Attribute, int), _>(ParseError::Io)
                } else {
                    let n = be_u16(b, p);
                    match out {
                        Ok((a, end)) => a matches Attribute::BootstrapMethods(ms) && ms@.len() == n
                            && span_bsms(b, p + 2, end, ms@),
                        Err(e) => fails_bsms(b, p + 2, n, e),
                    }
                }
            } else if name == "MethodParameters"@ {
                if p + 1 > b.len() {
                    out == Err::<(Attribute, int), _>(ParseError::Io)
                } else {
                    let n = b[p];
                    if p + 1 + 4 * n > b.len() {
                        out == Err::<(Attribute, int), _>(ParseError::Io)
                    } else {
                        out matches Ok((a, end)) && end == p + 1 + 4 * n && (a matches
                            Attribute::MethodParameters(ps) && method_params_at(b, p + 1, n as int,
                            ps@))
                    }
                }
            } else {
                if p + length > b.len() {
                    out == Err::<(Attribute, int), _>(ParseError::Io)
                } else {
                    out matches Ok((a, end)) && end == p + length && (a matches Attribute::Unknown(
                        d) && d@ == b.subrange(p, p + length))
                }
            }
        }
    }
}

/// The staged body of a decoded class file: the constant pool ends at
/// `p1`, the field table at `p3`, the method table at `p4`, and the
/// top-level attributes at `p5`.
#[verifier::opaque]
pub open spec fn class_body_at(b: Seq<u8>, c: Class, p1: int, p3: int, p4: int, p5: int) -> bool {
    &&& 8 < p1 <= b.len()
    &&& cp_section_at(b, 8, Ok((c.constant_pool@, p1)))
    &&& p1 + 8 <= b.len()
    &&& c.access_flags == be_u16(b, p1) as u16
    &&& c.this_class == be_u16(b, p1 + 2) as u16
    &&& c.super_class == be_u16(b, p1 + 4) as u16
    &&& p1 + 8 + 2 * be_u16(b, p1 + 6) <= b.len()
    &&& u16s_at(b, p1 + 8, be_u16(b, p1 + 6), c.interfaces@)
    &&& fields_section_at(b, c.constant_pool@, p1 + 8 + 2 * be_u16(b, p1 + 6),
        Ok((c.fields@, p3)))
    &&& 0 <= p3 <= b.len()
    &&& methods_section_at(b, c.constant_pool@, p3, Ok((c.methods@, p4)))
    &&& 0 <= p4 <= b.len()
    &&& attrs_section_at(b, c.constant_pool@, p4, Ok((c.attributes@, p5)))
    &&& p5 <= b.len()
}

/// A whole class file: magic and versions, the constant pool, flags and
/// class references, the interface list, the field and method tables, and
/// the top-level attribute list. Trailing bytes after the last attribute are
/// ignored.
pub open spec fn class_file_at(b: Seq<u8>, out: Result<Class, ParseError>) -> bool {
    if b.len() < 8 {
        out == Err::<Class, _>(ParseError::Io)
    } else {
        match out {
            Ok(c) => {
                &&& c.magic == be_u32(b, 0) as u32
                &&& c.minor_version == be_u16(b, 4) as u16
                &&& c.major_version == be_u16(b, 6) as u16
                &&& exists|p1: int, p3: int, p4: int, p5: int|
                    #[trigger] boundaries(p1, p3, p4, p5) && class_body_at(b, c, p1, p3, p4, p5)
            },
            Err(e) => class_file_fails(b, e),
        }
    }
}

/// A whole-class-file decode fails with exactly the error `e`: some prefix
/// of the fixed stages decodes, and the next stage fails with `e`.
pub open spec fn class_file_fails(b: Seq<u8>, e: ParseError) -> bool {
    ||| b.len() < 8 && e == ParseError::Io
    ||| cp_section_at(b, 8, Err(e))
    ||| exists|pool: Seq<ConstantPoolInfo>, p1: int|
        8 < p1 <= b.len() && #[trigger] cp_section_at(b, 8, Ok((pool, p1))) && (if p1 + 8
            > b.len() {
            e == ParseError::Io
        } else {
            if p1 + 8 + 2 * be_u16(b, p1 + 6) > b.len() {
                e == ParseError::Io
            } else {
                let p2 = p1 + 8 + 2 * be_u16(b, p1 + 6);
                fails_from_fields(b, pool, p2, e)
            }
        })
}

/// Decoding the field table, method table, and top-level attributes from
/// `p2` fails with exactly the error `e`.
pub open spec fn fails_from_fields(
    b: Seq<u8>,
    pool: Seq<ConstantPoolInfo>,
    p2: int,
    e: ParseError,
) -> bool {
    ||| fields_section_at(b, pool, p2, Err(e))
    ||| exists|fs: Seq<Field>, p3: int|
        p2 <= p3 <= b.len() && #[trigger] fields_section_at(b, pool, p2, Ok((fs, p3))) && ({
            ||| methods_section_at(b, pool, p3, Err(e))
            ||| exists|ms: Seq<Method>, p4: int|
                p3 <= p4 <= b.len() && #[trigger] methods_section_at(b, pool, p3, Ok((ms, p4)))
                    && attrs_section_at(b, pool, p4, Err(e))
        })
}

/// The number of two-slot (`Long`/`Double`) records in a pool slice.
pub open spec fn count_double(s: Seq<ConstantPoolInfo>) -> int
    decreases s.len(),
{
    if s.len() == 0 {
        0
    } else {
        (if s[0] is Long || s[0] is Double {
            1int
        } else {
            0int
        }) + count_double(s.drop_first())
    }
}

/// The number of `Invalid` filler slots in a pool slice.
pub open spec fn count_filler(s: Seq<ConstantPoolInfo>) -> int
    decreases s.len(),
{
    if s.len() == 0 {
        0
    } else {
        (if s[0] is Invalid {
            1int
        } else {
            0int
        }) + count_filler(s.drop_first())
    }
}

/// A decoded record is never the `Invalid` filler: no tag produces it.
pub proof fn lemma_cp_entry_not_invalid(
    b: Seq<u8>,
    pos: int,
    e0: ConstantPoolInfo,
    mid: int,
)
    requires
        cp_entry_at(b, pos, Ok((e0, mid))),
    ensures
        !(e0 is Invalid),
{
}

/// Index bookkeeping of a decoded constant pool: every two-slot
/// (`Long`/`Double`) record is immediately followed by its `Invalid` filler
/// slot, fillers arise only that way, and the pool holds exactly one slot
/// per decoded record plus one extra per two-slot record — so each record's
/// 1-based slot position is the index later references use to reach it.
/// Step extraction for a nonempty decoded pool span: the head record, its
/// end position, and the span of the remaining slots.
proof fn lemma_span_cp_destruct(b: Seq<u8>, lo: int, hi: int, s: Seq<ConstantPoolInfo>) -> (m:
    int)
    requires
        span_cp(b, lo, hi, s),
        s.len() > 0,
    ensures
        lo < m <= b.len(),
        cp_entry_at(b, lo, Ok((s[0], m))),
        !(s[0] is Invalid),
        (s[0] is Long || s[0] is Double) ==> s.len() >= 2 && s[1] == ConstantPoolInfo::Invalid
            && span_cp(b, m, hi, s.skip(2)),
        !(s[0] is Long || s[0] is Double) ==> span_cp(b, m, hi, s.drop_first()),
{
    let m = choose|m: int|
        lo < m <= b.len() && #[trigger] cp_entry_at(b, lo, Ok((s[0], m))) && (if s[0] is Long
            || s[0] is Double {
            s.len() >= 2 && s[1] == ConstantPoolInfo::Invalid && span_cp(b, m, hi, s.skip(2))
        } else {
            span_cp(b, m, hi, s.drop_first())
        });
    lemma_cp_entry_not_invalid(b, lo, s[0], m);
    m
}

/// In a decoded pool span, fillers and two-slot records are in bijection.
proof fn lemma_pool_counts(b: Seq<u8>, lo: int, hi: int, s: Seq<ConstantPoolInfo>)
    requires
        span_cp(b, lo, hi, s),
    ensures
        count_filler(s) == count_double(s),
    decreases s.len(),
{
    if s.len() > 0 {
        let m = lemma_span_cp_destruct(b, lo, hi, s);
        if s[0] is Long || s[0] is Double {
            let t = s.skip(2);
            lemma_pool_counts(b, m, hi, t);
            assert(s.drop_first().drop_first() =~= t);
            assert(count_double(s) == 1 + count_double(s.drop_first()));
            assert(count_double(s.drop_first()) == count_double(t));
            assert(count_filler(s) == count_filler(s.drop_first()));
            assert(count_filler(s.drop_first()) == 1 + count_filler(t));
        } else {
            let t = s.drop_first();
            lemma_pool_counts(b, m, hi, t);
            assert(count_double(s) == count_double(t));
            assert(count_filler(s) == count_filler(t));
        }
    }
}

/// In a decoded pool span, each two-slot record is immediately followed by
/// its filler.
proof fn lemma_pool_filler_after_double(b: Seq<u8>, lo: int, hi: int, s: Seq<ConstantPoolInfo>)
    requires
        span_cp(b, lo, hi, s),
    ensures
        forall|i: int|
            0 <= i < s.len() && ((#[trigger] s[i]) is Long || s[i] is Double) ==> i + 1 < s.len()
                && s[i + 1] == ConstantPoolInfo::Invalid,
    decreases s.len(),
{
    if s.len() > 0 {
        let m = lemma_span_cp_destruct(b, lo, hi, s);
        if s[0] is Long || s[0] is Double {
            let t = s.skip(2);
            lemma_pool_filler_after_double(b, m, hi, t);
            assert forall|i: int|
                0 <= i < s.len() && ((#[trigger] s[i]) is Long || s[i] is Double) implies i + 1
                    < s.len() && s[i + 1] == ConstantPoolInfo::Invalid by {
                if i >= 2 {
                    assert(s[i] == t[i - 2]);
                    assert(t[i - 2 + 1] == s[i + 1]);
                }
            }
        } else {
            let t = s.drop_first();
            lemma_pool_filler_after_double(b, m, hi, t);
            assert forall|i: int|
                0 <= i < s.len() && ((#[trigger] s[i]) is Long || s[i] is Double) implies i + 1
                    < s.len() && s[i + 1] == ConstantPoolInfo::Invalid by {
                if i >= 1 {
                    assert(s[i] == t[i - 1]);
                    assert(t[i - 1 + 1] == s[i + 1]);
                }
            }
        }
    }
}

/// In a decoded pool span, a filler stands only right after a two-slot
/// record.
proof fn lemma_pool_filler_only_after_double(
    b: Seq<u8>,
    lo: int,
    hi: int,
    s: Seq<ConstantPoolInfo>,
)
    requires
        span_cp(b, lo, hi, s),
    ensures
        forall|i: int|
            0 <= i < s.len() && (#[trigger] s[i]) is Invalid ==> i >= 1 && (s[i - 1] is Long
                || s[i - 1] is Double),
    decreases s.len(),
{
    if s.len() > 0 {
        let m = lemma_span_cp_destruct(b, lo, hi, s);
        if s[0] is Long || s[0] is Double {
            let t = s.skip(2);
            lemma_pool_filler_only_after_double(b, m, hi, t);
            assert forall|i: int|
                0 <= i < s.len() && (#[trigger] s[i]) is Invalid implies i >= 1 && (s[i - 1]
                    is Long || s[i - 1] is Double) by {
                if i >= 2 {
                    assert(s[i] == t[i - 2]);
                    if i >= 3 {
                        assert(t[i - 2 - 1] == s[i - 1]);
                    }
                }
            }
        } else {
            let t = s.drop_first();
            lemma_pool_filler_only_after_double(b, m, hi, t);
            assert forall|i: int|
                0 <= i < s.len() && (#[trigger] s[i]) is Invalid implies i >= 1 && (s[i - 1]
                    is Long || s[i - 1] is Double) by {
                if i >= 1 {
                    assert(s[i] == t[i - 1]);
                    if i >= 2 {
                        assert(t[i - 1 - 1] == s[i - 1]);
                    }
                }
            }
        }
    }
}

/// Index bookkeeping of a decoded constant pool: every two-slot
/// (`Long`/`Double`) record is immediately followed by its `Invalid` filler
/// slot, fillers arise only that way, and the pool holds exactly one slot
/// per decoded record plus one extra per two-slot record — so each record's
/// 1-based slot position is the index later references use to reach it.
pub proof fn lemma_pool_slot_bookkeeping(b: Seq<u8>, lo: int, hi: int, s: Seq<ConstantPoolInfo>)
    requires
        span_cp(b, lo, hi, s),
    ensures
        count_filler(s) == count_double(s),
        s.len() == (s.len() - count_filler(s)) + count_double(s),
        forall|i: int|
            0 <= i < s.len() && ((#[trigger] s[i]) is Long || s[i] is Double) ==> i + 1 < s.len()
                && s[i + 1] == ConstantPoolInfo::Invalid,
        forall|i: int|
            0 <= i < s.len() && (#[trigger] s[i]) is Invalid ==> i >= 1 && (s[i - 1] is Long || s[i
                - 1] is Double),
{
    lemma_pool_counts(b, lo, hi, s);
    lemma_pool_filler_after_double(b, lo, hi, s);
    lemma_pool_filler_only_after_double(b, lo, hi, s);
}

/// Structural equality of pool records: field equality, with text records
/// compared by their abstract contents.
pub open spec fn cp_eq(e1: ConstantPoolInfo, e2: ConstantPoolInfo) -> bool {
    match (e1, e2) {
        (ConstantPoolInfo::Utf8(s1), ConstantPoolInfo::Utf8(s2)) => s1@ == s2@,
        _ => e1 == e2,
    }
}

/// Decoding one pool record is deterministic: two outcomes of the grammar
/// at the same position agree.
pub proof fn lemma_cp_entry_at_deterministic(
    b: Seq<u8>,
    pos: int,
    o1: Result<(ConstantPoolInfo, int), ParseError>,
    o2: Result<(ConstantPoolInfo, int), ParseError>,
)
    requires
        cp_entry_at(b, pos, o1),
        cp_entry_at(b, pos, o2),
    ensures
        match (o1, o2) {
            (Ok((e1, m1)), Ok((e2, m2))) => m1 == m2 && cp_eq(e1, e2),
            (Err(x), Err(y)) => x == y,
            _ => false,
        },
{
    match (o1, o2) {
        (Ok((e1, m1)), Ok((e2, m2))) => {
            if e1 is Utf8 && e2 is Utf8 {
                assert(char_points(e1->Utf8_0@) =~= char_points(e2->Utf8_0@));
                assert(e1->Utf8_0@ =~= e2->Utf8_0@) by {
                    assert forall|k: int| 0 <= k < e1->Utf8_0@.len() implies e1->Utf8_0@[k]
                        == e2->Utf8_0@[k] by {
                        assert(char_points(e1->Utf8_0@)[k] == char_points(e2->Utf8_0@)[k]);
                    }
                }
            }
        },
        _ => {},
    }
}

/// A decoded pool span never runs backwards.
proof fn lemma_span_cp_le(b: Seq<u8>, lo: int, hi: int, s: Seq<ConstantPoolInfo>)
    requires
        span_cp(b, lo, hi, s),
    ensures
        lo <= hi,
    decreases s.len(),
{
    if s.len() > 0 {
        let m = lemma_span_cp_destruct(b, lo, hi, s);
        if s[0] is Long || s[0] is Double {
            lemma_span_cp_le(b, m, hi, s.skip(2));
        } else {
            lemma_span_cp_le(b, m, hi, s.drop_first());
        }
    }
}

/// Decoding a constant-pool range is deterministic: two slot sequences the
/// grammar assigns to the same range agree pairwise. Decoding the same
/// bytes twice therefore yields structurally equal pools.
pub proof fn lemma_span_cp_deterministic(
    b: Seq<u8>,
    lo: int,
    hi: int,
    s1: Seq<ConstantPoolInfo>,
    s2: Seq<ConstantPoolInfo>,
)
    requires
        span_cp(b, lo, hi, s1),
        span_cp(b, lo, hi, s2),
    ensures
        s1.len() == s2.len(),
        forall|k: int| 0 <= k < s1.len() ==> cp_eq(#[trigger] s1[k], #[trigger] s2[k]),
    decreases s1.len(),
{
    if s1.len() == 0 {
        if s2.len() > 0 {
            let m2 = lemma_span_cp_destruct(b, lo, hi, s2);
            if s2[0] is Long || s2[0] is Double {
                lemma_span_cp_le(b, m2, hi, s2.skip(2));
            } else {
                lemma_span_cp_le(b, m2, hi, s2.drop_first());
            }
            assert(false);
        }
    } else if s2.len() == 0 {
        let m1 = lemma_span_cp_destruct(b, lo, hi, s1);
        if s1[0] is Long || s1[0] is Double {
            lemma_span_cp_le(b, m1, hi, s1.skip(2));
        } else {
            lemma_span_cp_le(b, m1, hi, s1.drop_first());
        }
        assert(false);
    } else {
        let m1 = lemma_span_cp_destruct(b, lo, hi, s1);
        let m2 = lemma_span_cp_destruct(b, lo, hi, s2);
        lemma_cp_entry_at_deterministic(b, lo, Ok((s1[0], m1)), Ok((s2[0], m2)));
        if s1[0] is Long || s1[0] is Double {
            lemma_span_cp_deterministic(b, m1, hi, s1.skip(2), s2.skip(2));
            assert forall|k: int| 0 <= k < s1.len() implies cp_eq(#[trigger] s1[k],
                #[trigger] s2[k]) by {
                if k >= 2 {
                    assert(s1[k] == s1.skip(2)[k - 2]);
                    assert(s2[k] == s2.skip(2)[k - 2]);
                }
            }
        } else {
            lemma_span_cp_deterministic(b, m1, hi, s1.drop_first(), s2.drop_first());
            assert forall|k: int| 0 <= k < s1.len() implies cp_eq(#[trigger] s1[k],
                #[trigger] s2[k]) by {
                if k >= 1 {
                    assert(s1[k] == s1.drop_first()[k - 1]);
                    assert(s2[k] == s2.drop_first()[k - 1]);
                }
            }
        }
    }
}

/// Structural equality of stack-map frames: field equality, with the
/// verification-type lists compared by their abstract contents.
pub open spec fn frame_eq(f1: StackMapFrame, f2: StackMapFrame) -> bool {
    match (f1, f2) {
        (
            StackMapFrame::AppendFrame { offset_delta: o1, locals: l1 },
            StackMapFrame::AppendFrame { offset_delta: o2, locals: l2 },
        ) => o1 == o2 && l1@ == l2@,
        (
            StackMapFrame::FullFrame { offset_delta: o1, locals: l1, stack: t1 },
            StackMapFrame::FullFrame { offset_delta: o2, locals: l2, stack: t2 },
        ) => o1 == o2 && l1@ == l2@ && t1@ == t2@,
        _ => f1 == f2,
    }
}

/// Structural equality of annotations.
pub open spec fn ann_eq(a1: Annotation, a2: Annotation) -> bool
    decreases a1,
{
    a1.type_index == a2.type_index && a1.element_value_pairs@.len()
        == a2.element_value_pairs@.len() && forall|k: int|
        0 <= k < a1.element_value_pairs@.len() ==> evp_eq(
            #[trigger] a1.element_value_pairs@[k],
            #[trigger] a2.element_value_pairs@[k],
        )
}

/// Structural equality of element-value pairs.
pub open spec fn evp_eq(p1: ElementValuePair, p2: ElementValuePair) -> bool
    decreases p1,
{
    p1.element_name_index == p2.element_name_index && ev_eq(p1.value, p2.value)
}

/// Structural equality of element values.
pub open spec fn ev_eq(v1: ElementValue, v2: ElementValue) -> bool
    decreases v1,
{
    match (v1, v2) {
        (ElementValue::Annotation(a1), ElementValue::Annotation(a2)) => ann_eq(a1, a2),
        (ElementValue::Array(x1), ElementValue::Array(x2)) => x1@.len() == x2@.len()
            && forall|k: int|
            0 <= k < x1@.len() ==> ev_eq(#[trigger] x1@[k], #[trigger] x2@[k]),
        _ => v1 == v2,
    }
}

/// Structural equality of target-info payloads.
pub open spec fn tinfo_eq(i1: TargetInfo, i2: TargetInfo) -> bool {
    match (i1, i2) {
        (TargetInfo::Localvar(t1), TargetInfo::Localvar(t2)) => t1@ == t2@,
        _ => i1 == i2,
    }
}

/// Structural equality of type annotations.
pub open spec fn tann_eq(t1: TypeAnnotation, t2: TypeAnnotation) -> bool {
    &&& t1.target_type == t2.target_type
    &&& tinfo_eq(t1.target_info, t2.target_info)
    &&& t1.type_path.path@ == t2.type_path.path@
    &&& t1.type_index == t2.type_index
    &&& t1.element_value_pairs@.len() == t2.element_value_pairs@.len()
    &&& forall|k: int|
        0 <= k < t1.element_value_pairs@.len() ==> evp_eq(
            #[trigger] t1.element_value_pairs@[k],
            #[trigger] t2.element_value_pairs@[k],
        )
}

/// Structural equality of bootstrap-method records.
pub open spec fn bsm_eq(m1: BootstrapMethod, m2: BootstrapMethod) -> bool {
    m1.method_ref == m2.method_ref && m1.arguments@ == m2.arguments@
}

/// Structural equality of per-parameter annotation lists.
pub open spec fn ann_group_eq(g1: Vec<Annotation>, g2: Vec<Annotation>) -> bool {
    g1@.len() == g2@.len() && forall|k: int|
        0 <= k < g1@.len() ==> ann_eq(#[trigger] g1@[k], #[trigger] g2@[k])
}

/// Structural equality of attributes: field equality, with every list
/// compared by its abstract contents, recursively.
pub open spec fn attr_eq(a1: Attribute, a2: Attribute) -> bool
    decreases a1,
{
    match (a1, a2) {
        (
            Attribute::Code {
                max_stack: s1,
                max_locals: l1,
                code: c1,
                exception_table: x1,
                attributes: t1,
            },
            Attribute::Code {
                max_stack: s2,
                max_locals: l2,
                code: c2,
                exception_table: x2,
                attributes: t2,
            },
        ) => {
            &&& s1 == s2
            &&& l1 == l2
            &&& x1@ == x2@
            &&& c1@.len() == c2@.len()
            &&& forall|k: int|
                0 <= k < c1@.len() ==> (#[trigger] c1@[k]).0 == (#[trigger] c2@[k]).0
                    && crate::decode::instr_eq(c1@[k].1, c2@[k].1)
            &&& t1@.len() == t2@.len()
            &&& forall|k: int| 0 <= k < t1@.len() ==> attr_eq(#[trigger] t1@[k], #[trigger] t2@[k])
        },
        (Attribute::StackMapTable(f1), Attribute::StackMapTable(f2)) => f1@.len() == f2@.len()
            && forall|k: int|
            0 <= k < f1@.len() ==> frame_eq(#[trigger] f1@[k], #[trigger] f2@[k]),
        (
            Attribute::Exceptions { exception_index_table: t1 },
            Attribute::Exceptions { exception_index_table: t2 },
        ) => t1@ == t2@,
        (
            Attribute::InnerClasses { classes: c1 },
            Attribute::InnerClasses { classes: c2 },
        ) => c1@ == c2@,
        (Attribute::SourceDebugExtension(d1), Attribute::SourceDebugExtension(d2)) => d1@ == d2@,
        (Attribute::LineNumberTable(t1), Attribute::LineNumberTable(t2)) => t1@ == t2@,
        (Attribute::LocalVariableTable(t1), Attribute::LocalVariableTable(t2)) => t1@ == t2@,
        (Attribute::LocalVariableTypeTable(t1), Attribute::LocalVariableTypeTable(t2)) => t1@
            == t2@,
        (
            Attribute::RuntimeVisibleAnnotations(a1),
            Attribute::RuntimeVisibleAnnotations(a2),
        ) => a1@.len() == a2@.len() && forall|k: int|
            0 <= k < a1@.len() ==> ann_eq(#[trigger] a1@[k], #[trigger] a2@[k]),
        (
            Attribute::RuntimeInvisibleAnnotations(a1),
            Attribute::RuntimeInvisibleAnnotations(a2),
        ) => a1@.len() == a2@.len() && forall|k: int|
            0 <= k < a1@.len() ==> ann_eq(#[trigger] a1@[k], #[trigger] a2@[k]),
        (
            Attribute::RuntimeVisibleParameterAnnotations(g1),
            Attribute::RuntimeVisibleParameterAnnotations(g2),
        ) => g1@.len() == g2@.len() && forall|k: int|
            0 <= k < g1@.len() ==> ann_group_eq(#[trigger] g1@[k], #[trigger] g2@[k]),
        (
            Attribute::RuntimeInvisibleParameterAnnotations(g1),
            Attribute::RuntimeInvisibleParameterAnnotations(g2),
        ) => g1@.len() == g2@.len() && forall|k: int|
            0 <= k < g1@.len() ==> ann_group_eq(#[trigger] g1@[k], #[trigger] g2@[k]),
        (
            Attribute::RuntimeVisibleTypeAnnotations(t1),
            Attribute::RuntimeVisibleTypeAnnotations(t2),
        ) => t1@.len() == t2@.len() && forall|k: int|
            0 <= k < t1@.len() ==> tann_eq(#[trigger] t1@[k], #[trigger] t2@[k]),
        (
            Attribute::RuntimeInvisibleTypeAnnotations(t1),
            Attribute::RuntimeInvisibleTypeAnnotations(t2),
        ) => t1@.len() == t2@.len() && forall|k: int|
            0 <= k < t1@.len() ==> tann_eq(#[trigger] t1@[k], #[trigger] t2@[k]),
        (
            Attribute::AnnotationDefault { element_value: v1 },
            Attribute::AnnotationDefault { element_value: v2 },
        ) => ev_eq(v1, v2),
        (Attribute::BootstrapMethods(m1), Attribute::BootstrapMethods(m2)) => m1@.len()
            == m2@.len() && forall|k: int|
            0 <= k < m1@.len() ==> bsm_eq(#[trigger] m1@[k], #[trigger] m2@[k]),
        (Attribute::MethodParameters(p1), Attribute::MethodParameters(p2)) => p1@ == p2@,
        (Attribute::Unknown(d1), Attribute::Unknown(d2)) => d1@ == d2@,
        _ => a1 == a2,
    }
}

/// Structural equality of field-table entries.
pub open spec fn field_eq(f1: Field, f2: Field) -> bool {
    &&& f1.access_flags == f2.access_flags
    &&& f1.name_index == f2.name_index
    &&& f1.descriptor_index == f2.descriptor_index
    &&& f1.attributes@.len() == f2.attributes@.len()
    &&& forall|k: int|
        0 <= k < f1.attributes@.len() ==> attr_eq(
            #[trigger] f1.attributes@[k],
            #[trigger] f2.attributes@[k],
        )
}

/// Structural equality of method-table entries.
pub open spec fn method_eq(m1: Method, m2: Method) -> bool {
    &&& m1.access_flags == m2.access_flags
    &&& m1.name_index == m2.name_index
    &&& m1.descriptor_index == m2.descriptor_index
    &&& m1.attributes@.len() == m2.attributes@.len()
    &&& forall|k: int|
        0 <= k < m1.attributes@.len() ==> attr_eq(
            #[trigger] m1.attributes@[k],
            #[trigger] m2.attributes@[k],
        )
}

/// Structural equality of whole decoded classes: every field equal, every
/// list compared by its abstract contents, recursively.
pub open spec fn class_eq(c1: Class, c2: Class) -> bool {
    &&& c1.magic == c2.magic
    &&& c1.minor_version == c2.minor_version
    &&& c1.major_version == c2.major_version
    &&& c1.access_flags == c2.access_flags
    &&& c1.this_class == c2.this_class
    &&& c1.super_class == c2.super_class
    &&& c1.interfaces@ == c2.interfaces@
    &&& c1.constant_pool@.len() == c2.constant_pool@.len()
    &&& forall|k: int|
        0 <= k < c1.constant_pool@.len() ==> cp_eq(
            #[trigger] c1.constant_pool@[k],
            #[trigger] c2.constant_pool@[k],
        )
    &&& c1.fields@.len() == c2.fields@.len()
    &&& forall|k: int|
        0 <= k < c1.fields@.len() ==> field_eq(#[trigger] c1.fields@[k], #[trigger] c2.fields@[k])
    &&& c1.methods@.len() == c2.methods@.len()
    &&& forall|k: int|
        0 <= k < c1.methods@.len() ==> method_eq(
            #[trigger] c1.methods@[k],
            #[trigger] c2.methods@[k],
        )
    &&& c1.attributes@.len() == c2.attributes@.len()
    &&& forall|k: int|
        0 <= k < c1.attributes@.len() ==> attr_eq(
            #[trigger] c1.attributes@[k],
            #[trigger] c2.attributes@[k],
        )
}

/// Two sequences the grammar assigns to the same range, with the same
/// element count, agree: same end position and equal elements.
pub proof fn lemma_span_vts_det(b: Seq<u8>, lo: int, hi1: int, hi2: int, s1: Seq<VerificationType>, s2: Seq<VerificationType>)
    requires
        span_vts(b, lo, hi1, s1),
        span_vts(b, lo, hi2, s2),
        s1.len() == s2.len(),
    ensures
        hi1 == hi2,
        s1 == s2,
    decreases b.len() - lo, 1int,
{
    if s1.len() == 0 {
        assert(s1 =~= s2);
    } else {
        let m1 = choose|m: int|
            lo < m <= b.len() && #[trigger] vtype_at(b, lo, Ok((s1[0], m)))
                && span_vts(b, m, hi1, s1.drop_first());
        let m2 = choose|m: int|
            lo < m <= b.len() && #[trigger] vtype_at(b, lo, Ok((s2[0], m)))
                && span_vts(b, m, hi2, s2.drop_first());
        lemma_vtype_at_det(b, lo, Ok((s1[0], m1)), Ok((s2[0], m2)));
        lemma_span_vts_det(b, m1, hi1, hi2, s1.drop_first(), s2.drop_first());
        assert(s1 =~= s2) by {
            assert forall|k: int| 0 <= k < s1.len() implies s1[k] == s2[k] by {
                if k >= 1 {
                    assert(s1[k] == s1.drop_first()[k - 1]);
                    assert(s2[k] == s2.drop_first()[k - 1]);
                }
            }
        }
    }
}

/// A range that decodes to exactly `n` elements cannot also fail within
/// its first `n` elements.
pub proof fn lemma_span_vts_excl_fails(b: Seq<u8>, lo: int, hi: int, s: Seq<VerificationType>, n: int, e: ParseError)
    requires
        span_vts(b, lo, hi, s),
        s.len() == n,
    ensures
        !fails_vts(b, lo, n, e),
    decreases b.len() - lo, 1int,
{
    if fails_vts(b, lo, n, e) {
        let m = choose|m: int|
            lo < m <= b.len() && #[trigger] vtype_at(b, lo, Ok((s[0], m)))
                && span_vts(b, m, hi, s.drop_first());
        if vtype_at(b, lo, Err(e)) {
            lemma_vtype_at_det(b, lo, Ok((s[0], m)), Err(e));
        } else {
            let (el2, m2) = choose|el: VerificationType, m: int|
                lo < m <= b.len() && #[trigger] vtype_at(b, lo, Ok((el, m)))
                    && fails_vts(b, m, n - 1, e);
            lemma_vtype_at_det(b, lo, Ok((s[0], m)), Ok((el2, m2)));
            lemma_span_vts_excl_fails(b, m, hi, s.drop_first(), n - 1, e);
        }
    }
}

/// Failing within `n` elements is deterministic: the error is unique.
pub proof fn lemma_fails_vts_det(b: Seq<u8>, pos: int, n: int, e1: ParseError, e2: ParseError)
    requires
        fails_vts(b, pos, n, e1),
        fails_vts(b, pos, n, e2),
    ensures
        e1 == e2,
    decreases b.len() - pos, 1int,
{
    if vtype_at(b, pos, Err(e1)) {
        if vtype_at(b, pos, Err(e2)) {
            lemma_vtype_at_det(b, pos, Err(e1), Err(e2));
        } else {
            let (el2, m2) = choose|el: VerificationType, m: int|
                pos < m <= b.len() && #[trigger] vtype_at(b, pos, Ok((el, m)))
                    && fails_vts(b, m, n - 1, e2);
            lemma_vtype_at_det(b, pos, Err(e1), Ok((el2, m2)));
        }
    } else {
        let (el1, m1) = choose|el: VerificationType, m: int|
                pos < m <= b.len() && #[trigger] vtype_at(b, pos, Ok((el, m)))
                    && fails_vts(b, m, n - 1, e1);
        if vtype_at(b, pos, Err(e2)) {
            lemma_vtype_at_det(b, pos, Ok((el1, m1)), Err(e2));
        } else {
            let (el2, m2) = choose|el: VerificationType, m: int|
                pos < m <= b.len() && #[trigger] vtype_at(b, pos, Ok((el, m)))
                    && fails_vts(b, m, n - 1, e2);
            lemma_vtype_at_det(b, pos, Ok((el1, m1)), Ok((el2, m2)));
            lemma_fails_vts_det(b, m1, n - 1, e1, e2);
        }
    }
}


/// Two sequences the grammar assigns to the same range, with the same
/// element count, agree: same end position and equal elements.
pub proof fn lemma_span_path_elems_det(b: Seq<u8>, lo: int, hi1: int, hi2: int, s1: Seq<PathElement>, s2: Seq<PathElement>)
    requires
        span_path_elems(b, lo, hi1, s1),
        span_path_elems(b, lo, hi2, s2),
        s1.len() == s2.len(),
    ensures
        hi1 == hi2,
        s1 == s2,
    decreases b.len() - lo, 1int,
{
    if s1.len() == 0 {
        assert(s1 =~= s2);
    } else {
        let m1 = choose|m: int|
            lo < m <= b.len() && #[trigger] path_element_at(b, lo, Ok((s1[0], m)))
                && span_path_elems(b, m, hi1, s1.drop_first());
        let m2 = choose|m: int|
            lo < m <= b.len() && #[trigger] path_element_at(b, lo, Ok((s2[0], m)))
                && span_path_elems(b, m, hi2, s2.drop_first());
        lemma_path_element_at_det(b, lo, Ok((s1[0], m1)), Ok((s2[0], m2)));
        lemma_span_path_elems_det(b, m1, hi1, hi2, s1.drop_first(), s2.drop_first());
        assert(s1 =~= s2) by {
            assert forall|k: int| 0 <= k < s1.len() implies s1[k] == s2[k] by {
                if k >= 1 {
                    assert(s1[k] == s1.drop_first()[k - 1]);
                    assert(s2[k] == s2.drop_first()[k - 1]);
                }
            }
        }
    }
}

/// A range that decodes to exactly `n` elements cannot also fail within
/// its first `n` elements.
pub proof fn lemma_span_path_elems_excl_fails(b: Seq<u8>, lo: int, hi: int, s: Seq<PathElement>, n: int, e: ParseError)
    requires
        span_path_elems(b, lo, hi, s),
        s.len() == n,
    ensures
        !fails_path_elems(b, lo, n, e),
    decreases b.len() - lo, 1int,
{
    if fails_path_elems(b, lo, n, e) {
        let m = choose|m: int|
            lo < m <= b.len() && #[trigger] path_element_at(b, lo, Ok((s[0], m)))
                && span_path_elems(b, m, hi, s.drop_first());
        if path_element_at(b, lo, Err(e)) {
            lemma_path_element_at_det(b, lo, Ok((s[0], m)), Err(e));
        } else {
            let (el2, m2) = choose|el: PathElement, m: int|
                lo < m <= b.len() && #[trigger] path_element_at(b, lo, Ok((el, m)))
                    && fails_path_elems(b, m, n - 1, e);
            lemma_path_element_at_det(b, lo, Ok((s[0], m)), Ok((el2, m2)));
            lemma_span_path_elems_excl_fails(b, m, hi, s.drop_first(), n - 1, e);
        }
    }
}

/// Failing within `n` elements is deterministic: the error is unique.
pub proof fn lemma_fails_path_elems_det(b: Seq<u8>, pos: int, n: int, e1: ParseError, e2: ParseError)
    requires
        fails_path_elems(b, pos, n, e1),
        fails_path_elems(b, pos, n, e2),
    ensures
        e1 == e2,
    decreases b.len() - pos, 1int,
{
    if path_element_at(b, pos, Err(e1)) {
        if path_element_at(b, pos, Err(e2)) {
            lemma_path_element_at_det(b, pos, Err(e1), Err(e2));
        } else {
            let (el2, m2) = choose|el: PathElement, m: int|
                pos < m <= b.len() && #[trigger] path_element_at(b, pos, Ok((el, m)))
                    && fails_path_elems(b, m, n - 1, e2);
            lemma_path_element_at_det(b, pos, Err(e1), Ok((el2, m2)));
        }
    } else {
        let (el1, m1) = choose|el: PathElement, m: int|
                pos < m <= b.len() && #[trigger] path_element_at(b, pos, Ok((el, m)))
                    && fails_path_elems(b, m, n - 1, e1);
        if path_element_at(b, pos, Err(e2)) {
            lemma_path_element_at_det(b, pos, Ok((el1, m1)), Err(e2));
        } else {
            let (el2, m2) = choose|el: PathElement, m: int|
                pos < m <= b.len() && #[trigger] path_element_at(b, pos, Ok((el, m)))
                    && fails_path_elems(b, m, n - 1, e2);
            lemma_path_element_at_det(b, pos, Ok((el1, m1)), Ok((el2, m2)));
            lemma_fails_path_elems_det(b, m1, n - 1, e1, e2);
        }
    }
}


/// Two sequences the grammar assigns to the same range, with the same
/// element count, agree: same end position and structurally equal elements.
pub proof fn lemma_span_frames_det(b: Seq<u8>, lo: int, hi1: int, hi2: int, s1: Seq<StackMapFrame>, s2: Seq<StackMapFrame>)
    requires
        span_frames(b, lo, hi1, s1),
        span_frames(b, lo, hi2, s2),
        s1.len() == s2.len(),
    ensures
        hi1 == hi2,
        forall|k: int|
            0 <= k < s1.len() ==> frame_eq(#[trigger] s1[k], #[trigger] s2[k]),
    decreases b.len() - lo, 1int,
{
    if s1.len() == 0 {
        assert(s1 =~= s2);
    } else {
        let m1 = choose|m: int|
            lo < m <= b.len() && #[trigger] frame_at(b, lo, Ok((s1[0], m)))
                && span_frames(b, m, hi1, s1.drop_first());
        let m2 = choose|m: int|
            lo < m <= b.len() && #[trigger] frame_at(b, lo, Ok((s2[0], m)))
                && span_frames(b, m, hi2, s2.drop_first());
        lemma_frame_at_det(b, lo, Ok((s1[0], m1)), Ok((s2[0], m2)));
        lemma_span_frames_det(b, m1, hi1, hi2, s1.drop_first(), s2.drop_first());
        assert forall|k: int|
            0 <= k < s1.len() implies frame_eq(#[trigger] s1[k], #[trigger] s2[k]) by {
            if k >= 1 {
                assert(s1[k] == s1.drop_first()[k - 1]);
                assert(s2[k] == s2.drop_first()[k - 1]);
            }
        }
    }
}

/// A range that decodes to exactly `n` elements cannot also fail within
/// its first `n` elements.
pub proof fn lemma_span_frames_excl_fails(b: Seq<u8>, lo: int, hi: int, s: Seq<StackMapFrame>, n: int, e: ParseError)
    requires
        span_frames(b, lo, hi, s),
        s.len() == n,
    ensures
        !fails_frames(b, lo, n, e),
    decreases b.len() - lo, 1int,
{
    if fails_frames(b, lo, n, e) {
        let m = choose|m: int|
            lo < m <= b.len() && #[trigger] frame_at(b, lo, Ok((s[0], m)))
                && span_frames(b, m, hi, s.drop_first());
        if frame_at(b, lo, Err(e)) {
            lemma_frame_at_det(b, lo, Ok((s[0], m)), Err(e));
        } else {
            let (el2, m2) = choose|el: StackMapFrame, m: int|
                lo < m <= b.len() && #[trigger] frame_at(b, lo, Ok((el, m)))
                    && fails_frames(b, m, n - 1, e);
            lemma_frame_at_det(b, lo, Ok((s[0], m)), Ok((el2, m2)));
            lemma_span_frames_excl_fails(b, m, hi, s.drop_first(), n - 1, e);
        }
    }
}

/// Failing within `n` elements is deterministic: the error is unique.
pub proof fn lemma_fails_frames_det(b: Seq<u8>, pos: int, n: int, e1: ParseError, e2: ParseError)
    requires
        fails_frames(b, pos, n, e1),
        fails_frames(b, pos, n, e2),
    ensures
        e1 == e2,
    decreases b.len() - pos, 1int,
{
    if frame_at(b, pos, Err(e1)) {
        if frame_at(b, pos, Err(e2)) {
            lemma_frame_at_det(b, pos, Err(e1), Err(e2));
        } else {
            let (el2, m2) = choose|el: StackMapFrame, m: int|
                pos < m <= b.len() && #[trigger] frame_at(b, pos, Ok((el, m)))
                    && fails_frames(b, m, n - 1, e2);
            lemma_frame_at_det(b, pos, Err(e1), Ok((el2, m2)));
        }
    } else {
        let (el1, m1) = choose|el: StackMapFrame, m: int|
                pos < m <= b.len() && #[trigger] frame_at(b, pos, Ok((el, m)))
                    && fails_frames(b, m, n - 1, e1);
        if frame_at(b, pos, Err(e2)) {
            lemma_frame_at_det(b, pos, Ok((el1, m1)), Err(e2));
        } else {
            let (el2, m2) = choose|el: StackMapFrame, m: int|
                pos < m <= b.len() && #[trigger] frame_at(b, pos, Ok((el, m)))
                    && fails_frames(b, m, n - 1, e2);
            lemma_frame_at_det(b, pos, Ok((el1, m1)), Ok((el2, m2)));
            lemma_fails_frames_det(b, m1, n - 1, e1, e2);
        }
    }
}


/// Two sequences the grammar assigns to the same range, with the same
/// element count, agree: same end position and structurally equal elements.
pub proof fn lemma_span_anns_det(b: Seq<u8>, lo: int, hi1: int, hi2: int, s1: Seq<Annotation>, s2: Seq<Annotation>)
    requires
        span_anns(b, lo, hi1, s1),
        span_anns(b, lo, hi2, s2),
        s1.len() == s2.len(),
    ensures
        hi1 == hi2,
        forall|k: int|
            0 <= k < s1.len() ==> ann_eq(#[trigger] s1[k], #[trigger] s2[k]),
    decreases b.len() - lo, 1int,
{
    if s1.len() == 0 {
        assert(s1 =~= s2);
    } else {
        let m1 = choose|m: int|
            #[trigger] boundary(lo, m) && lo < m <= b.len() && annotation_at(b, lo, Ok((s1[0], m)))
                && span_anns(b, m, hi1, s1.drop_first());
        let m2 = choose|m: int|
            #[trigger] boundary(lo, m) && lo < m <= b.len() && annotation_at(b, lo, Ok((s2[0], m)))
                && span_anns(b, m, hi2, s2.drop_first());
        lemma_annotation_at_det(b, lo, Ok((s1[0], m1)), Ok((s2[0], m2)));
        lemma_span_anns_det(b, m1, hi1, hi2, s1.drop_first(), s2.drop_first());
        assert forall|k: int|
            0 <= k < s1.len() implies ann_eq(#[trigger] s1[k], #[trigger] s2[k]) by {
            if k >= 1 {
                assert(s1[k] == s1.drop_first()[k - 1]);
                assert(s2[k] == s2.drop_first()[k - 1]);
            }
        }
    }
}

/// A range that decodes to exactly `n` elements cannot also fail within
/// its first `n` elements.
pub proof fn lemma_span_anns_excl_fails(b: Seq<u8>, lo: int, hi: int, s: Seq<Annotation>, n: int, e: ParseError)
    requires
        span_anns(b, lo, hi, s),
        s.len() == n,
    ensures
        !fails_anns(b, lo, n, e),
    decreases b.len() - lo, 1int,
{
    if fails_anns(b, lo, n, e) {
        let m = choose|m: int|
            #[trigger] boundary(lo, m) && lo < m <= b.len() && annotation_at(b, lo, Ok((s[0], m)))
                && span_anns(b, m, hi, s.drop_first());
        if annotation_at(b, lo, Err(e)) {
            lemma_annotation_at_det(b, lo, Ok((s[0], m)), Err(e));
        } else {
            let (el2, m2) = choose|el: Annotation, m: int|
                #[trigger] step_to(el, m) && lo < m <= b.len() && annotation_at(b, lo, Ok((el,
                    m))) && fails_anns(b, m, n - 1, e);
            lemma_annotation_at_det(b, lo, Ok((s[0], m)), Ok((el2, m2)));
            lemma_span_anns_excl_fails(b, m, hi, s.drop_first(), n - 1, e);
        }
    }
}

/// Failing within `n` elements is deterministic: the error is unique.
pub proof fn lemma_fails_anns_det(b: Seq<u8>, pos: int, n: int, e1: ParseError, e2: ParseError)
    requires
        fails_anns(b, pos, n, e1),
        fails_anns(b, pos, n, e2),
    ensures
        e1 == e2,
    decreases b.len() - pos, 1int,
{
    if annotation_at(b, pos, Err(e1)) {
        if annotation_at(b, pos, Err(e2)) {
            lemma_annotation_at_det(b, pos, Err(e1), Err(e2));
        } else {
            let (el2, m2) = choose|el: Annotation, m: int|
                #[trigger] step_to(el, m) && pos < m <= b.len() && annotation_at(b, pos, Ok((el,
                    m))) && fails_anns(b, m, n - 1, e2);
            lemma_annotation_at_det(b, pos, Err(e1), Ok((el2, m2)));
        }
    } else {
        let (el1, m1) = choose|el: Annotation, m: int|
                #[trigger] step_to(el, m) && pos < m <= b.len() && annotation_at(b, pos, Ok((el,
                    m))) && fails_anns(b, m, n - 1, e1);
        if annotation_at(b, pos, Err(e2)) {
            lemma_annotation_at_det(b, pos, Ok((el1, m1)), Err(e2));
        } else {
            let (el2, m2) = choose|el: Annotation, m: int|
                #[trigger] step_to(el, m) && pos < m <= b.len() && annotation_at(b, pos, Ok((el,
                    m))) && fails_anns(b, m, n - 1, e2);
            lemma_annotation_at_det(b, pos, Ok((el1, m1)), Ok((el2, m2)));
            lemma_fails_anns_det(b, m1, n - 1, e1, e2);
        }
    }
}


/// Two sequences the grammar assigns to the same range, with the same
/// element count, agree: same end position and structurally equal elements.
pub proof fn lemma_span_ann_groups_det(b: Seq<u8>, lo: int, hi1: int, hi2: int, s1: Seq<Vec<Annotation>>, s2: Seq<Vec<Annotation>>)
    requires
        span_ann_groups(b, lo, hi1, s1),
        span_ann_groups(b, lo, hi2, s2),
        s1.len() == s2.len(),
    ensures
        hi1 == hi2,
        forall|k: int|
            0 <= k < s1.len() ==> ann_group_eq(#[trigger] s1[k], #[trigger] s2[k]),
    decreases b.len() - lo, 1int,
{
    if s1.len() == 0 {
        assert(s1 =~= s2);
    } else {
        let m1 = choose|m: int|
            lo < m <= b.len() && #[trigger] ann_group_at(b, lo, Ok((s1[0], m)))
                && span_ann_groups(b, m, hi1, s1.drop_first());
        let m2 = choose|m: int|
            lo < m <= b.len() && #[trigger] ann_group_at(b, lo, Ok((s2[0], m)))
                && span_ann_groups(b, m, hi2, s2.drop_first());
        lemma_ann_group_at_det(b, lo, Ok((s1[0], m1)), Ok((s2[0], m2)));
        lemma_span_ann_groups_det(b, m1, hi1, hi2, s1.drop_first(), s2.drop_first());
        assert forall|k: int|
            0 <= k < s1.len() implies ann_group_eq(#[trigger] s1[k], #[trigger] s2[k]) by {
            if k >= 1 {
                assert(s1[k] == s1.drop_first()[k - 1]);
                assert(s2[k] == s2.drop_first()[k - 1]);
            }
        }
    }
}

/// A range that decodes to exactly `n` elements cannot also fail within
/// its first `n` elements.
pub proof fn lemma_span_ann_groups_excl_fails(b: Seq<u8>, lo: int, hi: int, s: Seq<Vec<Annotation>>, n: int, e: ParseError)
    requires
        span_ann_groups(b, lo, hi, s),
        s.len() == n,
    ensures
        !fails_ann_groups(b, lo, n, e),
    decreases b.len() - lo, 1int,
{
    if fails_ann_groups(b, lo, n, e) {
        let m = choose|m: int|
            lo < m <= b.len() && #[trigger] ann_group_at(b, lo, Ok((s[0], m)))
                && span_ann_groups(b, m, hi, s.drop_first());
        if ann_group_at(b, lo, Err(e)) {
            lemma_ann_group_at_det(b, lo, Ok((s[0], m)), Err(e));
        } else {
            let (el2, m2) = choose|el: Vec<Annotation>, m: int|
                lo < m <= b.len() && #[trigger] ann_group_at(b, lo, Ok((el, m)))
                    && fails_ann_groups(b, m, n - 1, e);
            lemma_ann_group_at_det(b, lo, Ok((s[0], m)), Ok((el2, m2)));
            lemma_span_ann_groups_excl_fails(b, m, hi, s.drop_first(), n - 1, e);
        }
    }
}

/// Failing within `n` elements is deterministic: the error is unique.
pub proof fn lemma_fails_ann_groups_det(b: Seq<u8>, pos: int, n: int, e1: ParseError, e2: ParseError)
    requires
        fails_ann_groups(b, pos, n, e1),
        fails_ann_groups(b, pos, n, e2),
    ensures
        e1 == e2,
    decreases b.len() - pos, 1int,
{
    if ann_group_at(b, pos, Err(e1)) {
        if ann_group_at(b, pos, Err(e2)) {
            lemma_ann_group_at_det(b, pos, Err(e1), Err(e2));
        } else {
            let (el2, m2) = choose|el: Vec<Annotation>, m: int|
                pos < m <= b.len() && #[trigger] ann_group_at(b, pos, Ok((el, m)))
                    && fails_ann_groups(b, m, n - 1, e2);
            lemma_ann_group_at_det(b, pos, Err(e1), Ok((el2, m2)));
        }
    } else {
        let (el1, m1) = choose|el: Vec<Annotation>, m: int|
                pos < m <= b.len() && #[trigger] ann_group_at(b, pos, Ok((el, m)))
                    && fails_ann_groups(b, m, n - 1, e1);
        if ann_group_at(b, pos, Err(e2)) {
            lemma_ann_group_at_det(b, pos, Ok((el1, m1)), Err(e2));
        } else {
            let (el2, m2) = choose|el: Vec<Annotation>, m: int|
                pos < m <= b.len() && #[trigger] ann_group_at(b, pos, Ok((el, m)))
                    && fails_ann_groups(b, m, n - 1, e2);
            lemma_ann_group_at_det(b, pos, Ok((el1, m1)), Ok((el2, m2)));
            lemma_fails_ann_groups_det(b, m1, n - 1, e1, e2);
        }
    }
}


/// Two sequences the grammar assigns to the same range, with the same
/// element count, agree: same end position and structurally equal elements.
pub proof fn lemma_span_evps_det(b: Seq<u8>, lo: int, hi1: int, hi2: int, s1: Seq<ElementValuePair>, s2: Seq<ElementValuePair>)
    requires
        span_evps(b, lo, hi1, s1),
        span_evps(b, lo, hi2, s2),
        s1.len() == s2.len(),
    ensures
        hi1 == hi2,
        forall|k: int|
            0 <= k < s1.len() ==> evp_eq(#[trigger] s1[k], #[trigger] s2[k]),
    decreases b.len() - lo, 1int,
{
    if s1.len() == 0 {
        assert(s1 =~= s2);
    } else {
        let m1 = choose|m: int|
            #[trigger] boundary(lo, m) && lo < m <= b.len() && evpair_at(b, lo, Ok((s1[0], m)))
                && span_evps(b, m, hi1, s1.drop_first());
        let m2 = choose|m: int|
            #[trigger] boundary(lo, m) && lo < m <= b.len() && evpair_at(b, lo, Ok((s2[0], m)))
                && span_evps(b, m, hi2, s2.drop_first());
        lemma_evpair_at_det(b, lo, Ok((s1[0], m1)), Ok((s2[0], m2)));
        lemma_span_evps_det(b, m1, hi1, hi2, s1.drop_first(), s2.drop_first());
        assert forall|k: int|
            0 <= k < s1.len() implies evp_eq(#[trigger] s1[k], #[trigger] s2[k]) by {
            if k >= 1 {
                assert(s1[k] == s1.drop_first()[k - 1]);
                assert(s2[k] == s2.drop_first()[k - 1]);
            }
        }
    }
}

/// A range that decodes to exactly `n` elements cannot also fail within
/// its first `n` elements.
pub proof fn lemma_span_evps_excl_fails(b: Seq<u8>, lo: int, hi: int, s: Seq<ElementValuePair>, n: int, e: ParseError)
    requires
        span_evps(b, lo, hi, s),
        s.len() == n,
    ensures
        !fails_evps(b, lo, n, e),
    decreases b.len() - lo, 1int,
{
    if fails_evps(b, lo, n, e) {
        let m = choose|m: int|
            #[trigger] boundary(lo, m) && lo < m <= b.len() && evpair_at(b, lo, Ok((s[0], m)))
                && span_evps(b, m, hi, s.drop_first());
        if evpair_at(b, lo, Err(e)) {
            lemma_evpair_at_det(b, lo, Ok((s[0], m)), Err(e));
        } else {
            let (el2, m2) = choose|el: ElementValuePair, m: int|
                #[trigger] step_to(el, m) && lo < m <= b.len() && evpair_at(b, lo, Ok((el,
                    m))) && fails_evps(b, m, n - 1, e);
            lemma_evpair_at_det(b, lo, Ok((s[0], m)), Ok((el2, m2)));
            lemma_span_evps_excl_fails(b, m, hi, s.drop_first(), n - 1, e);
        }
    }
}

/// Failing within `n` elements is deterministic: the error is unique.
pub proof fn lemma_fails_evps_det(b: Seq<u8>, pos: int, n: int, e1: ParseError, e2: ParseError)
    requires
        fails_evps(b, pos, n, e1),
        fails_evps(b, pos, n, e2),
    ensures
        e1 == e2,
    decreases b.len() - pos, 1int,
{
    if evpair_at(b, pos, Err(e1)) {
        if evpair_at(b, pos, Err(e2)) {
            lemma_evpair_at_det(b, pos, Err(e1), Err(e2));
        } else {
            let (el2, m2) = choose|el: ElementValuePair, m: int|
                #[trigger] step_to(el, m) && pos < m <= b.len() && evpair_at(b, pos, Ok((el,
                    m))) && fails_evps(b, m, n - 1, e2);
            lemma_evpair_at_det(b, pos, Err(e1), Ok((el2, m2)));
        }
    } else {
        let (el1, m1) = choose|el: ElementValuePair, m: int|
                #[trigger] step_to(el, m) && pos < m <= b.len() && evpair_at(b, pos, Ok((el,
                    m))) && fails_evps(b, m, n - 1, e1);
        if evpair_at(b, pos, Err(e2)) {
            lemma_evpair_at_det(b, pos, Ok((el1, m1)), Err(e2));
        } else {
            let (el2, m2) = choose|el: ElementValuePair, m: int|
                #[trigger] step_to(el, m) && pos < m <= b.len() && evpair_at(b, pos, Ok((el,
                    m))) && fails_evps(b, m, n - 1, e2);
            lemma_evpair_at_det(b, pos, Ok((el1, m1)), Ok((el2, m2)));
            lemma_fails_evps_det(b, m1, n - 1, e1, e2);
        }
    }
}


/// Two sequences the grammar assigns to the same range, with the same
/// element count, agree: same end position and structurally equal elements.
pub proof fn lemma_span_evs_det(b: Seq<u8>, lo: int, hi1: int, hi2: int, s1: Seq<ElementValue>, s2: Seq<ElementValue>)
    requires
        span_evs(b, lo, hi1, s1),
        span_evs(b, lo, hi2, s2),
        s1.len() == s2.len(),
    ensures
        hi1 == hi2,
        forall|k: int|
            0 <= k < s1.len() ==> ev_eq(#[trigger] s1[k], #[trigger] s2[k]),
    decreases b.len() - lo, 1int,
{
    if s1.len() == 0 {
        assert(s1 =~= s2);
    } else {
        let m1 = choose|m: int|
            #[trigger] boundary(lo, m) && lo < m <= b.len() && element_value_at(b, lo, Ok((s1[0], m)))
                && span_evs(b, m, hi1, s1.drop_first());
        let m2 = choose|m: int|
            #[trigger] boundary(lo, m) && lo < m <= b.len() && element_value_at(b, lo, Ok((s2[0], m)))
                && span_evs(b, m, hi2, s2.drop_first());
        lemma_element_value_at_det(b, lo, Ok((s1[0], m1)), Ok((s2[0], m2)));
        lemma_span_evs_det(b, m1, hi1, hi2, s1.drop_first(), s2.drop_first());
        assert forall|k: int|
            0 <= k < s1.len() implies ev_eq(#[trigger] s1[k], #[trigger] s2[k]) by {
            if k >= 1 {
                assert(s1[k] == s1.drop_first()[k - 1]);
                assert(s2[k] == s2.drop_first()[k - 1]);
            }
        }
    }
}

/// A range that decodes to exactly `n` elements cannot also fail within
/// its first `n` elements.
pub proof fn lemma_span_evs_excl_fails(b: Seq<u8>, lo: int, hi: int, s: Seq<ElementValue>, n: int, e: ParseError)
    requires
        span_evs(b, lo, hi, s),
        s.len() == n,
    ensures
        !fails_evs(b, lo, n, e),
    decreases b.len() - lo, 1int,
{
    if fails_evs(b, lo, n, e) {
        let m = choose|m: int|
            #[trigger] boundary(lo, m) && lo < m <= b.len() && element_value_at(b, lo, Ok((s[0], m)))
                && span_evs(b, m, hi, s.drop_first());
        if element_value_at(b, lo, Err(e)) {
            lemma_element_value_at_det(b, lo, Ok((s[0], m)), Err(e));
        } else {
            let (el2, m2) = choose|el: ElementValue, m: int|
                #[trigger] step_to(el, m) && lo < m <= b.len() && element_value_at(b, lo, Ok((el,
                    m))) && fails_evs(b, m, n - 1, e);
            lemma_element_value_at_det(b, lo, Ok((s[0], m)), Ok((el2, m2)));
            lemma_span_evs_excl_fails(b, m, hi, s.drop_first(), n - 1, e);
        }
    }
}

/// Failing within `n` elements is deterministic: the error is unique.
pub proof fn lemma_fails_evs_det(b: Seq<u8>, pos: int, n: int, e1: ParseError, e2: ParseError)
    requires
        fails_evs(b, pos, n, e1),
        fails_evs(b, pos, n, e2),
    ensures
        e1 == e2,
    decreases b.len() - pos, 1int,
{
    if element_value_at(b, pos, Err(e1)) {
        if element_value_at(b, pos, Err(e2)) {
            lemma_element_value_at_det(b, pos, Err(e1), Err(e2));
        } else {
            let (el2, m2) = choose|el: ElementValue, m: int|
                #[trigger] step_to(el, m) && pos < m <= b.len() && element_value_at(b, pos, Ok((el,
                    m))) && fails_evs(b, m, n - 1, e2);
            lemma_element_value_at_det(b, pos, Err(e1), Ok((el2, m2)));
        }
    } else {
        let (el1, m1) = choose|el: ElementValue, m: int|
                #[trigger] step_to(el, m) && pos < m <= b.len() && element_value_at(b, pos, Ok((el,
                    m))) && fails_evs(b, m, n - 1, e1);
        if element_value_at(b, pos, Err(e2)) {
            lemma_element_value_at_det(b, pos, Ok((el1, m1)), Err(e2));
        } else {
            let (el2, m2) = choose|el: ElementValue, m: int|
                #[trigger] step_to(el, m) && pos < m <= b.len() && element_value_at(b, pos, Ok((el,
                    m))) && fails_evs(b, m, n - 1, e2);
            lemma_element_value_at_det(b, pos, Ok((el1, m1)), Ok((el2, m2)));
            lemma_fails_evs_det(b, m1, n - 1, e1, e2);
        }
    }
}


/// Two sequences the grammar assigns to the same range, with the same
/// element count, agree: same end position and structurally equal elements.
pub proof fn lemma_span_tanns_det(b: Seq<u8>, lo: int, hi1: int, hi2: int, s1: Seq<TypeAnnotation>, s2: Seq<TypeAnnotation>)
    requires
        span_tanns(b, lo, hi1, s1),
        span_tanns(b, lo, hi2, s2),
        s1.len() == s2.len(),
    ensures
        hi1 == hi2,
        forall|k: int|
            0 <= k < s1.len() ==> tann_eq(#[trigger] s1[k], #[trigger] s2[k]),
    decreases b.len() - lo, 1int,
{
    if s1.len() == 0 {
        assert(s1 =~= s2);
    } else {
        let m1 = choose|m: int|
            lo < m <= b.len() && #[trigger] type_annotation_at(b, lo, Ok((s1[0], m)))
                && span_tanns(b, m, hi1, s1.drop_first());
        let m2 = choose|m: int|
            lo < m <= b.len() && #[trigger] type_annotation_at(b, lo, Ok((s2[0], m)))
                && span_tanns(b, m, hi2, s2.drop_first());
        lemma_type_annotation_at_det(b, lo, Ok((s1[0], m1)), Ok((s2[0], m2)));
        lemma_span_tanns_det(b, m1, hi1, hi2, s1.drop_first(), s2.drop_first());
        assert forall|k: int|
            0 <= k < s1.len() implies tann_eq(#[trigger] s1[k], #[trigger] s2[k]) by {
            if k >= 1 {
                assert(s1[k] == s1.drop_first()[k - 1]);
                assert(s2[k] == s2.drop_first()[k - 1]);
            }
        }
    }
}

/// A range that decodes to exactly `n` elements cannot also fail within
/// its first `n` elements.
pub proof fn lemma_span_tanns_excl_fails(b: Seq<u8>, lo: int, hi: int, s: Seq<TypeAnnotation>, n: int, e: ParseError)
    requires
        span_tanns(b, lo, hi, s),
        s.len() == n,
    ensures
        !fails_tanns(b, lo, n, e),
    decreases b.len() - lo, 1int,
{
    if fails_tanns(b, lo, n, e) {
        let m = choose|m: int|
            lo < m <= b.len() && #[trigger] type_annotation_at(b, lo, Ok((s[0], m)))
                && span_tanns(b, m, hi, s.drop_first());
        if type_annotation_at(b, lo, Err(e)) {
            lemma_type_annotation_at_det(b, lo, Ok((s[0], m)), Err(e));
        } else {
            let (el2, m2) = choose|el: TypeAnnotation, m: int|
                lo < m <= b.len() && #[trigger] type_annotation_at(b, lo, Ok((el, m)))
                    && fails_tanns(b, m, n - 1, e);
            lemma_type_annotation_at_det(b, lo, Ok((s[0], m)), Ok((el2, m2)));
            lemma_span_tanns_excl_fails(b, m, hi, s.drop_first(), n - 1, e);
        }
    }
}

/// Failing within `n` elements is deterministic: the error is unique.
pub proof fn lemma_fails_tanns_det(b: Seq<u8>, pos: int, n: int, e1: ParseError, e2: ParseError)
    requires
        fails_tanns(b, pos, n, e1),
        fails_tanns(b, pos, n, e2),
    ensures
        e1 == e2,
    decreases b.len() - pos, 1int,
{
    if type_annotation_at(b, pos, Err(e1)) {
        if type_annotation_at(b, pos, Err(e2)) {
            lemma_type_annotation_at_det(b, pos, Err(e1), Err(e2));
        } else {
            let (el2, m2) = choose|el: TypeAnnotation, m: int|
                pos < m <= b.len() && #[trigger] type_annotation_at(b, pos, Ok((el, m)))
                    && fails_tanns(b, m, n - 1, e2);
            lemma_type_annotation_at_det(b, pos, Err(e1), Ok((el2, m2)));
        }
    } else {
        let (el1, m1) = choose|el: TypeAnnotation, m: int|
                pos < m <= b.len() && #[trigger] type_annotation_at(b, pos, Ok((el, m)))
                    && fails_tanns(b, m, n - 1, e1);
        if type_annotation_at(b, pos, Err(e2)) {
            lemma_type_annotation_at_det(b, pos, Ok((el1, m1)), Err(e2));
        } else {
            let (el2, m2) = choose|el: TypeAnnotation, m: int|
                pos < m <= b.len() && #[trigger] type_annotation_at(b, pos, Ok((el, m)))
                    && fails_tanns(b, m, n - 1, e2);
            lemma_type_annotation_at_det(b, pos, Ok((el1, m1)), Ok((el2, m2)));
            lemma_fails_tanns_det(b, m1, n - 1, e1, e2);
        }
    }
}


/// Two sequences the grammar assigns to the same range, with the same
/// element count, agree: same end position and structurally equal elements.
pub proof fn lemma_span_bsms_det(b: Seq<u8>, lo: int, hi1: int, hi2: int, s1: Seq<BootstrapMethod>, s2: Seq<BootstrapMethod>)
    requires
        span_bsms(b, lo, hi1, s1),
        span_bsms(b, lo, hi2, s2),
        s1.len() == s2.len(),
    ensures
        hi1 == hi2,
        forall|k: int|
            0 <= k < s1.len() ==> bsm_eq(#[trigger] s1[k], #[trigger] s2[k]),
    decreases b.len() - lo, 1int,
{
    if s1.len() == 0 {
        assert(s1 =~= s2);
    } else {
        let m1 = choose|m: int|
            lo < m <= b.len() && #[trigger] bootstrap_method_at(b, lo, Ok((s1[0], m)))
                && span_bsms(b, m, hi1, s1.drop_first());
        let m2 = choose|m: int|
            lo < m <= b.len() && #[trigger] bootstrap_method_at(b, lo, Ok((s2[0], m)))
                && span_bsms(b, m, hi2, s2.drop_first());
        lemma_bootstrap_method_at_det(b, lo, Ok((s1[0], m1)), Ok((s2[0], m2)));
        lemma_span_bsms_det(b, m1, hi1, hi2, s1.drop_first(), s2.drop_first());
        assert forall|k: int|
            0 <= k < s1.len() implies bsm_eq(#[trigger] s1[k], #[trigger] s2[k]) by {
            if k >= 1 {
                assert(s1[k] == s1.drop_first()[k - 1]);
                assert(s2[k] == s2.drop_first()[k - 1]);
            }
        }
    }
}

/// A range that decodes to exactly `n` elements cannot also fail within
/// its first `n` elements.
pub proof fn lemma_span_bsms_excl_fails(b: Seq<u8>, lo: int, hi: int, s: Seq<BootstrapMethod>, n: int, e: ParseError)
    requires
        span_bsms(b, lo, hi, s),
        s.len() == n,
    ensures
        !fails_bsms(b, lo, n, e),
    decreases b.len() - lo, 1int,
{
    if fails_bsms(b, lo, n, e) {
        let m = choose|m: int|
            lo < m <= b.len() && #[trigger] bootstrap_method_at(b, lo, Ok((s[0], m)))
                && span_bsms(b, m, hi, s.drop_first());
        if bootstrap_method_at(b, lo, Err(e)) {
            lemma_bootstrap_method_at_det(b, lo, Ok((s[0], m)), Err(e));
        } else {
            let (el2, m2) = choose|el: BootstrapMethod, m: int|
                lo < m <= b.len() && #[trigger] bootstrap_method_at(b, lo, Ok((el, m)))
                    && fails_bsms(b, m, n - 1, e);
            lemma_bootstrap_method_at_det(b, lo, Ok((s[0], m)), Ok((el2, m2)));
            lemma_span_bsms_excl_fails(b, m, hi, s.drop_first(), n - 1, e);
        }
    }
}

/// Failing within `n` elements is deterministic: the error is unique.
pub proof fn lemma_fails_bsms_det(b: Seq<u8>, pos: int, n: int, e1: ParseError, e2: ParseError)
    requires
        fails_bsms(b, pos, n, e1),
        fails_bsms(b, pos, n, e2),
    ensures
        e1 == e2,
    decreases b.len() - pos, 1int,
{
    if bootstrap_method_at(b, pos, Err(e1)) {
        if bootstrap_method_at(b, pos, Err(e2)) {
            lemma_bootstrap_method_at_det(b, pos, Err(e1), Err(e2));
        } else {
            let (el2, m2) = choose|el: BootstrapMethod, m: int|
                pos < m <= b.len() && #[trigger] bootstrap_method_at(b, pos, Ok((el, m)))
                    && fails_bsms(b, m, n - 1, e2);
            lemma_bootstrap_method_at_det(b, pos, Err(e1), Ok((el2, m2)));
        }
    } else {
        let (el1, m1) = choose|el: BootstrapMethod, m: int|
                pos < m <= b.len() && #[trigger] bootstrap_method_at(b, pos, Ok((el, m)))
                    && fails_bsms(b, m, n - 1, e1);
        if bootstrap_method_at(b, pos, Err(e2)) {
            lemma_bootstrap_method_at_det(b, pos, Ok((el1, m1)), Err(e2));
        } else {
            let (el2, m2) = choose|el: BootstrapMethod, m: int|
                pos < m <= b.len() && #[trigger] bootstrap_method_at(b, pos, Ok((el, m)))
                    && fails_bsms(b, m, n - 1, e2);
            lemma_bootstrap_method_at_det(b, pos, Ok((el1, m1)), Ok((el2, m2)));
            lemma_fails_bsms_det(b, m1, n - 1, e1, e2);
        }
    }
}


/// Two sequences the grammar assigns to the same range (under structurally
/// equal pools), with the same element count, agree: same end position and
/// structurally equal elements.
pub proof fn lemma_span_attrs_det(
    b: Seq<u8>,
    pool1: Seq<ConstantPoolInfo>,
    pool2: Seq<ConstantPoolInfo>,
    lo: int,
    hi1: int,
    hi2: int,
    s1: Seq<Attribute>,
    s2: Seq<Attribute>,
)
    requires
        lo >= 0,
        pools_eq(pool1, pool2),
        span_attrs(b, pool1, lo, hi1, s1),
        span_attrs(b, pool2, lo, hi2, s2),
        s1.len() == s2.len(),
    ensures
        hi1 == hi2,
        forall|k: int|
            0 <= k < s1.len() ==> attr_eq(#[trigger] s1[k], #[trigger] s2[k]),
    decreases b.len() - lo, 1int,
{
    if s1.len() == 0 {
        assert(s1 =~= s2);
    } else {
        let m1 = choose|m: int|
            #[trigger] boundary(lo, m) && lo < m <= b.len() && attribute_at(b, pool1, lo, Ok((s1[0],
                m))) && span_attrs(b, pool1, m, hi1, s1.drop_first());
        let m2 = choose|m: int|
            #[trigger] boundary(lo, m) && lo < m <= b.len() && attribute_at(b, pool2, lo, Ok((s2[0],
                m))) && span_attrs(b, pool2, m, hi2, s2.drop_first());
        lemma_attribute_at_det(b, pool1, pool2, lo, Ok((s1[0], m1)), Ok((s2[0], m2)));
        lemma_span_attrs_det(b, pool1, pool2, m1, hi1, hi2, s1.drop_first(), s2.drop_first());
        assert forall|k: int|
            0 <= k < s1.len() implies attr_eq(#[trigger] s1[k], #[trigger] s2[k]) by {
            if k >= 1 {
                assert(s1[k] == s1.drop_first()[k - 1]);
                assert(s2[k] == s2.drop_first()[k - 1]);
            }
        }
    }
}

/// A range that decodes to exactly `n` elements cannot also fail within its
/// first `n` elements, under structurally equal pools.
pub proof fn lemma_span_attrs_excl_fails(
    b: Seq<u8>,
    pool1: Seq<ConstantPoolInfo>,
    pool2: Seq<ConstantPoolInfo>,
    lo: int,
    hi: int,
    s: Seq<Attribute>,
    n: int,
    e: ParseError,
)
    requires
        lo >= 0,
        pools_eq(pool1, pool2),
        span_attrs(b, pool1, lo, hi, s),
        s.len() == n,
    ensures
        !fails_attrs(b, pool2, lo, n, e),
    decreases b.len() - lo, 1int,
{
    if fails_attrs(b, pool2, lo, n, e) {
        let m = choose|m: int|
            #[trigger] boundary(lo, m) && lo < m <= b.len() && attribute_at(b, pool1, lo, Ok((s[0],
                m))) && span_attrs(b, pool1, m, hi, s.drop_first());
        if attribute_at(b, pool2, lo, Err(e)) {
            lemma_attribute_at_det(b, pool1, pool2, lo, Ok((s[0], m)), Err(e));
        } else {
            let (el2, m2) = choose|el: Attribute, m: int|
                #[trigger] step_to(el, m) && lo < m <= b.len() && attribute_at(b, pool2,
                    lo, Ok((el, m))) && fails_attrs(b, pool2, m, n - 1, e);
            lemma_attribute_at_det(b, pool1, pool2, lo, Ok((s[0], m)), Ok((el2, m2)));
            lemma_span_attrs_excl_fails(b, pool1, pool2, m, hi, s.drop_first(), n - 1, e);
        }
    }
}

/// Failing within `n` elements is deterministic under structurally equal
/// pools: the error is unique.
pub proof fn lemma_fails_attrs_det(
    b: Seq<u8>,
    pool1: Seq<ConstantPoolInfo>,
    pool2: Seq<ConstantPoolInfo>,
    pos: int,
    n: int,
    e1: ParseError,
    e2: ParseError,
)
    requires
        pos >= 0,
        pools_eq(pool1, pool2),
        fails_attrs(b, pool1, pos, n, e1),
        fails_attrs(b, pool2, pos, n, e2),
    ensures
        e1 == e2,
    decreases b.len() - pos, 1int,
{
    if attribute_at(b, pool1, pos, Err(e1)) {
        if attribute_at(b, pool2, pos, Err(e2)) {
            lemma_attribute_at_det(b, pool1, pool2, pos, Err(e1), Err(e2));
        } else {
            let (el2, m2) = choose|el: Attribute, m: int|
                #[trigger] step_to(el, m) && pos < m <= b.len() && attribute_at(b, pool2,
                    pos, Ok((el, m))) && fails_attrs(b, pool2, m, n - 1, e2);
            lemma_attribute_at_det(b, pool1, pool2, pos, Err(e1), Ok((el2, m2)));
        }
    } else {
        let (el1, m1) = choose|el: Attribute, m: int|
                #[trigger] step_to(el, m) && pos < m <= b.len() && attribute_at(b, pool1,
                    pos, Ok((el, m))) && fails_attrs(b, pool1, m, n - 1, e1);
        if attribute_at(b, pool2, pos, Err(e2)) {
            lemma_attribute_at_det(b, pool1, pool2, pos, Ok((el1, m1)), Err(e2));
        } else {
            let (el2, m2) = choose|el: Attribute, m: int|
                #[trigger] step_to(el, m) && pos < m <= b.len() && attribute_at(b, pool2,
                    pos, Ok((el, m))) && fails_attrs(b, pool2, m, n - 1, e2);
            lemma_attribute_at_det(b, pool1, pool2, pos, Ok((el1, m1)), Ok((el2, m2)));
            lemma_fails_attrs_det(b, pool1, pool2, m1, n - 1, e1, e2);
        }
    }
}


/// Two sequences the grammar assigns to the same range (under structurally
/// equal pools), with the same element count, agree: same end position and
/// structurally equal elements.
pub proof fn lemma_span_fields_det(
    b: Seq<u8>,
    pool1: Seq<ConstantPoolInfo>,
    pool2: Seq<ConstantPoolInfo>,
    lo: int,
    hi1: int,
    hi2: int,
    s1: Seq<Field>,
    s2: Seq<Field>,
)
    requires
        lo >= 0,
        pools_eq(pool1, pool2),
        span_fields(b, pool1, lo, hi1, s1),
        span_fields(b, pool2, lo, hi2, s2),
        s1.len() == s2.len(),
    ensures
        hi1 == hi2,
        forall|k: int|
            0 <= k < s1.len() ==> field_eq(#[trigger] s1[k], #[trigger] s2[k]),
    decreases b.len() - lo, 1int,
{
    if s1.len() == 0 {
        assert(s1 =~= s2);
    } else {
        let m1 = choose|m: int|
            lo < m <= b.len() && #[trigger] field_at(b, pool1, lo, Ok((s1[0], m)))
                && span_fields(b, pool1, m, hi1, s1.drop_first());
        let m2 = choose|m: int|
            lo < m <= b.len() && #[trigger] field_at(b, pool2, lo, Ok((s2[0], m)))
                && span_fields(b, pool2, m, hi2, s2.drop_first());
        lemma_field_at_det(b, pool1, pool2, lo, Ok((s1[0], m1)), Ok((s2[0], m2)));
        lemma_span_fields_det(b, pool1, pool2, m1, hi1, hi2, s1.drop_first(), s2.drop_first());
        assert forall|k: int|
            0 <= k < s1.len() implies field_eq(#[trigger] s1[k], #[trigger] s2[k]) by {
            if k >= 1 {
                assert(s1[k] == s1.drop_first()[k - 1]);
                assert(s2[k] == s2.drop_first()[k - 1]);
            }
        }
    }
}

/// A range that decodes to exactly `n` elements cannot also fail within its
/// first `n` elements, under structurally equal pools.
pub proof fn lemma_span_fields_excl_fails(
    b: Seq<u8>,
    pool1: Seq<ConstantPoolInfo>,
    pool2: Seq<ConstantPoolInfo>,
    lo: int,
    hi: int,
    s: Seq<Field>,
    n: int,
    e: ParseError,
)
    requires
        lo >= 0,
        pools_eq(pool1, pool2),
        span_fields(b, pool1, lo, hi, s),
        s.len() == n,
    ensures
        !fails_fields(b, pool2, lo, n, e),
    decreases b.len() - lo, 1int,
{
    if fails_fields(b, pool2, lo, n, e) {
        let m = choose|m: int|
            lo < m <= b.len() && #[trigger] field_at(b, pool1, lo, Ok((s[0], m)))
                && span_fields(b, pool1, m, hi, s.drop_first());
        if field_at(b, pool2, lo, Err(e)) {
            lemma_field_at_det(b, pool1, pool2, lo, Ok((s[0], m)), Err(e));
        } else {
            let (el2, m2) = choose|el: Field, m: int|
                lo < m <= b.len() && #[trigger] field_at(b, pool2, lo, Ok((el, m)))
                    && fails_fields(b, pool2, m, n - 1, e);
            lemma_field_at_det(b, pool1, pool2, lo, Ok((s[0], m)), Ok((el2, m2)));
            lemma_span_fields_excl_fails(b, pool1, pool2, m, hi, s.drop_first(), n - 1, e);
        }
    }
}

/// Failing within `n` elements is deterministic under structurally equal
/// pools: the error is unique.
pub proof fn lemma_fails_fields_det(
    b: Seq<u8>,
    pool1: Seq<ConstantPoolInfo>,
    pool2: Seq<ConstantPoolInfo>,
    pos: int,
    n: int,
    e1: ParseError,
    e2: ParseError,
)
    requires
        pos >= 0,
        pools_eq(pool1, pool2),
        fails_fields(b, pool1, pos, n, e1),
        fails_fields(b, pool2, pos, n, e2),
    ensures
        e1 == e2,
    decreases b.len() - pos, 1int,
{
    if field_at(b, pool1, pos, Err(e1)) {
        if field_at(b, pool2, pos, Err(e2)) {
            lemma_field_at_det(b, pool1, pool2, pos, Err(e1), Err(e2));
        } else {
            let (el2, m2) = choose|el: Field, m: int|
                pos < m <= b.len() && #[trigger] field_at(b, pool2, pos, Ok((el, m)))
                    && fails_fields(b, pool2, m, n - 1, e2);
            lemma_field_at_det(b, pool1, pool2, pos, Err(e1), Ok((el2, m2)));
        }
    } else {
        let (el1, m1) = choose|el: Field, m: int|
                pos < m <= b.len() && #[trigger] field_at(b, pool1, pos, Ok((el, m)))
                    && fails_fields(b, pool1, m, n - 1, e1);
        if field_at(b, pool2, pos, Err(e2)) {
            lemma_field_at_det(b, pool1, pool2, pos, Ok((el1, m1)), Err(e2));
        } else {
            let (el2, m2) = choose|el: Field, m: int|
                pos < m <= b.len() && #[trigger] field_at(b, pool2, pos, Ok((el, m)))
                    && fails_fields(b, pool2, m, n - 1, e2);
            lemma_field_at_det(b, pool1, pool2, pos, Ok((el1, m1)), Ok((el2, m2)));
            lemma_fails_fields_det(b, pool1, pool2, m1, n - 1, e1, e2);
        }
    }
}


/// Two sequences the grammar assigns to the same range (under structurally
/// equal pools), with the same element count, agree: same end position and
/// structurally equal elements.
pub proof fn lemma_span_methods_det(
    b: Seq<u8>,
    pool1: Seq<ConstantPoolInfo>,
    pool2: Seq<ConstantPoolInfo>,
    lo: int,
    hi1: int,
    hi2: int,
    s1: Seq<Method>,
    s2: Seq<Method>,
)
    requires
        lo >= 0,
        pools_eq(pool1, pool2),
        span_methods(b, pool1, lo, hi1, s1),
        span_methods(b, pool2, lo, hi2, s2),
        s1.len() == s2.len(),
    ensures
        hi1 == hi2,
        forall|k: int|
            0 <= k < s1.len() ==> method_eq(#[trigger] s1[k], #[trigger] s2[k]),
    decreases b.len() - lo, 1int,
{
    if s1.len() == 0 {
        assert(s1 =~= s2);
    } else {
        let m1 = choose|m: int|
            lo < m <= b.len() && #[trigger] method_at(b, pool1, lo, Ok((s1[0], m)))
                && span_methods(b, pool1, m, hi1, s1.drop_first());
        let m2 = choose|m: int|
            lo < m <= b.len() && #[trigger] method_at(b, pool2, lo, Ok((s2[0], m)))
                && span_methods(b, pool2, m, hi2, s2.drop_first());
        lemma_method_at_det(b, pool1, pool2, lo, Ok((s1[0], m1)), Ok((s2[0], m2)));
        lemma_span_methods_det(b, pool1, pool2, m1, hi1, hi2, s1.drop_first(), s2.drop_first());
        assert forall|k: int|
            0 <= k < s1.len() implies method_eq(#[trigger] s1[k], #[trigger] s2[k]) by {
            if k >= 1 {
                assert(s1[k] == s1.drop_first()[k - 1]);
                assert(s2[k] == s2.drop_first()[k - 1]);
            }
        }
    }
}

/// A range that decodes to exactly `n` elements cannot also fail within its
/// first `n` elements, under structurally equal pools.
pub proof fn lemma_span_methods_excl_fails(
    b: Seq<u8>,
    pool1: Seq<ConstantPoolInfo>,
    pool2: Seq<ConstantPoolInfo>,
    lo: int,
    hi: int,
    s: Seq<Method>,
    n: int,
    e: ParseError,
)
    requires
        lo >= 0,
        pools_eq(pool1, pool2),
        span_methods(b, pool1, lo, hi, s),
        s.len() == n,
    ensures
        !fails_methods(b, pool2, lo, n, e),
    decreases b.len() - lo, 1int,
{
    if fails_methods(b, pool2, lo, n, e) {
        let m = choose|m: int|
            lo < m <= b.len() && #[trigger] method_at(b, pool1, lo, Ok((s[0], m)))
                && span_methods(b, pool1, m, hi, s.drop_first());
        if method_at(b, pool2, lo, Err(e)) {
            lemma_method_at_det(b, pool1, pool2, lo, Ok((s[0], m)), Err(e));
        } else {
            let (el2, m2) = choose|el: Method, m: int|
                lo < m <= b.len() && #[trigger] method_at(b, pool2, lo, Ok((el, m)))
                    && fails_methods(b, pool2, m, n - 1, e);
            lemma_method_at_det(b, pool1, pool2, lo, Ok((s[0], m)), Ok((el2, m2)));
            lemma_span_methods_excl_fails(b, pool1, pool2, m, hi, s.drop_first(), n - 1, e);
        }
    }
}

/// Failing within `n` elements is deterministic under structurally equal
/// pools: the error is unique.
pub proof fn lemma_fails_methods_det(
    b: Seq<u8>,
    pool1: Seq<ConstantPoolInfo>,
    pool2: Seq<ConstantPoolInfo>,
    pos: int,
    n: int,
    e1: ParseError,
    e2: ParseError,
)
    requires
        pos >= 0,
        pools_eq(pool1, pool2),
        fails_methods(b, pool1, pos, n, e1),
        fails_methods(b, pool2, pos, n, e2),
    ensures
        e1 == e2,
    decreases b.len() - pos, 1int,
{
    if method_at(b, pool1, pos, Err(e1)) {
        if method_at(b, pool2, pos, Err(e2)) {
            lemma_method_at_det(b, pool1, pool2, pos, Err(e1), Err(e2));
        } else {
            let (el2, m2) = choose|el: Method, m: int|
                pos < m <= b.len() && #[trigger] method_at(b, pool2, pos, Ok((el, m)))
                    && fails_methods(b, pool2, m, n - 1, e2);
            lemma_method_at_det(b, pool1, pool2, pos, Err(e1), Ok((el2, m2)));
        }
    } else {
        let (el1, m1) = choose|el: Method, m: int|
                pos < m <= b.len() && #[trigger] method_at(b, pool1, pos, Ok((el, m)))
                    && fails_methods(b, pool1, m, n - 1, e1);
        if method_at(b, pool2, pos, Err(e2)) {
            lemma_method_at_det(b, pool1, pool2, pos, Ok((el1, m1)), Err(e2));
        } else {
            let (el2, m2) = choose|el: Method, m: int|
                pos < m <= b.len() && #[trigger] method_at(b, pool2, pos, Ok((el, m)))
                    && fails_methods(b, pool2, m, n - 1, e2);
            lemma_method_at_det(b, pool1, pool2, pos, Ok((el1, m1)), Ok((el2, m2)));
            lemma_fails_methods_det(b, pool1, pool2, m1, n - 1, e1, e2);
        }
    }
}

/// Decoding one verification type is deterministic.
pub proof fn lemma_vtype_at_det(
    b: Seq<u8>,
    pos: int,
    o1: Result<(VerificationType, int), ParseError>,
    o2: Result<(VerificationType, int), ParseError>,
)
    requires
        vtype_at(b, pos, o1),
        vtype_at(b, pos, o2),
    ensures
        match (o1, o2) {
            (Ok((v1, m1)), Ok((v2, m2))) => m1 == m2 && v1 == v2,
            (Err(x), Err(y)) => x == y,
            _ => false,
        },
{
}

/// Decoding one type-path step is deterministic.
pub proof fn lemma_path_element_at_det(
    b: Seq<u8>,
    pos: int,
    o1: Result<(PathElement, int), ParseError>,
    o2: Result<(PathElement, int), ParseError>,
)
    requires
        path_element_at(b, pos, o1),
        path_element_at(b, pos, o2),
    ensures
        match (o1, o2) {
            (Ok((v1, m1)), Ok((v2, m2))) => m1 == m2 && v1 == v2,
            (Err(x), Err(y)) => x == y,
            _ => false,
        },
{
}

/// Decoding one target-info payload is deterministic.
pub proof fn lemma_target_info_at_det(
    b: Seq<u8>,
    tag: u8,
    pos: int,
    o1: Result<(TargetInfo, int), ParseError>,
    o2: Result<(TargetInfo, int), ParseError>,
)
    requires
        target_info_at(b, tag, pos, o1),
        target_info_at(b, tag, pos, o2),
    ensures
        match (o1, o2) {
            (Ok((v1, m1)), Ok((v2, m2))) => m1 == m2 && tinfo_eq(v1, v2),
            (Err(x), Err(y)) => x == y,
            _ => false,
        },
{
    match (o1, o2) {
        (Ok((v1, m1)), Ok((v2, m2))) => {
            match (v1, v2) {
                (TargetInfo::Localvar(t1), TargetInfo::Localvar(t2)) => {
                    assert(t1@ =~= t2@);
                },
                _ => {},
            }
        },
        _ => {},
    }
}

/// Decoding one bootstrap-method record is deterministic.
pub proof fn lemma_bootstrap_method_at_det(
    b: Seq<u8>,
    pos: int,
    o1: Result<(BootstrapMethod, int), ParseError>,
    o2: Result<(BootstrapMethod, int), ParseError>,
)
    requires
        bootstrap_method_at(b, pos, o1),
        bootstrap_method_at(b, pos, o2),
    ensures
        match (o1, o2) {
            (Ok((v1, m1)), Ok((v2, m2))) => m1 == m2 && bsm_eq(v1, v2),
            (Err(x), Err(y)) => x == y,
            _ => false,
        },
{
    match (o1, o2) {
        (Ok((v1, m1)), Ok((v2, m2))) => {
            assert(v1.arguments@ =~= v2.arguments@);
        },
        _ => {},
    }
}

/// Decoding one stack-map frame is deterministic.
pub proof fn lemma_frame_at_det(
    b: Seq<u8>,
    pos: int,
    o1: Result<(StackMapFrame, int), ParseError>,
    o2: Result<(StackMapFrame, int), ParseError>,
)
    requires
        frame_at(b, pos, o1),
        frame_at(b, pos, o2),
    ensures
        match (o1, o2) {
            (Ok((f1, m1)), Ok((f2, m2))) => m1 == m2 && frame_eq(f1, f2),
            (Err(x), Err(y)) => x == y,
            _ => false,
        },
{
    if pos + 1 > b.len() {
        return ;
    }
    let ft = b[pos];
    if 64 <= ft && ft <= 127 {
        match (o1, o2) {
            (Ok((f1, m1)), Ok((f2, m2))) => {
                match (f1, f2) {
                    (
                        StackMapFrame::SameLocals1StackItemFrame(v1),
                        StackMapFrame::SameLocals1StackItemFrame(v2),
                    ) => {
                        lemma_vtype_at_det(b, pos + 1, Ok((v1, m1)), Ok((v2, m2)));
                    },
                    _ => {},
                }
            },
            (Ok((f1, m1)), Err(e2)) => {
                match f1 {
                    StackMapFrame::SameLocals1StackItemFrame(v1) => {
                        lemma_vtype_at_det(b, pos + 1, Ok((v1, m1)), Err(e2));
                    },
                    _ => {},
                }
            },
            (Err(e1), Ok((f2, m2))) => {
                match f2 {
                    StackMapFrame::SameLocals1StackItemFrame(v2) => {
                        lemma_vtype_at_det(b, pos + 1, Err(e1), Ok((v2, m2)));
                    },
                    _ => {},
                }
            },
            (Err(e1), Err(e2)) => {
                lemma_vtype_at_det(b, pos + 1, Err(e1), Err(e2));
            },
        }
    } else if ft == 247 && pos + 3 <= b.len() {
        match (o1, o2) {
            (Ok((f1, m1)), Ok((f2, m2))) => {
                match (f1, f2) {
                    (
                        StackMapFrame::SameLocals1StackItemFrameExtended { stack: v1, .. },
                        StackMapFrame::SameLocals1StackItemFrameExtended { stack: v2, .. },
                    ) => {
                        lemma_vtype_at_det(b, pos + 3, Ok((v1, m1)), Ok((v2, m2)));
                    },
                    _ => {},
                }
            },
            (Ok((f1, m1)), Err(e2)) => {
                match f1 {
                    StackMapFrame::SameLocals1StackItemFrameExtended { stack: v1, .. } => {
                        lemma_vtype_at_det(b, pos + 3, Ok((v1, m1)), Err(e2));
                    },
                    _ => {},
                }
            },
            (Err(e1), Ok((f2, m2))) => {
                match f2 {
                    StackMapFrame::SameLocals1StackItemFrameExtended { stack: v2, .. } => {
                        lemma_vtype_at_det(b, pos + 3, Err(e1), Ok((v2, m2)));
                    },
                    _ => {},
                }
            },
            (Err(e1), Err(e2)) => {
                lemma_vtype_at_det(b, pos + 3, Err(e1), Err(e2));
            },
        }
    } else if 252 <= ft && ft <= 254 && pos + 3 <= b.len() {
        let n: int = ft - 251;
        match (o1, o2) {
            (Ok((f1, m1)), Ok((f2, m2))) => {
                match (f1, f2) {
                    (
                        StackMapFrame::AppendFrame { locals: l1, .. },
                        StackMapFrame::AppendFrame { locals: l2, .. },
                    ) => {
                        lemma_span_vts_det(b, pos + 3, m1, m2, l1@, l2@);
                    },
                    _ => {},
                }
            },
            (Ok((f1, m1)), Err(e2)) => {
                match f1 {
                    StackMapFrame::AppendFrame { locals: l1, .. } => {
                        lemma_span_vts_excl_fails(b, pos + 3, m1, l1@, n, e2);
                    },
                    _ => {},
                }
            },
            (Err(e1), Ok((f2, m2))) => {
                match f2 {
                    StackMapFrame::AppendFrame { locals: l2, .. } => {
                        lemma_span_vts_excl_fails(b, pos + 3, m2, l2@, n, e1);
                    },
                    _ => {},
                }
            },
            (Err(e1), Err(e2)) => {
                lemma_fails_vts_det(b, pos + 3, n, e1, e2);
            },
        }
    } else if ft == 255 && pos + 5 <= b.len() {
        let nl = be_u16(b, pos + 3);
        match (o1, o2) {
            (Ok((f1, m1)), Ok((f2, m2))) => {
                match (f1, f2) {
                    (
                        StackMapFrame::FullFrame { locals: l1, stack: t1, .. },
                        StackMapFrame::FullFrame { locals: l2, stack: t2, .. },
                    ) => {
                        let q1 = choose|mid: int|
                            #[trigger] boundary(pos, mid) && pos + 5 <= mid && mid + 2 <= b.len()
                                && span_vts(b, pos + 5, mid, l1@) && t1@.len() == be_u16(b, mid)
                                && span_vts(b, mid + 2, m1, t1@);
                        let q2 = choose|mid: int|
                            #[trigger] boundary(pos, mid) && pos + 5 <= mid && mid + 2 <= b.len()
                                && span_vts(b, pos + 5, mid, l2@) && t2@.len() == be_u16(b, mid)
                                && span_vts(b, mid + 2, m2, t2@);
                        lemma_span_vts_det(b, pos + 5, q1, q2, l1@, l2@);
                        lemma_span_vts_det(b, q1 + 2, m1, m2, t1@, t2@);
                    },
                    _ => {},
                }
            },
            (Ok((f1, m1)), Err(e2)) => {
                match f1 {
                    StackMapFrame::FullFrame { locals: l1, stack: t1, .. } => {
                        let q1 = choose|mid: int|
                            #[trigger] boundary(pos, mid) && pos + 5 <= mid && mid + 2 <= b.len()
                                && span_vts(b, pos + 5, mid, l1@) && t1@.len() == be_u16(b, mid)
                                && span_vts(b, mid + 2, m1, t1@);
                        if fails_vts(b, pos + 5, nl, e2) {
                            lemma_span_vts_excl_fails(b, pos + 5, q1, l1@, nl, e2);
                        } else {
                            let (ls, q2) = choose|ls: Seq<VerificationType>, mid: int|
                                #[trigger] step_to(ls, mid) && pos + 5 <= mid <= b.len()
                                    && ls.len() == nl && span_vts(b, pos + 5, mid, ls) && (if mid
                                    + 2 > b.len() {
                                    e2 == ParseError::Io
                                } else {
                                    fails_vts(b, mid + 2, be_u16(b, mid), e2)
                                });
                            lemma_span_vts_det(b, pos + 5, q1, q2, l1@, ls);
                            lemma_span_vts_excl_fails(b, q1 + 2, m1, t1@, be_u16(b, q1), e2);
                        }
                    },
                    _ => {},
                }
            },
            (Err(e1), Ok((f2, m2))) => {
                match f2 {
                    StackMapFrame::FullFrame { locals: l2, stack: t2, .. } => {
                        let q2 = choose|mid: int|
                            #[trigger] boundary(pos, mid) && pos + 5 <= mid && mid + 2 <= b.len()
                                && span_vts(b, pos + 5, mid, l2@) && t2@.len() == be_u16(b, mid)
                                && span_vts(b, mid + 2, m2, t2@);
                        if fails_vts(b, pos + 5, nl, e1) {
                            lemma_span_vts_excl_fails(b, pos + 5, q2, l2@, nl, e1);
                        } else {
                            let (ls, q1) = choose|ls: Seq<VerificationType>, mid: int|
                                #[trigger] step_to(ls, mid) && pos + 5 <= mid <= b.len()
                                    && ls.len() == nl && span_vts(b, pos + 5, mid, ls) && (if mid
                                    + 2 > b.len() {
                                    e1 == ParseError::Io
                                } else {
                                    fails_vts(b, mid + 2, be_u16(b, mid), e1)
                                });
                            lemma_span_vts_det(b, pos + 5, q2, q1, l2@, ls);
                            lemma_span_vts_excl_fails(b, q2 + 2, m2, t2@, be_u16(b, q2), e1);
                        }
                    },
                    _ => {},
                }
            },
            (Err(e1), Err(e2)) => {
                if fails_vts(b, pos + 5, nl, e1) && fails_vts(b, pos + 5, nl, e2) {
                    lemma_fails_vts_det(b, pos + 5, nl, e1, e2);
                } else if fails_vts(b, pos + 5, nl, e1) {
                    let (ls, q2) = choose|ls: Seq<VerificationType>, mid: int|
                        #[trigger] step_to(ls, mid) && pos + 5 <= mid <= b.len() && ls.len() == nl
                            && span_vts(b, pos + 5, mid, ls) && (if mid + 2 > b.len() {
                            e2 == ParseError::Io
                        } else {
                            fails_vts(b, mid + 2, be_u16(b, mid), e2)
                        });
                    lemma_span_vts_excl_fails(b, pos + 5, q2, ls, nl, e1);
                } else if fails_vts(b, pos + 5, nl, e2) {
                    let (ls, q1) = choose|ls: Seq<VerificationType>, mid: int|
                        #[trigger] step_to(ls, mid) && pos + 5 <= mid <= b.len() && ls.len() == nl
                            && span_vts(b, pos + 5, mid, ls) && (if mid + 2 > b.len() {
                            e1 == ParseError::Io
                        } else {
                            fails_vts(b, mid + 2, be_u16(b, mid), e1)
                        });
                    lemma_span_vts_excl_fails(b, pos + 5, q1, ls, nl, e2);
                } else {
                    let (ls1, q1) = choose|ls: Seq<VerificationType>, mid: int|
                        #[trigger] step_to(ls, mid) && pos + 5 <= mid <= b.len() && ls.len() == nl
                            && span_vts(b, pos + 5, mid, ls) && (if mid + 2 > b.len() {
                            e1 == ParseError::Io
                        } else {
                            fails_vts(b, mid + 2, be_u16(b, mid), e1)
                        });
                    let (ls2, q2) = choose|ls: Seq<VerificationType>, mid: int|
                        #[trigger] step_to(ls, mid) && pos + 5 <= mid <= b.len() && ls.len() == nl
                            && span_vts(b, pos + 5, mid, ls) && (if mid + 2 > b.len() {
                            e2 == ParseError::Io
                        } else {
                            fails_vts(b, mid + 2, be_u16(b, mid), e2)
                        });
                    lemma_span_vts_det(b, pos + 5, q1, q2, ls1, ls2);
                    if q1 + 2 <= b.len() {
                        lemma_fails_vts_det(b, q1 + 2, be_u16(b, q1), e1, e2);
                    }
                }
            },
        }
    }
}

/// Decoding one annotation is deterministic.
pub proof fn lemma_annotation_at_det(
    b: Seq<u8>,
    pos: int,
    o1: Result<(Annotation, int), ParseError>,
    o2: Result<(Annotation, int), ParseError>,
)
    requires
        annotation_at(b, pos, o1),
        annotation_at(b, pos, o2),
    ensures
        match (o1, o2) {
            (Ok((v1, m1)), Ok((v2, m2))) => m1 == m2 && ann_eq(v1, v2),
            (Err(x), Err(y)) => x == y,
            _ => false,
        },
    decreases b.len() - pos, 0int,
{
    if pos + 4 > b.len() {
        return ;
    }
    let n = be_u16(b, pos + 2);
    match (o1, o2) {
        (Ok((v1, m1)), Ok((v2, m2))) => {
            lemma_span_evps_det(b, pos + 4, m1, m2, v1.element_value_pairs@,
                v2.element_value_pairs@);
        },
        (Ok((v1, m1)), Err(e2)) => {
            lemma_span_evps_excl_fails(b, pos + 4, m1, v1.element_value_pairs@, n, e2);
        },
        (Err(e1), Ok((v2, m2))) => {
            lemma_span_evps_excl_fails(b, pos + 4, m2, v2.element_value_pairs@, n, e1);
        },
        (Err(e1), Err(e2)) => {
            lemma_fails_evps_det(b, pos + 4, n, e1, e2);
        },
    }
}

/// Decoding one element-value pair is deterministic.
pub proof fn lemma_evpair_at_det(
    b: Seq<u8>,
    pos: int,
    o1: Result<(ElementValuePair, int), ParseError>,
    o2: Result<(ElementValuePair, int), ParseError>,
)
    requires
        evpair_at(b, pos, o1),
        evpair_at(b, pos, o2),
    ensures
        match (o1, o2) {
            (Ok((v1, m1)), Ok((v2, m2))) => m1 == m2 && evp_eq(v1, v2),
            (Err(x), Err(y)) => x == y,
            _ => false,
        },
    decreases b.len() - pos, 0int,
{
    if pos + 2 > b.len() {
        return ;
    }
    match (o1, o2) {
        (Ok((v1, m1)), Ok((v2, m2))) => {
            lemma_element_value_at_det(b, pos + 2, Ok((v1.value, m1)), Ok((v2.value, m2)));
        },
        (Ok((v1, m1)), Err(e2)) => {
            lemma_element_value_at_det(b, pos + 2, Ok((v1.value, m1)), Err(e2));
        },
        (Err(e1), Ok((v2, m2))) => {
            lemma_element_value_at_det(b, pos + 2, Err(e1), Ok((v2.value, m2)));
        },
        (Err(e1), Err(e2)) => {
            lemma_element_value_at_det(b, pos + 2, Err(e1), Err(e2));
        },
    }
}

/// Decoding one element value is deterministic.
pub proof fn lemma_element_value_at_det(
    b: Seq<u8>,
    pos: int,
    o1: Result<(ElementValue, int), ParseError>,
    o2: Result<(ElementValue, int), ParseError>,
)
    requires
        element_value_at(b, pos, o1),
        element_value_at(b, pos, o2),
    ensures
        match (o1, o2) {
            (Ok((v1, m1)), Ok((v2, m2))) => m1 == m2 && ev_eq(v1, v2),
            (Err(x), Err(y)) => x == y,
            _ => false,
        },
    decreases b.len() - pos, 0int,
{
    if pos + 1 > b.len() {
        return ;
    }
    let tag = b[pos];
    if tag == 0x40 {
        match (o1, o2) {
            (Ok((v1, m1)), Ok((v2, m2))) => {
                match (v1, v2) {
                    (ElementValue::Annotation(a1), ElementValue::Annotation(a2)) => {
                        lemma_annotation_at_det(b, pos + 1, Ok((a1, m1)), Ok((a2, m2)));
                    },
                    _ => {},
                }
            },
            (Ok((v1, m1)), Err(e2)) => {
                match v1 {
                    ElementValue::Annotation(a1) => {
                        lemma_annotation_at_det(b, pos + 1, Ok((a1, m1)), Err(e2));
                    },
                    _ => {},
                }
            },
            (Err(e1), Ok((v2, m2))) => {
                match v2 {
                    ElementValue::Annotation(a2) => {
                        lemma_annotation_at_det(b, pos + 1, Err(e1), Ok((a2, m2)));
                    },
                    _ => {},
                }
            },
            (Err(e1), Err(e2)) => {
                lemma_annotation_at_det(b, pos + 1, Err(e1), Err(e2));
            },
        }
    } else if tag == 0x5B && pos + 3 <= b.len() {
        let n = be_u16(b, pos + 1);
        match (o1, o2) {
            (Ok((v1, m1)), Ok((v2, m2))) => {
                match (v1, v2) {
                    (ElementValue::Array(x1), ElementValue::Array(x2)) => {
                        lemma_span_evs_det(b, pos + 3, m1, m2, x1@, x2@);
                    },
                    _ => {},
                }
            },
            (Ok((v1, m1)), Err(e2)) => {
                match v1 {
                    ElementValue::Array(x1) => {
                        lemma_span_evs_excl_fails(b, pos + 3, m1, x1@, n, e2);
                    },
                    _ => {},
                }
            },
            (Err(e1), Ok((v2, m2))) => {
                match v2 {
                    ElementValue::Array(x2) => {
                        lemma_span_evs_excl_fails(b, pos + 3, m2, x2@, n, e1);
                    },
                    _ => {},
                }
            },
            (Err(e1), Err(e2)) => {
                lemma_fails_evs_det(b, pos + 3, n, e1, e2);
            },
        }
    }
}

/// Decoding one per-parameter annotation list is deterministic.
pub proof fn lemma_ann_group_at_det(
    b: Seq<u8>,
    pos: int,
    o1: Result<(Vec<Annotation>, int), ParseError>,
    o2: Result<(Vec<Annotation>, int), ParseError>,
)
    requires
        ann_group_at(b, pos, o1),
        ann_group_at(b, pos, o2),
    ensures
        match (o1, o2) {
            (Ok((v1, m1)), Ok((v2, m2))) => m1 == m2 && ann_group_eq(v1, v2),
            (Err(x), Err(y)) => x == y,
            _ => false,
        },
{
    if pos + 2 > b.len() {
        return ;
    }
    let n = be_u16(b, pos);
    match (o1, o2) {
        (Ok((v1, m1)), Ok((v2, m2))) => {
            lemma_span_anns_det(b, pos + 2, m1, m2, v1@, v2@);
        },
        (Ok((v1, m1)), Err(e2)) => {
            lemma_span_anns_excl_fails(b, pos + 2, m1, v1@, n, e2);
        },
        (Err(e1), Ok((v2, m2))) => {
            lemma_span_anns_excl_fails(b, pos + 2, m2, v2@, n, e1);
        },
        (Err(e1), Err(e2)) => {
            lemma_fails_anns_det(b, pos + 2, n, e1, e2);
        },
    }
}

/// Decoding one type annotation is deterministic.
pub proof fn lemma_type_annotation_at_det(
    b: Seq<u8>,
    pos: int,
    o1: Result<(TypeAnnotation, int), ParseError>,
    o2: Result<(TypeAnnotation, int), ParseError>,
)
    requires
        type_annotation_at(b, pos, o1),
        type_annotation_at(b, pos, o2),
    ensures
        match (o1, o2) {
            (Ok((v1, m1)), Ok((v2, m2))) => m1 == m2 && tann_eq(v1, v2),
            (Err(x), Err(y)) => x == y,
            _ => false,
        },
{
    if pos + 1 > b.len() {
        return ;
    }
    let tag = b[pos];
    if target_type_of(tag) is None {
        return ;
    }
    match (o1, o2) {
        (Ok((v1, m1)), Ok((v2, m2))) => {
            let (q1, r1) = choose|q: int, mid: int|
                #[trigger] boundary(q, mid) && tann_rest_at(b, tag, pos, v1, q, mid, m1);
            let (q2, r2) = choose|q: int, mid: int|
                #[trigger] boundary(q, mid) && tann_rest_at(b, tag, pos, v2, q, mid, m2);
            lemma_target_info_at_det(b, tag, pos + 1, Ok((v1.target_info, q1)),
                Ok((v2.target_info, q2)));
            lemma_span_path_elems_det(b, q1 + 1, r1, r2, v1.type_path.path@, v2.type_path.path@);
            lemma_span_evps_det(b, r1 + 4, m1, m2, v1.element_value_pairs@,
                v2.element_value_pairs@);
        },
        (Ok((v1, m1)), Err(e2)) => {
            let (q1, r1) = choose|q: int, mid: int|
                #[trigger] boundary(q, mid) && tann_rest_at(b, tag, pos, v1, q, mid, m1);
            if target_info_at(b, tag, pos + 1, Err(e2)) {
                lemma_target_info_at_det(b, tag, pos + 1, Ok((v1.target_info, q1)), Err(e2));
            } else {
                let (info, q2) = choose|info: TargetInfo, q: int|
                    pos + 1 <= q <= b.len() && #[trigger] target_info_at(b, tag, pos + 1,
                        Ok((info, q))) && (if q + 1 > b.len() {
                        e2 == ParseError::Io
                    } else {
                        fails_path_elems(b, q + 1, b[q] as int, e2) || exists|pes: Seq<
                            PathElement,
                        >, mid: int|
                            #[trigger] step_to(pes, mid) && q + 1 <= mid <= b.len() && pes.len()
                                == b[q] && span_path_elems(b, q + 1, mid, pes) && (if mid + 4
                                > b.len() {
                                e2 == ParseError::Io
                            } else {
                                fails_evps(b, mid + 4, be_u16(b, mid + 2), e2)
                            })
                    });
                lemma_target_info_at_det(b, tag, pos + 1, Ok((v1.target_info, q1)),
                    Ok((info, q2)));
                if fails_path_elems(b, q1 + 1, b[q1] as int, e2) {
                    lemma_span_path_elems_excl_fails(b, q1 + 1, r1, v1.type_path.path@,
                        b[q1] as int, e2);
                } else {
                    let (pes, r2) = choose|pes: Seq<PathElement>, mid: int|
                        #[trigger] step_to(pes, mid) && q1 + 1 <= mid <= b.len() && pes.len()
                            == b[q1] && span_path_elems(b, q1 + 1, mid, pes) && (if mid + 4
                            > b.len() {
                            e2 == ParseError::Io
                        } else {
                            fails_evps(b, mid + 4, be_u16(b, mid + 2), e2)
                        });
                    lemma_span_path_elems_det(b, q1 + 1, r1, r2, v1.type_path.path@, pes);
                    lemma_span_evps_excl_fails(b, r1 + 4, m1, v1.element_value_pairs@,
                        be_u16(b, r1 + 2), e2);
                }
            }
        },
        (Err(e1), Ok((v2, m2))) => {
            let (q2, r2) = choose|q: int, mid: int|
                #[trigger] boundary(q, mid) && tann_rest_at(b, tag, pos, v2, q, mid, m2);
            if target_info_at(b, tag, pos + 1, Err(e1)) {
                lemma_target_info_at_det(b, tag, pos + 1, Ok((v2.target_info, q2)), Err(e1));
            } else {
                let (info, q1) = choose|info: TargetInfo, q: int|
                    pos + 1 <= q <= b.len() && #[trigger] target_info_at(b, tag, pos + 1,
                        Ok((info, q))) && (if q + 1 > b.len() {
                        e1 == ParseError::Io
                    } else {
                        fails_path_elems(b, q + 1, b[q] as int, e1) || exists|pes: Seq<
                            PathElement,
                        >, mid: int|
                            #[trigger] step_to(pes, mid) && q + 1 <= mid <= b.len() && pes.len()
                                == b[q] && span_path_elems(b, q + 1, mid, pes) && (if mid + 4
                                > b.len() {
                                e1 == ParseError::Io
                            } else {
                                fails_evps(b, mid + 4, be_u16(b, mid + 2), e1)
                            })
                    });
                lemma_target_info_at_det(b, tag, pos + 1, Ok((v2.target_info, q2)),
                    Ok((info, q1)));
                if fails_path_elems(b, q2 + 1, b[q2] as int, e1) {
                    lemma_span_path_elems_excl_fails(b, q2 + 1, r2, v2.type_path.path@,
                        b[q2] as int, e1);
                } else {
                    let (pes, r1) = choose|pes: Seq<PathElement>, mid: int|
                        #[trigger] step_to(pes, mid) && q2 + 1 <= mid <= b.len() && pes.len()
                            == b[q2] && span_path_elems(b, q2 + 1, mid, pes) && (if mid + 4
                            > b.len() {
                            e1 == ParseError::Io
                        } else {
                            fails_evps(b, mid + 4, be_u16(b, mid + 2), e1)
                        });
                    lemma_span_path_elems_det(b, q2 + 1, r2, r1, v2.type_path.path@, pes);
                    lemma_span_evps_excl_fails(b, r2 + 4, m2, v2.element_value_pairs@,
                        be_u16(b, r2 + 2), e1);
                }
            }
        },
        (Err(e1), Err(e2)) => {
            if target_info_at(b, tag, pos + 1, Err(e1)) && target_info_at(b, tag, pos + 1,
                Err(e2)) {
                lemma_target_info_at_det(b, tag, pos + 1, Err(e1), Err(e2));
            } else if target_info_at(b, tag, pos + 1, Err(e1)) {
                let (info, q2) = choose|info: TargetInfo, q: int|
                    pos + 1 <= q <= b.len() && #[trigger] target_info_at(b, tag, pos + 1,
                        Ok((info, q))) && (if q + 1 > b.len() {
                        e2 == ParseError::Io
                    } else {
                        fails_path_elems(b, q + 1, b[q] as int, e2) || exists|pes: Seq<
                            PathElement,
                        >, mid: int|
                            #[trigger] step_to(pes, mid) && q + 1 <= mid <= b.len() && pes.len()
                                == b[q] && span_path_elems(b, q + 1, mid, pes) && (if mid + 4
                                > b.len() {
                                e2 == ParseError::Io
                            } else {
                                fails_evps(b, mid + 4, be_u16(b, mid + 2), e2)
                            })
                    });
                lemma_target_info_at_det(b, tag, pos + 1, Err(e1), Ok((info, q2)));
            } else if target_info_at(b, tag, pos + 1, Err(e2)) {
                let (info, q1) = choose|info: TargetInfo, q: int|
                    pos + 1 <= q <= b.len() && #[trigger] target_info_at(b, tag, pos + 1,
                        Ok((info, q))) && (if q + 1 > b.len() {
                        e1 == ParseError::Io
                    } else {
                        fails_path_elems(b, q + 1, b[q] as int, e1) || exists|pes: Seq<
                            PathElement,
                        >, mid: int|
                            #[trigger] step_to(pes, mid) && q + 1 <= mid <= b.len() && pes.len()
                                == b[q] && span_path_elems(b, q + 1, mid, pes) && (if mid + 4
                                > b.len() {
                                e1 == ParseError::Io
                            } else {
                                fails_evps(b, mid + 4, be_u16(b, mid + 2), e1)
                            })
                    });
                lemma_target_info_at_det(b, tag, pos + 1, Err(e2), Ok((info, q1)));
            } else {
                let (i1, q1) = choose|info: TargetInfo, q: int|
                    pos + 1 <= q <= b.len() && #[trigger] target_info_at(b, tag, pos + 1,
                        Ok((info, q))) && (if q + 1 > b.len() {
                        e1 == ParseError::Io
                    } else {
                        fails_path_elems(b, q + 1, b[q] as int, e1) || exists|pes: Seq<
                            PathElement,
                        >, mid: int|
                            #[trigger] step_to(pes, mid) && q + 1 <= mid <= b.len() && pes.len()
                                == b[q] && span_path_elems(b, q + 1, mid, pes) && (if mid + 4
                                > b.len() {
                                e1 == ParseError::Io
                            } else {
                                fails_evps(b, mid + 4, be_u16(b, mid + 2), e1)
                            })
                    });
                let (i2, q2) = choose|info: TargetInfo, q: int|
                    pos + 1 <= q <= b.len() && #[trigger] target_info_at(b, tag, pos + 1,
                        Ok((info, q))) && (if q + 1 > b.len() {
                        e2 == ParseError::Io
                    } else {
                        fails_path_elems(b, q + 1, b[q] as int, e2) || exists|pes: Seq<
                            PathElement,
                        >, mid: int|
                            #[trigger] step_to(pes, mid) && q + 1 <= mid <= b.len() && pes.len()
                                == b[q] && span_path_elems(b, q + 1, mid, pes) && (if mid + 4
                                > b.len() {
                                e2 == ParseError::Io
                            } else {
                                fails_evps(b, mid + 4, be_u16(b, mid + 2), e2)
                            })
                    });
                lemma_target_info_at_det(b, tag, pos + 1, Ok((i1, q1)), Ok((i2, q2)));
                if q1 + 1 > b.len() {
                } else {
                    if fails_path_elems(b, q1 + 1, b[q1] as int, e1) && fails_path_elems(b,
                        q1 + 1, b[q1] as int, e2) {
                        lemma_fails_path_elems_det(b, q1 + 1, b[q1] as int, e1, e2);
                    } else if fails_path_elems(b, q1 + 1, b[q1] as int, e1) {
                        let (pes, r2) = choose|pes: Seq<PathElement>, mid: int|
                            #[trigger] step_to(pes, mid) && q1 + 1 <= mid <= b.len() && pes.len()
                                == b[q1] && span_path_elems(b, q1 + 1, mid, pes) && (if mid + 4
                                > b.len() {
                                e2 == ParseError::Io
                            } else {
                                fails_evps(b, mid + 4, be_u16(b, mid + 2), e2)
                            });
                        lemma_span_path_elems_excl_fails(b, q1 + 1, r2, pes, b[q1] as int, e1);
                    } else if fails_path_elems(b, q1 + 1, b[q1] as int, e2) {
                        let (pes, r1) = choose|pes: Seq<PathElement>, mid: int|
                            #[trigger] step_to(pes, mid) && q1 + 1 <= mid <= b.len() && pes.len()
                                == b[q1] && span_path_elems(b, q1 + 1, mid, pes) && (if mid + 4
                                > b.len() {
                                e1 == ParseError::Io
                            } else {
                                fails_evps(b, mid + 4, be_u16(b, mid + 2), e1)
                            });
                        lemma_span_path_elems_excl_fails(b, q1 + 1, r1, pes, b[q1] as int, e2);
                    } else {
                        let (p1, r1) = choose|pes: Seq<PathElement>, mid: int|
                            #[trigger] step_to(pes, mid) && q1 + 1 <= mid <= b.len() && pes.len()
                                == b[q1] && span_path_elems(b, q1 + 1, mid, pes) && (if mid + 4
                                > b.len() {
                                e1 == ParseError::Io
                            } else {
                                fails_evps(b, mid + 4, be_u16(b, mid + 2), e1)
                            });
                        let (p2, r2) = choose|pes: Seq<PathElement>, mid: int|
                            #[trigger] step_to(pes, mid) && q1 + 1 <= mid <= b.len() && pes.len()
                                == b[q1] && span_path_elems(b, q1 + 1, mid, pes) && (if mid + 4
                                > b.len() {
                                e2 == ParseError::Io
                            } else {
                                fails_evps(b, mid + 4, be_u16(b, mid + 2), e2)
                            });
                        lemma_span_path_elems_det(b, q1 + 1, r1, r2, p1, p2);
                        if r1 + 4 <= b.len() {
                            lemma_fails_evps_det(b, r1 + 4, be_u16(b, r1 + 2), e1, e2);
                        }
                    }
                }
            }
        },
    }
}

/// Decoding one field-table entry is deterministic.
pub proof fn lemma_field_at_det(
    b: Seq<u8>,
    pool1: Seq<ConstantPoolInfo>,
    pool2: Seq<ConstantPoolInfo>,
    pos: int,
    o1: Result<(Field, int), ParseError>,
    o2: Result<(Field, int), ParseError>,
)
    requires
        pos >= 0,
        pools_eq(pool1, pool2),
        field_at(b, pool1, pos, o1),
        field_at(b, pool2, pos, o2),
    ensures
        match (o1, o2) {
            (Ok((v1, m1)), Ok((v2, m2))) => m1 == m2 && field_eq(v1, v2),
            (Err(x), Err(y)) => x == y,
            _ => false,
        },
{
    if pos + 6 > b.len() {
        return ;
    }
    match (o1, o2) {
        (Ok((v1, m1)), Ok((v2, m2))) => {
            lemma_attrs_section_at_det(b, pool1, pool2, pos + 6, Ok((v1.attributes@, m1)),
                Ok((v2.attributes@, m2)));
        },
        (Ok((v1, m1)), Err(e2)) => {
            lemma_attrs_section_at_det(b, pool1, pool2, pos + 6, Ok((v1.attributes@, m1)), Err(e2));
        },
        (Err(e1), Ok((v2, m2))) => {
            lemma_attrs_section_at_det(b, pool1, pool2, pos + 6, Err(e1), Ok((v2.attributes@, m2)));
        },
        (Err(e1), Err(e2)) => {
            lemma_attrs_section_at_det(b, pool1, pool2, pos + 6, Err(e1), Err(e2));
        },
    }
}

/// Decoding one method-table entry is deterministic.
pub proof fn lemma_method_at_det(
    b: Seq<u8>,
    pool1: Seq<ConstantPoolInfo>,
    pool2: Seq<ConstantPoolInfo>,
    pos: int,
    o1: Result<(Method, int), ParseError>,
    o2: Result<(Method, int), ParseError>,
)
    requires
        pos >= 0,
        pools_eq(pool1, pool2),
        method_at(b, pool1, pos, o1),
        method_at(b, pool2, pos, o2),
    ensures
        match (o1, o2) {
            (Ok((v1, m1)), Ok((v2, m2))) => m1 == m2 && method_eq(v1, v2),
            (Err(x), Err(y)) => x == y,
            _ => false,
        },
{
    if pos + 6 > b.len() {
        return ;
    }
    match (o1, o2) {
        (Ok((v1, m1)), Ok((v2, m2))) => {
            lemma_attrs_section_at_det(b, pool1, pool2, pos + 6, Ok((v1.attributes@, m1)),
                Ok((v2.attributes@, m2)));
        },
        (Ok((v1, m1)), Err(e2)) => {
            lemma_attrs_section_at_det(b, pool1, pool2, pos + 6, Ok((v1.attributes@, m1)), Err(e2));
        },
        (Err(e1), Ok((v2, m2))) => {
            lemma_attrs_section_at_det(b, pool1, pool2, pos + 6, Err(e1), Ok((v2.attributes@, m2)));
        },
        (Err(e1), Err(e2)) => {
            lemma_attrs_section_at_det(b, pool1, pool2, pos + 6, Err(e1), Err(e2));
        },
    }
}

/// Structural equality of whole pools, as the class-level determinism
/// arguments need it.
pub open spec fn pools_eq(p1: Seq<ConstantPoolInfo>, p2: Seq<ConstantPoolInfo>) -> bool {
    p1.len() == p2.len() && forall|k: int|
        0 <= k < p1.len() ==> cp_eq(#[trigger] p1[k], #[trigger] p2[k])
}

/// Decoding one attribute is deterministic, under structurally equal pools.
#[verifier::spinoff_prover]
#[verifier::rlimit(100)]
pub proof fn lemma_attribute_at_det(
    b: Seq<u8>,
    pool1: Seq<ConstantPoolInfo>,
    pool2: Seq<ConstantPoolInfo>,
    pos: int,
    o1: Result<(Attribute, int), ParseError>,
    o2: Result<(Attribute, int), ParseError>,
)
    requires
        pos >= 0,
        pools_eq(pool1, pool2),
        attribute_at(b, pool1, pos, o1),
        attribute_at(b, pool2, pos, o2),
    ensures
        match (o1, o2) {
            (Ok((a1, m1)), Ok((a2, m2))) => m1 == m2 && attr_eq(a1, a2),
            (Err(x), Err(y)) => x == y,
            _ => false,
        },
    decreases b.len() - pos, 0int,
{
    if pos + 6 > b.len() {
        return ;
    }
    let ni = be_u16(b, pos);
    if ni == 0 || ni > pool1.len() {
        return ;
    }
    assert(cp_eq(pool1[ni - 1], pool2[ni - 1]));
    if !(pool1[ni - 1] is Utf8) {
        return ;
    }
    let name = pool1[ni - 1]->Utf8_0@;
    assert(pool2[ni - 1]->Utf8_0@ == name);
    let p = pos + 6;
        if name == "Code"@ {
            lemma_code_attribute_at_det(b, pool1, pool2, p, o1, o2);
        } else if name == "ConstantValue"@ {
        
        } else if name == "StackMapTable"@ {
            let n = be_u16(b, p);
            match (o1, o2) {
                (Ok((a1, m1)), Ok((a2, m2))) => {
                    match (a1, a2) {
                        (Attribute::StackMapTable(x1), Attribute::StackMapTable(x2)) => {
                            lemma_span_frames_det(b, p + 2, m1, m2, x1@, x2@);
                        },
                        _ => {},
                    }
                },
                (Ok((a1, m1)), Err(e2)) => {
                    match a1 {
                        Attribute::StackMapTable(x1) => {
                            lemma_span_frames_excl_fails(b, p + 2, m1, x1@, n, e2);
                        },
                        _ => {},
                    }
                },
                (Err(e1), Ok((a2, m2))) => {
                    match a2 {
                        Attribute::StackMapTable(x2) => {
                            lemma_span_frames_excl_fails(b, p + 2, m2, x2@, n, e1);
                        },
                        _ => {},
                    }
                },
                (Err(e1), Err(e2)) => {
                    if p + 2 <= b.len() {
                        lemma_fails_frames_det(b, p + 2, n, e1, e2);
                    }
                },
            }
        } else if name == "Exceptions"@ {
            match (o1, o2) {
                (Ok((a1, m1)), Ok((a2, m2))) => {
                    match (a1, a2) {
                        (
                            Attribute::Exceptions { exception_index_table: x1 },
                            Attribute::Exceptions { exception_index_table: x2 },
                        ) => {
                            assert(x1@ =~= x2@);
                        },
                        _ => {},
                    }
                },
                _ => {},
            }
        } else if name == "InnerClasses"@ {
            match (o1, o2) {
                (Ok((a1, m1)), Ok((a2, m2))) => {
                    match (a1, a2) {
                        (
                            Attribute::InnerClasses { classes: x1 },
                            Attribute::InnerClasses { classes: x2 },
                        ) => {
                            assert(x1@ =~= x2@);
                        },
                        _ => {},
                    }
                },
                _ => {},
            }
        } else if name == "EnclosingMethod"@ {
        
        } else if name == "Synthetic"@ {
        
        } else if name == "Signature"@ {
        
        } else if name == "SourceFile"@ {
        
        } else if name == "SourceDebugExtension"@ {
        
        } else if name == "LineNumberTable"@ {
            match (o1, o2) {
                (Ok((a1, m1)), Ok((a2, m2))) => {
                    match (a1, a2) {
                        (Attribute::LineNumberTable(x1), Attribute::LineNumberTable(x2)) => {
                            assert(x1@ =~= x2@);
                        },
                        _ => {},
                    }
                },
                _ => {},
            }
        } else if name == "LocalVariableTable"@ {
            match (o1, o2) {
                (Ok((a1, m1)), Ok((a2, m2))) => {
                    match (a1, a2) {
                        (Attribute::LocalVariableTable(x1), Attribute::LocalVariableTable(x2)) => {
                            assert(x1@ =~= x2@);
                        },
                        _ => {},
                    }
                },
                _ => {},
            }
        } else if name == "LocalVariableTypeTable"@ {
            match (o1, o2) {
                (Ok((a1, m1)), Ok((a2, m2))) => {
                    match (a1, a2) {
                        (
                            Attribute::LocalVariableTypeTable(x1),
                            Attribute::LocalVariableTypeTable(x2),
                        ) => {
                            assert(x1@ =~= x2@);
                        },
                        _ => {},
                    }
                },
                _ => {},
            }
        } else if name == "Deprecated"@ {
        
        } else if name == "RuntimeVisibleAnnotations"@ {
            let n = be_u16(b, p);
            match (o1, o2) {
                (Ok((a1, m1)), Ok((a2, m2))) => {
                    match (a1, a2) {
                        (Attribute::RuntimeVisibleAnnotations(x1), Attribute::RuntimeVisibleAnnotations(x2)) => {
                            lemma_span_anns_det(b, p + 2, m1, m2, x1@, x2@);
                        },
                        _ => {},
                    }
                },
                (Ok((a1, m1)), Err(e2)) => {
                    match a1 {
                        Attribute::RuntimeVisibleAnnotations(x1) => {
                            lemma_span_anns_excl_fails(b, p + 2, m1, x1@, n, e2);
                        },
                        _ => {},
                    }
                },
                (Err(e1), Ok((a2, m2))) => {
                    match a2 {
                        Attribute::RuntimeVisibleAnnotations(x2) => {
                            lemma_span_anns_excl_fails(b, p + 2, m2, x2@, n, e1);
                        },
                        _ => {},
                    }
                },
                (Err(e1), Err(e2)) => {
                    if p + 2 <= b.len() {
                        lemma_fails_anns_det(b, p + 2, n, e1, e2);
                    }
                },
            }
        } else if name == "RuntimeInvisibleAnnotations"@ {
            let n = be_u16(b, p);
            match (o1, o2) {
                (Ok((a1, m1)), Ok((a2, m2))) => {
                    match (a1, a2) {
                        (Attribute::RuntimeInvisibleAnnotations(x1), Attribute::RuntimeInvisibleAnnotations(x2)) => {
                            lemma_span_anns_det(b, p + 2, m1, m2, x1@, x2@);
                        },
                        _ => {},
                    }
                },
                (Ok((a1, m1)), Err(e2)) => {
                    match a1 {
                        Attribute::RuntimeInvisibleAnnotations(x1) => {
                            lemma_span_anns_excl_fails(b, p + 2, m1, x1@, n, e2);
                        },
                        _ => {},
                    }
                },
                (Err(e1), Ok((a2, m2))) => {
                    match a2 {
                        Attribute::RuntimeInvisibleAnnotations(x2) => {
                            lemma_span_anns_excl_fails(b, p + 2, m2, x2@, n, e1);
                        },
                        _ => {},
                    }
                },
                (Err(e1), Err(e2)) => {
                    if p + 2 <= b.len() {
                        lemma_fails_anns_det(b, p + 2, n, e1, e2);
                    }
                },
            }
        } else if name == "RuntimeVisibleParameterAnnotations"@ {
            let n: int = if p < b.len() { b[p] as int } else { 0 };
            match (o1, o2) {
                (Ok((a1, m1)), Ok((a2, m2))) => {
                    match (a1, a2) {
                        (Attribute::RuntimeVisibleParameterAnnotations(x1), Attribute::RuntimeVisibleParameterAnnotations(x2)) => {
                            lemma_span_ann_groups_det(b, p + 1, m1, m2, x1@, x2@);
                        },
                        _ => {},
                    }
                },
                (Ok((a1, m1)), Err(e2)) => {
                    match a1 {
                        Attribute::RuntimeVisibleParameterAnnotations(x1) => {
                            lemma_span_ann_groups_excl_fails(b, p + 1, m1, x1@, n, e2);
                        },
                        _ => {},
                    }
                },
                (Err(e1), Ok((a2, m2))) => {
                    match a2 {
                        Attribute::RuntimeVisibleParameterAnnotations(x2) => {
                            lemma_span_ann_groups_excl_fails(b, p + 1, m2, x2@, n, e1);
                        },
                        _ => {},
                    }
                },
                (Err(e1), Err(e2)) => {
                    if p + 1 <= b.len() {
                        lemma_fails_ann_groups_det(b, p + 1, n, e1, e2);
                    }
                },
            }
        } else if name == "RuntimeInvisibleParameterAnnotations"@ {
            let n: int = if p < b.len() { b[p] as int } else { 0 };
            match (o1, o2) {
                (Ok((a1, m1)), Ok((a2, m2))) => {
                    match (a1, a2) {
                        (Attribute::RuntimeInvisibleParameterAnnotations(x1), Attribute::RuntimeInvisibleParameterAnnotations(x2)) => {
                            lemma_span_ann_groups_det(b, p + 1, m1, m2, x1@, x2@);
                        },
                        _ => {},
                    }
                },
                (Ok((a1, m1)), Err(e2)) => {
                    match a1 {
                        Attribute::RuntimeInvisibleParameterAnnotations(x1) => {
                            lemma_span_ann_groups_excl_fails(b, p + 1, m1, x1@, n, e2);
                        },
                        _ => {},
                    }
                },
                (Err(e1), Ok((a2, m2))) => {
                    match a2 {
                        Attribute::RuntimeInvisibleParameterAnnotations(x2) => {
                            lemma_span_ann_groups_excl_fails(b, p + 1, m2, x2@, n, e1);
                        },
                        _ => {},
                    }
                },
                (Err(e1), Err(e2)) => {
                    if p + 1 <= b.len() {
                        lemma_fails_ann_groups_det(b, p + 1, n, e1, e2);
                    }
                },
            }
        } else if name == "RuntimeVisibleTypeAnnotations"@ {
            let n = be_u16(b, p);
            match (o1, o2) {
                (Ok((a1, m1)), Ok((a2, m2))) => {
                    match (a1, a2) {
                        (Attribute::RuntimeVisibleTypeAnnotations(x1), Attribute::RuntimeVisibleTypeAnnotations(x2)) => {
                            lemma_span_tanns_det(b, p + 2, m1, m2, x1@, x2@);
                        },
                        _ => {},
                    }
                },
                (Ok((a1, m1)), Err(e2)) => {
                    match a1 {
                        Attribute::RuntimeVisibleTypeAnnotations(x1) => {
                            lemma_span_tanns_excl_fails(b, p + 2, m1, x1@, n, e2);
                        },
                        _ => {},
                    }
                },
                (Err(e1), Ok((a2, m2))) => {
                    match a2 {
                        Attribute::RuntimeVisibleTypeAnnotations(x2) => {
                            lemma_span_tanns_excl_fails(b, p + 2, m2, x2@, n, e1);
                        },
                        _ => {},
                    }
                },
                (Err(e1), Err(e2)) => {
                    if p + 2 <= b.len() {
                        lemma_fails_tanns_det(b, p + 2, n, e1, e2);
                    }
                },
            }
        } else if name == "RuntimeInvisibleTypeAnnotations"@ {
            let n = be_u16(b, p);
            match (o1, o2) {
                (Ok((a1, m1)), Ok((a2, m2))) => {
                    match (a1, a2) {
                        (Attribute::RuntimeInvisibleTypeAnnotations(x1), Attribute::RuntimeInvisibleTypeAnnotations(x2)) => {
                            lemma_span_tanns_det(b, p + 2, m1, m2, x1@, x2@);
                        },
                        _ => {},
                    }
                },
                (Ok((a1, m1)), Err(e2)) => {
                    match a1 {
                        Attribute::RuntimeInvisibleTypeAnnotations(x1) => {
                            lemma_span_tanns_excl_fails(b, p + 2, m1, x1@, n, e2);
                        },
                        _ => {},
                    }
                },
                (Err(e1), Ok((a2, m2))) => {
                    match a2 {
                        Attribute::RuntimeInvisibleTypeAnnotations(x2) => {
                            lemma_span_tanns_excl_fails(b, p + 2, m2, x2@, n, e1);
                        },
                        _ => {},
                    }
                },
                (Err(e1), Err(e2)) => {
                    if p + 2 <= b.len() {
                        lemma_fails_tanns_det(b, p + 2, n, e1, e2);
                    }
                },
            }
        } else if name == "AnnotationDefault"@ {
            match (o1, o2) {
                (Ok((a1, m1)), Ok((a2, m2))) => {
                    match (a1, a2) {
                        (
                            Attribute::AnnotationDefault { element_value: v1 },
                            Attribute::AnnotationDefault { element_value: v2 },
                        ) => {
                            lemma_element_value_at_det(b, p, Ok((v1, m1)), Ok((v2, m2)));
                        },
                        _ => {},
                    }
                },
                (Ok((a1, m1)), Err(e2)) => {
                    match a1 {
                        Attribute::AnnotationDefault { element_value: v1 } => {
                            lemma_element_value_at_det(b, p, Ok((v1, m1)), Err(e2));
                        },
                        _ => {},
                    }
                },
                (Err(e1), Ok((a2, m2))) => {
                    match a2 {
                        Attribute::AnnotationDefault { element_value: v2 } => {
                            lemma_element_value_at_det(b, p, Err(e1), Ok((v2, m2)));
                        },
                        _ => {},
                    }
                },
                (Err(e1), Err(e2)) => {
                    lemma_element_value_at_det(b, p, Err(e1), Err(e2));
                },
            }
        } else if name == "BootstrapMethods"@ {
            let n = be_u16(b, p);
            match (o1, o2) {
                (Ok((a1, m1)), Ok((a2, m2))) => {
                    match (a1, a2) {
                        (Attribute::BootstrapMethods(x1), Attribute::BootstrapMethods(x2)) => {
                            lemma_span_bsms_det(b, p + 2, m1, m2, x1@, x2@);
                        },
                        _ => {},
                    }
                },
                (Ok((a1, m1)), Err(e2)) => {
                    match a1 {
                        Attribute::BootstrapMethods(x1) => {
                            lemma_span_bsms_excl_fails(b, p + 2, m1, x1@, n, e2);
                        },
                        _ => {},
                    }
                },
                (Err(e1), Ok((a2, m2))) => {
                    match a2 {
                        Attribute::BootstrapMethods(x2) => {
                            lemma_span_bsms_excl_fails(b, p + 2, m2, x2@, n, e1);
                        },
                        _ => {},
                    }
                },
                (Err(e1), Err(e2)) => {
                    if p + 2 <= b.len() {
                        lemma_fails_bsms_det(b, p + 2, n, e1, e2);
                    }
                },
            }
        } else if name == "MethodParameters"@ {
            match (o1, o2) {
                (Ok((a1, m1)), Ok((a2, m2))) => {
                    match (a1, a2) {
                        (Attribute::MethodParameters(x1), Attribute::MethodParameters(x2)) => {
                            assert(x1@ =~= x2@);
                        },
                        _ => {},
                    }
                },
                _ => {},
            }
        } else {
        }
}

/// Decoding a `Code` attribute body is deterministic, under structurally
/// equal pools.
pub proof fn lemma_code_attribute_at_det(
    b: Seq<u8>,
    pool1: Seq<ConstantPoolInfo>,
    pool2: Seq<ConstantPoolInfo>,
    p: int,
    o1: Result<(Attribute, int), ParseError>,
    o2: Result<(Attribute, int), ParseError>,
)
    requires
        p >= 0,
        pools_eq(pool1, pool2),
        code_attribute_at(b, pool1, p, o1),
        code_attribute_at(b, pool2, p, o2),
    ensures
        match (o1, o2) {
            (Ok((a1, m1)), Ok((a2, m2))) => m1 == m2 && attr_eq(a1, a2),
            (Err(x), Err(y)) => x == y,
            _ => false,
        },
    decreases b.len() - p, 0int,
{
    if p + 8 > b.len() {
        return ;
    }
    let cl = be_u32(b, p + 4);
    if p + 8 + cl > b.len() {
        return ;
    }
    let cb = b.subrange(p + 8, p + 8 + cl);
    assert(cb.len() == cl);
    let q = p + 8 + cl;
    if q + 2 > b.len() {
        return ;
    }
    let ec = be_u16(b, q);
    if q + 2 + 8 * ec > b.len() {
        return ;
    }
    let r0 = q + 2 + 8 * ec;
    match (o1, o2) {
        (Ok((a1, m1)), Ok((a2, m2))) => {
            match (a1, a2) {
                (
                    Attribute::Code {
                        code: c1,
                        exception_table: x1,
                        attributes: t1,
                        ..
                    },
                    Attribute::Code {
                        code: c2,
                        exception_table: x2,
                        attributes: t2,
                        ..
                    },
                ) => {
                    assert(x1@ =~= x2@);
                    lemma_attrs_section_at_det(b, pool1, pool2, r0, Ok((t1@, m1)),
                        Ok((t2@, m2)));
                    crate::decode::lemma_code_span_deterministic(cb, 0, cl, c1@, c2@);
                },
                _ => {},
            }
        },
        (Ok((a1, m1)), Err(e2)) => {
            match a1 {
                Attribute::Code { code: c1, attributes: t1, .. } => {
                    if attrs_section_at(b, pool2, r0, Err(e2)) {
                        lemma_attrs_section_at_det(b, pool1, pool2, r0, Ok((t1@, m1)), Err(e2));
                    } else {
                        crate::decode::lemma_code_span_excl_fails(cb, 0, cl, c1@, e2);
                    }
                },
                _ => {},
            }
        },
        (Err(e1), Ok((a2, m2))) => {
            match a2 {
                Attribute::Code { code: c2, attributes: t2, .. } => {
                    if attrs_section_at(b, pool1, r0, Err(e1)) {
                        lemma_attrs_section_at_det(b, pool1, pool2, r0, Err(e1), Ok((t2@, m2)));
                    } else {
                        crate::decode::lemma_code_span_excl_fails(cb, 0, cl, c2@, e1);
                    }
                },
                _ => {},
            }
        },
        (Err(e1), Err(e2)) => {
            if attrs_section_at(b, pool1, r0, Err(e1)) && attrs_section_at(b, pool2, r0,
                Err(e2)) {
                lemma_attrs_section_at_det(b, pool1, pool2, r0, Err(e1), Err(e2));
            } else if attrs_section_at(b, pool1, r0, Err(e1)) {
                let (ats, e2e) = choose|ats: Seq<Attribute>, end: int|
                    #[trigger] step_to(ats, end) && attrs_section_at(b, pool2, r0,
                        Ok((ats, end)));
                lemma_attrs_section_at_det(b, pool1, pool2, r0, Err(e1), Ok((ats, e2e)));
            } else if attrs_section_at(b, pool2, r0, Err(e2)) {
                let (ats, e1e) = choose|ats: Seq<Attribute>, end: int|
                    #[trigger] step_to(ats, end) && attrs_section_at(b, pool1, r0,
                        Ok((ats, end)));
                lemma_attrs_section_at_det(b, pool1, pool2, r0, Ok((ats, e1e)), Err(e2));
            } else {
                crate::decode::lemma_code_fails_det(cb, 0, e1, e2);
            }
        },
    }
}

/// Decoding a count-prefixed attribute list is deterministic, under
/// structurally equal pools.
pub proof fn lemma_attrs_section_at_det(
    b: Seq<u8>,
    pool1: Seq<ConstantPoolInfo>,
    pool2: Seq<ConstantPoolInfo>,
    pos: int,
    o1: Result<(Seq<Attribute>, int), ParseError>,
    o2: Result<(Seq<Attribute>, int), ParseError>,
)
    requires
        pos >= 0,
        pools_eq(pool1, pool2),
        attrs_section_at(b, pool1, pos, o1),
        attrs_section_at(b, pool2, pos, o2),
    ensures
        match (o1, o2) {
            (Ok((s1, m1)), Ok((s2, m2))) => m1 == m2 && s1.len() == s2.len() && forall|k: int|
                0 <= k < s1.len() ==> attr_eq(#[trigger] s1[k], #[trigger] s2[k]),
            (Err(x), Err(y)) => x == y,
            _ => false,
        },
    decreases b.len() - pos, 0int,
{
    if pos + 2 > b.len() {
        return ;
    }
    let n = be_u16(b, pos);
    match (o1, o2) {
        (Ok((s1, m1)), Ok((s2, m2))) => {
            lemma_span_attrs_det(b, pool1, pool2, pos + 2, m1, m2, s1, s2);
        },
        (Ok((s1, m1)), Err(e2)) => {
            lemma_span_attrs_excl_fails(b, pool1, pool2, pos + 2, m1, s1, n, e2);
        },
        (Err(e1), Ok((s2, m2))) => {
            lemma_span_attrs_excl_fails(b, pool2, pool1, pos + 2, m2, s2, n, e1);
        },
        (Err(e1), Err(e2)) => {
            lemma_fails_attrs_det(b, pool1, pool2, pos + 2, n, e1, e2);
        },
    }
}

/// Decoding the field table is deterministic, under structurally equal
/// pools.
pub proof fn lemma_fields_section_at_det(
    b: Seq<u8>,
    pool1: Seq<ConstantPoolInfo>,
    pool2: Seq<ConstantPoolInfo>,
    pos: int,
    o1: Result<(Seq<Field>, int), ParseError>,
    o2: Result<(Seq<Field>, int), ParseError>,
)
    requires
        pos >= 0,
        pools_eq(pool1, pool2),
        fields_section_at(b, pool1, pos, o1),
        fields_section_at(b, pool2, pos, o2),
    ensures
        match (o1, o2) {
            (Ok((s1, m1)), Ok((s2, m2))) => m1 == m2 && s1.len() == s2.len() && forall|k: int|
                0 <= k < s1.len() ==> field_eq(#[trigger] s1[k], #[trigger] s2[k]),
            (Err(x), Err(y)) => x == y,
            _ => false,
        },
{
    if pos + 2 > b.len() {
        return ;
    }
    let n = be_u16(b, pos);
    match (o1, o2) {
        (Ok((s1, m1)), Ok((s2, m2))) => {
            lemma_span_fields_det(b, pool1, pool2, pos + 2, m1, m2, s1, s2);
        },
        (Ok((s1, m1)), Err(e2)) => {
            lemma_span_fields_excl_fails(b, pool1, pool2, pos + 2, m1, s1, n, e2);
        },
        (Err(e1), Ok((s2, m2))) => {
            lemma_span_fields_excl_fails(b, pool2, pool1, pos + 2, m2, s2, n, e1);
        },
        (Err(e1), Err(e2)) => {
            lemma_fails_fields_det(b, pool1, pool2, pos + 2, n, e1, e2);
        },
    }
}

/// Decoding the method table is deterministic, under structurally equal
/// pools.
pub proof fn lemma_methods_section_at_det(
    b: Seq<u8>,
    pool1: Seq<ConstantPoolInfo>,
    pool2: Seq<ConstantPoolInfo>,
    pos: int,
    o1: Result<(Seq<Method>, int), ParseError>,
    o2: Result<(Seq<Method>, int), ParseError>,
)
    requires
        pos >= 0,
        pools_eq(pool1, pool2),
        methods_section_at(b, pool1, pos, o1),
        methods_section_at(b, pool2, pos, o2),
    ensures
        match (o1, o2) {
            (Ok((s1, m1)), Ok((s2, m2))) => m1 == m2 && s1.len() == s2.len() && forall|k: int|
                0 <= k < s1.len() ==> method_eq(#[trigger] s1[k], #[trigger] s2[k]),
            (Err(x), Err(y)) => x == y,
            _ => false,
        },
{
    if pos + 2 > b.len() {
        return ;
    }
    let n = be_u16(b, pos);
    match (o1, o2) {
        (Ok((s1, m1)), Ok((s2, m2))) => {
            lemma_span_methods_det(b, pool1, pool2, pos + 2, m1, m2, s1, s2);
        },
        (Ok((s1, m1)), Err(e2)) => {
            lemma_span_methods_excl_fails(b, pool1, pool2, pos + 2, m1, s1, n, e2);
        },
        (Err(e1), Ok((s2, m2))) => {
            lemma_span_methods_excl_fails(b, pool2, pool1, pos + 2, m2, s2, n, e1);
        },
        (Err(e1), Err(e2)) => {
            lemma_fails_methods_det(b, pool1, pool2, pos + 2, n, e1, e2);
        },
    }
}

/// Pointwise agreement of two decoded pool spans over the same range, for
/// the shorter one's length.
proof fn lemma_span_cp_prefix_det(
    b: Seq<u8>,
    lo: int,
    hi1: int,
    hi2: int,
    s1: Seq<ConstantPoolInfo>,
    s2: Seq<ConstantPoolInfo>,
)
    requires
        span_cp(b, lo, hi1, s1),
        span_cp(b, lo, hi2, s2),
        s1.len() <= s2.len(),
    ensures
        forall|k: int| 0 <= k < s1.len() ==> cp_eq(#[trigger] s1[k], #[trigger] s2[k]),
        s1.len() == s2.len() ==> hi1 == hi2,
    decreases s1.len(),
{
    if s1.len() == 0 {
        if s2.len() == 0 {
        }
    } else {
        let m1 = lemma_span_cp_destruct(b, lo, hi1, s1);
        let m2 = lemma_span_cp_destruct(b, lo, hi2, s2);
        lemma_cp_entry_at_deterministic(b, lo, Ok((s1[0], m1)), Ok((s2[0], m2)));
        if s1[0] is Long || s1[0] is Double {
            lemma_span_cp_prefix_det(b, m1, hi1, hi2, s1.skip(2), s2.skip(2));
            assert forall|k: int| 0 <= k < s1.len() implies cp_eq(#[trigger] s1[k],
                #[trigger] s2[k]) by {
                if k >= 2 {
                    assert(s1[k] == s1.skip(2)[k - 2]);
                    assert(s2[k] == s2.skip(2)[k - 2]);
                }
            }
        } else {
            lemma_span_cp_prefix_det(b, m1, hi1, hi2, s1.drop_first(), s2.drop_first());
            assert forall|k: int| 0 <= k < s1.len() implies cp_eq(#[trigger] s1[k],
                #[trigger] s2[k]) by {
                if k >= 1 {
                    assert(s1[k] == s1.drop_first()[k - 1]);
                    assert(s2[k] == s2.drop_first()[k - 1]);
                }
            }
        }
    }
}

/// A pool range that decodes to `s` cannot also fail within `k <= s.len()`
/// owed slots.
proof fn lemma_span_cp_excl_fails(
    b: Seq<u8>,
    lo: int,
    hi: int,
    s: Seq<ConstantPoolInfo>,
    k: int,
    e: ParseError,
)
    requires
        span_cp(b, lo, hi, s),
        k <= s.len(),
    ensures
        !fails_cp(b, lo, k, e),
    decreases s.len(),
{
    if fails_cp(b, lo, k, e) {
        let m = lemma_span_cp_destruct(b, lo, hi, s);
        if cp_entry_at(b, lo, Err(e)) {
            lemma_cp_entry_at_deterministic(b, lo, Ok((s[0], m)), Err(e));
        } else {
            let (el2, m2) = choose|el: ConstantPoolInfo, mid: int|
                lo < mid <= b.len() && #[trigger] cp_entry_at(b, lo, Ok((el, mid))) && (if el
                    is Long || el is Double {
                    fails_cp(b, mid, k - 2, e)
                } else {
                    fails_cp(b, mid, k - 1, e)
                });
            lemma_cp_entry_at_deterministic(b, lo, Ok((s[0], m)), Ok((el2, m2)));
            if s[0] is Long || s[0] is Double {
                lemma_span_cp_excl_fails(b, m, hi, s.skip(2), k - 2, e);
            } else {
                lemma_span_cp_excl_fails(b, m, hi, s.drop_first(), k - 1, e);
            }
        }
    }
}

/// Failing within `k` owed pool slots is deterministic: the error is
/// unique.
proof fn lemma_fails_cp_det(b: Seq<u8>, pos: int, k: int, e1: ParseError, e2: ParseError)
    requires
        fails_cp(b, pos, k, e1),
        fails_cp(b, pos, k, e2),
    ensures
        e1 == e2,
    decreases b.len() - pos,
{
    if cp_entry_at(b, pos, Err(e1)) {
        if cp_entry_at(b, pos, Err(e2)) {
            lemma_cp_entry_at_deterministic(b, pos, Err(e1), Err(e2));
        } else {
            let (el2, m2) = choose|el: ConstantPoolInfo, mid: int|
                pos < mid <= b.len() && #[trigger] cp_entry_at(b, pos, Ok((el, mid))) && (if el
                    is Long || el is Double {
                    fails_cp(b, mid, k - 2, e2)
                } else {
                    fails_cp(b, mid, k - 1, e2)
                });
            lemma_cp_entry_at_deterministic(b, pos, Err(e1), Ok((el2, m2)));
        }
    } else {
        let (el1, m1) = choose|el: ConstantPoolInfo, mid: int|
            pos < mid <= b.len() && #[trigger] cp_entry_at(b, pos, Ok((el, mid))) && (if el
                is Long || el is Double {
                fails_cp(b, mid, k - 2, e1)
            } else {
                fails_cp(b, mid, k - 1, e1)
            });
        if cp_entry_at(b, pos, Err(e2)) {
            lemma_cp_entry_at_deterministic(b, pos, Ok((el1, m1)), Err(e2));
        } else {
            let (el2, m2) = choose|el: ConstantPoolInfo, mid: int|
                pos < mid <= b.len() && #[trigger] cp_entry_at(b, pos, Ok((el, mid))) && (if el
                    is Long || el is Double {
                    fails_cp(b, mid, k - 2, e2)
                } else {
                    fails_cp(b, mid, k - 1, e2)
                });
            lemma_cp_entry_at_deterministic(b, pos, Ok((el1, m1)), Ok((el2, m2)));
            if el1 is Long || el1 is Double {
                lemma_fails_cp_det(b, m1, k - 2, e1, e2);
            } else {
                lemma_fails_cp_det(b, m1, k - 1, e1, e2);
            }
        }
    }
}

/// Decoding the constant-pool section is deterministic.
pub proof fn lemma_cp_section_at_det(
    b: Seq<u8>,
    pos: int,
    o1: Result<(Seq<ConstantPoolInfo>, int), ParseError>,
    o2: Result<(Seq<ConstantPoolInfo>, int), ParseError>,
)
    requires
        cp_section_at(b, pos, o1),
        cp_section_at(b, pos, o2),
    ensures
        match (o1, o2) {
            (Ok((s1, m1)), Ok((s2, m2))) => m1 == m2 && pools_eq(s1, s2),
            (Err(x), Err(y)) => x == y,
            _ => false,
        },
{
    if pos + 2 > b.len() {
        return ;
    }
    let n = be_u16(b, pos);
    let m: int = if n >= 1 {
        n - 1
    } else {
        0
    };
    match (o1, o2) {
        (Ok((s1, m1)), Ok((s2, m2))) => {
            if s1.len() == s2.len() {
                lemma_span_cp_prefix_det(b, pos + 2, m1, m2, s1, s2);
            } else if s1.len() < s2.len() {
                // s1 stopped at the owed count, s2 overshot: the slot both
                // agree on at the end of s1 would have to be a two-slot
                // record with its filler inside s1 — impossible.
                lemma_span_cp_prefix_det(b, pos + 2, m1, m2, s1, s2);
                lemma_pool_filler_after_double(b, pos + 2, m1, s1);
                assert(cp_eq(s1[m - 1], s2[m - 1]));
                assert(false);
            } else {
                lemma_span_cp_prefix_det(b, pos + 2, m2, m1, s2, s1);
                lemma_pool_filler_after_double(b, pos + 2, m2, s2);
                assert(cp_eq(s2[m - 1], s1[m - 1]));
                assert(false);
            }
        },
        (Ok((s1, m1)), Err(e2)) => {
            lemma_span_cp_excl_fails(b, pos + 2, m1, s1, m, e2);
        },
        (Err(e1), Ok((s2, m2))) => {
            lemma_span_cp_excl_fails(b, pos + 2, m2, s2, m, e1);
        },
        (Err(e1), Err(e2)) => {
            lemma_fails_cp_det(b, pos + 2, m, e1, e2);
        },
    }
}

/// Failing among the field table, method table, and class attributes is
/// deterministic, under structurally equal pools.
proof fn lemma_fails_from_fields_det(
    b: Seq<u8>,
    pool1: Seq<ConstantPoolInfo>,
    pool2: Seq<ConstantPoolInfo>,
    p2: int,
    e1: ParseError,
    e2: ParseError,
)
    requires
        p2 >= 0,
        pools_eq(pool1, pool2),
        fails_from_fields(b, pool1, p2, e1),
        fails_from_fields(b, pool2, p2, e2),
    ensures
        e1 == e2,
{
    if fields_section_at(b, pool1, p2, Err(e1)) && fields_section_at(b, pool2, p2, Err(e2)) {
        lemma_fields_section_at_det(b, pool1, pool2, p2, Err(e1), Err(e2));
    } else if fields_section_at(b, pool1, p2, Err(e1)) {
        let (fs2, p3b) = choose|fs: Seq<Field>, p3: int|
            p2 <= p3 <= b.len() && #[trigger] fields_section_at(b, pool2, p2, Ok((fs, p3)));
        lemma_fields_section_at_det(b, pool1, pool2, p2, Err(e1), Ok((fs2, p3b)));
    } else if fields_section_at(b, pool2, p2, Err(e2)) {
        let (fs1, p3a) = choose|fs: Seq<Field>, p3: int|
            p2 <= p3 <= b.len() && #[trigger] fields_section_at(b, pool1, p2, Ok((fs, p3)));
        lemma_fields_section_at_det(b, pool1, pool2, p2, Ok((fs1, p3a)), Err(e2));
    } else {
        let (fs1, p3a) = choose|fs: Seq<Field>, p3: int|
            p2 <= p3 <= b.len() && #[trigger] fields_section_at(b, pool1, p2, Ok((fs, p3))) && (
            methods_section_at(b, pool1, p3, Err(e1)) || exists|ms: Seq<Method>, p4: int|
                p3 <= p4 <= b.len() && #[trigger] methods_section_at(b, pool1, p3, Ok((ms, p4)))
                    && attrs_section_at(b, pool1, p4, Err(e1)));
        let (fs2, p3b) = choose|fs: Seq<Field>, p3: int|
            p2 <= p3 <= b.len() && #[trigger] fields_section_at(b, pool2, p2, Ok((fs, p3))) && (
            methods_section_at(b, pool2, p3, Err(e2)) || exists|ms: Seq<Method>, p4: int|
                p3 <= p4 <= b.len() && #[trigger] methods_section_at(b, pool2, p3, Ok((ms, p4)))
                    && attrs_section_at(b, pool2, p4, Err(e2)));
        lemma_fields_section_at_det(b, pool1, pool2, p2, Ok((fs1, p3a)), Ok((fs2, p3b)));
        if methods_section_at(b, pool1, p3a, Err(e1)) && methods_section_at(b, pool2, p3a,
            Err(e2)) {
            lemma_methods_section_at_det(b, pool1, pool2, p3a, Err(e1), Err(e2));
        } else if methods_section_at(b, pool1, p3a, Err(e1)) {
            let (ms2, p4b) = choose|ms: Seq<Method>, p4: int|
                p3a <= p4 <= b.len() && #[trigger] methods_section_at(b, pool2, p3a,
                    Ok((ms, p4)));
            lemma_methods_section_at_det(b, pool1, pool2, p3a, Err(e1), Ok((ms2, p4b)));
        } else if methods_section_at(b, pool2, p3a, Err(e2)) {
            let (ms1, p4a) = choose|ms: Seq<Method>, p4: int|
                p3a <= p4 <= b.len() && #[trigger] methods_section_at(b, pool1, p3a,
                    Ok((ms, p4)));
            lemma_methods_section_at_det(b, pool1, pool2, p3a, Ok((ms1, p4a)), Err(e2));
        } else {
            let (ms1, p4a) = choose|ms: Seq<Method>, p4: int|
                p3a <= p4 <= b.len() && #[trigger] methods_section_at(b, pool1, p3a,
                    Ok((ms, p4))) && attrs_section_at(b, pool1, p4, Err(e1));
            let (ms2, p4b) = choose|ms: Seq<Method>, p4: int|
                p3a <= p4 <= b.len() && #[trigger] methods_section_at(b, pool2, p3a,
                    Ok((ms, p4))) && attrs_section_at(b, pool2, p4, Err(e2));
            lemma_methods_section_at_det(b, pool1, pool2, p3a, Ok((ms1, p4a)), Ok((ms2, p4b)));
            lemma_attrs_section_at_det(b, pool1, pool2, p4a, Err(e1), Err(e2));
        }
    }
}

/// A decoded class and a decode error cannot both satisfy the grammar on
/// the same bytes.
#[verifier::spinoff_prover]
#[verifier::rlimit(100)]
proof fn lemma_class_ok_excludes_err(b: Seq<u8>, c1: Class, e2: ParseError)
    requires
        b.len() >= 8,
        class_file_at(b, Ok(c1)),
    ensures
        !class_file_at(b, Err(e2)),
{
    if !class_file_at(b, Err(e2)) {
        return ;
    }
    reveal(class_body_at);
    let (p1a, p3a, p4a, p5a) = choose|p1: int, p3: int, p4: int, p5: int|
        #[trigger] boundaries(p1, p3, p4, p5) && class_body_at(b, c1, p1, p3, p4, p5);
    if cp_section_at(b, 8, Err(e2)) {
        lemma_cp_section_at_det(b, 8, Ok((c1.constant_pool@, p1a)), Err(e2));
    } else {
        let (pe, p1e) = choose|pool: Seq<ConstantPoolInfo>, p1: int|
            8 < p1 <= b.len() && #[trigger] cp_section_at(b, 8, Ok((pool, p1))) && (if p1
                + 8 > b.len() {
                e2 == ParseError::Io
            } else {
                if p1 + 8 + 2 * be_u16(b, p1 + 6) > b.len() {
                    e2 == ParseError::Io
                } else {
                    fails_from_fields(b, pool, p1 + 8 + 2 * be_u16(b, p1 + 6), e2)
                }
            });
        lemma_cp_section_at_det(b, 8, Ok((c1.constant_pool@, p1a)), Ok((pe, p1e)));
        let p2 = p1a + 8 + 2 * be_u16(b, p1a + 6);
        if fields_section_at(b, pe, p2, Err(e2)) {
            lemma_fields_section_at_det(b, c1.constant_pool@, pe, p2,
                Ok((c1.fields@, p3a)), Err(e2));
        } else {
            let (fs2, p3e) = choose|fs: Seq<Field>, p3: int|
                p2 <= p3 <= b.len() && #[trigger] fields_section_at(b, pe, p2,
                    Ok((fs, p3))) && (methods_section_at(b, pe, p3, Err(e2)) || exists|
                    ms: Seq<Method>,
                    p4: int,
                |
                    p3 <= p4 <= b.len() && #[trigger] methods_section_at(b, pe, p3,
                        Ok((ms, p4))) && attrs_section_at(b, pe, p4, Err(e2)));
            lemma_fields_section_at_det(b, c1.constant_pool@, pe, p2,
                Ok((c1.fields@, p3a)), Ok((fs2, p3e)));
            if methods_section_at(b, pe, p3a, Err(e2)) {
                lemma_methods_section_at_det(b, c1.constant_pool@, pe, p3a,
                    Ok((c1.methods@, p4a)), Err(e2));
            } else {
                let (ms2, p4e) = choose|ms: Seq<Method>, p4: int|
                    p3a <= p4 <= b.len() && #[trigger] methods_section_at(b, pe, p3a,
                        Ok((ms, p4))) && attrs_section_at(b, pe, p4, Err(e2));
                lemma_methods_section_at_det(b, c1.constant_pool@, pe, p3a,
                    Ok((c1.methods@, p4a)), Ok((ms2, p4e)));
                lemma_attrs_section_at_det(b, c1.constant_pool@, pe, p4a,
                    Ok((c1.attributes@, p5a)), Err(e2));
            }
        }
    }
}

/// Two decoded classes from the same bytes are structurally equal.
#[verifier::spinoff_prover]
#[verifier::rlimit(100)]
proof fn lemma_class_oks_det(b: Seq<u8>, c1: Class, c2: Class)
    requires
        b.len() >= 8,
        class_file_at(b, Ok(c1)),
        class_file_at(b, Ok(c2)),
    ensures
        class_eq(c1, c2),
{
    reveal(class_body_at);
    let (p1a, p3a, p4a, p5a) = choose|p1: int, p3: int, p4: int, p5: int|
        #[trigger] boundaries(p1, p3, p4, p5) && class_body_at(b, c1, p1, p3, p4, p5);
    let (p1b, p3b, p4b, p5b) = choose|p1: int, p3: int, p4: int, p5: int|
        #[trigger] boundaries(p1, p3, p4, p5) && class_body_at(b, c2, p1, p3, p4, p5);
    lemma_cp_section_at_det(b, 8, Ok((c1.constant_pool@, p1a)),
        Ok((c2.constant_pool@, p1b)));
    assert(c1.interfaces@ =~= c2.interfaces@);
    let p2 = p1a + 8 + 2 * be_u16(b, p1a + 6);
    lemma_fields_section_at_det(b, c1.constant_pool@, c2.constant_pool@, p2,
        Ok((c1.fields@, p3a)), Ok((c2.fields@, p3b)));
    lemma_methods_section_at_det(b, c1.constant_pool@, c2.constant_pool@, p3a,
        Ok((c1.methods@, p4a)), Ok((c2.methods@, p4b)));
    lemma_attrs_section_at_det(b, c1.constant_pool@, c2.constant_pool@, p4a,
        Ok((c1.attributes@, p5a)), Ok((c2.attributes@, p5b)));
}

/// Two decode errors from the same bytes are equal.
#[verifier::spinoff_prover]
#[verifier::rlimit(100)]
proof fn lemma_class_errs_det(b: Seq<u8>, e1: ParseError, e2: ParseError)
    requires
        b.len() >= 8,
        class_file_at(b, Err(e1)),
        class_file_at(b, Err(e2)),
    ensures
        e1 == e2,
{
    if cp_section_at(b, 8, Err(e1)) && cp_section_at(b, 8, Err(e2)) {
        lemma_cp_section_at_det(b, 8, Err(e1), Err(e2));
    } else if cp_section_at(b, 8, Err(e1)) {
        let (pe, p1e) = choose|pool: Seq<ConstantPoolInfo>, p1: int|
            8 < p1 <= b.len() && #[trigger] cp_section_at(b, 8, Ok((pool, p1)));
        lemma_cp_section_at_det(b, 8, Err(e1), Ok((pe, p1e)));
    } else if cp_section_at(b, 8, Err(e2)) {
        let (pe, p1e) = choose|pool: Seq<ConstantPoolInfo>, p1: int|
            8 < p1 <= b.len() && #[trigger] cp_section_at(b, 8, Ok((pool, p1)));
        lemma_cp_section_at_det(b, 8, Ok((pe, p1e)), Err(e2));
    } else {
        let (pa, p1a) = choose|pool: Seq<ConstantPoolInfo>, p1: int|
            8 < p1 <= b.len() && #[trigger] cp_section_at(b, 8, Ok((pool, p1))) && (if p1
                + 8 > b.len() {
                e1 == ParseError::Io
            } else {
                if p1 + 8 + 2 * be_u16(b, p1 + 6) > b.len() {
                    e1 == ParseError::Io
                } else {
                    fails_from_fields(b, pool, p1 + 8 + 2 * be_u16(b, p1 + 6), e1)
                }
            });
        let (pb, p1b) = choose|pool: Seq<ConstantPoolInfo>, p1: int|
            8 < p1 <= b.len() && #[trigger] cp_section_at(b, 8, Ok((pool, p1))) && (if p1
                + 8 > b.len() {
                e2 == ParseError::Io
            } else {
                if p1 + 8 + 2 * be_u16(b, p1 + 6) > b.len() {
                    e2 == ParseError::Io
                } else {
                    fails_from_fields(b, pool, p1 + 8 + 2 * be_u16(b, p1 + 6), e2)
                }
            });
        lemma_cp_section_at_det(b, 8, Ok((pa, p1a)), Ok((pb, p1b)));
        if p1a + 8 > b.len() {
        } else if p1a + 8 + 2 * be_u16(b, p1a + 6) > b.len() {
        } else {
            lemma_fails_from_fields_det(b, pa, pb, p1a + 8 + 2 * be_u16(b, p1a + 6), e1,
                e2);
        }
    }
}

/// Decoding a whole class file is deterministic: the same bytes yield the
/// same error, or structurally equal classes. Decoding the same byte
/// sequence twice therefore yields structurally equal results.
pub proof fn lemma_class_file_deterministic(
    b: Seq<u8>,
    o1: Result<Class, ParseError>,
    o2: Result<Class, ParseError>,
)
    requires
        class_file_at(b, o1),
        class_file_at(b, o2),
    ensures
        match (o1, o2) {
            (Ok(c1), Ok(c2)) => class_eq(c1, c2),
            (Err(x), Err(y)) => x == y,
            _ => false,
        },
{
    if b.len() < 8 {
        return ;
    }
    match (o1, o2) {
        (Ok(c1), Ok(c2)) => {
            lemma_class_oks_det(b, c1, c2);
        },
        (Ok(c1), Err(e2)) => {
            lemma_class_ok_excludes_err(b, c1, e2);
        },
        (Err(e1), Ok(c2)) => {
            lemma_class_ok_excludes_err(b, c2, e1);
        },
        (Err(e1), Err(e2)) => {
            lemma_class_errs_det(b, e1, e2);
        },
    }
}

/// One of the verification types decoded from a prefix also decodes from the whole
/// input.
pub proof fn lemma_vtype_at_mono(bp: Seq<u8>, b: Seq<u8>, pos: int, v: VerificationType, end: int)
    requires
        bp.len() <= b.len(),
        0 <= pos,
        forall|i: int| 0 <= i < bp.len() ==> bp[i] == #[trigger] b[i],
        vtype_at(bp, pos, Ok((v, end))),
    ensures
        vtype_at(b, pos, Ok((v, end))),
{
}


/// A span of verification types decoded from a prefix also decodes from the whole
/// input.
pub proof fn lemma_span_vts_mono(bp: Seq<u8>, b: Seq<u8>, lo: int, hi: int, s: Seq<VerificationType>)
    requires
        bp.len() <= b.len(),
        0 <= lo,
        forall|i: int| 0 <= i < bp.len() ==> bp[i] == #[trigger] b[i],
        span_vts(bp, lo, hi, s),
    ensures
        span_vts(b, lo, hi, s),
    decreases bp.len() - lo, 1int,
{
    if s.len() == 0 {
    } else {
        let m = choose|m: int|
            lo < m <= bp.len() && #[trigger] vtype_at(bp, lo, Ok((s[0], m)))
                && span_vts(bp, m, hi, s.drop_first());
        lemma_vtype_at_mono(bp, b, lo, s[0], m);
        lemma_span_vts_mono(bp, b, m, hi, s.drop_first());
        assert(true && lo < m <= b.len() && vtype_at(b, lo, Ok((s[0], m)))
            && span_vts(b, m, hi, s.drop_first()));
    }
}


/// One of the type-path steps decoded from a prefix also decodes from the whole
/// input.
pub proof fn lemma_path_element_at_mono(bp: Seq<u8>, b: Seq<u8>, pos: int, v: PathElement, end: int)
    requires
        bp.len() <= b.len(),
        0 <= pos,
        forall|i: int| 0 <= i < bp.len() ==> bp[i] == #[trigger] b[i],
        path_element_at(bp, pos, Ok((v, end))),
    ensures
        path_element_at(b, pos, Ok((v, end))),
{
}


/// A span of type-path steps decoded from a prefix also decodes from the whole
/// input.
pub proof fn lemma_span_path_elems_mono(bp: Seq<u8>, b: Seq<u8>, lo: int, hi: int, s: Seq<PathElement>)
    requires
        bp.len() <= b.len(),
        0 <= lo,
        forall|i: int| 0 <= i < bp.len() ==> bp[i] == #[trigger] b[i],
        span_path_elems(bp, lo, hi, s),
    ensures
        span_path_elems(b, lo, hi, s),
    decreases bp.len() - lo, 1int,
{
    if s.len() == 0 {
    } else {
        let m = choose|m: int|
            lo < m <= bp.len() && #[trigger] path_element_at(bp, lo, Ok((s[0], m)))
                && span_path_elems(bp, m, hi, s.drop_first());
        lemma_path_element_at_mono(bp, b, lo, s[0], m);
        lemma_span_path_elems_mono(bp, b, m, hi, s.drop_first());
        assert(true && lo < m <= b.len() && path_element_at(b, lo, Ok((s[0], m)))
            && span_path_elems(b, m, hi, s.drop_first()));
    }
}


/// One of the bootstrap-method records decoded from a prefix also decodes from the whole
/// input.
pub proof fn lemma_bootstrap_method_at_mono(bp: Seq<u8>, b: Seq<u8>, pos: int, v: BootstrapMethod, end: int)
    requires
        bp.len() <= b.len(),
        0 <= pos,
        forall|i: int| 0 <= i < bp.len() ==> bp[i] == #[trigger] b[i],
        bootstrap_method_at(bp, pos, Ok((v, end))),
    ensures
        bootstrap_method_at(b, pos, Ok((v, end))),
{
}


/// A span of bootstrap methods decoded from a prefix also decodes from the whole
/// input.
pub proof fn lemma_span_bsms_mono(bp: Seq<u8>, b: Seq<u8>, lo: int, hi: int, s: Seq<BootstrapMethod>)
    requires
        bp.len() <= b.len(),
        0 <= lo,
        forall|i: int| 0 <= i < bp.len() ==> bp[i] == #[trigger] b[i],
        span_bsms(bp, lo, hi, s),
    ensures
        span_bsms(b, lo, hi, s),
    decreases bp.len() - lo, 1int,
{
    if s.len() == 0 {
    } else {
        let m = choose|m: int|
            lo < m <= bp.len() && #[trigger] bootstrap_method_at(bp, lo, Ok((s[0], m)))
                && span_bsms(bp, m, hi, s.drop_first());
        lemma_bootstrap_method_at_mono(bp, b, lo, s[0], m);
        lemma_span_bsms_mono(bp, b, m, hi, s.drop_first());
        assert(true && lo < m <= b.len() && bootstrap_method_at(b, lo, Ok((s[0], m)))
            && span_bsms(b, m, hi, s.drop_first()));
    }
}


/// One of the stack-map frames decoded from a prefix also decodes from the whole
/// input.
pub proof fn lemma_frame_at_mono(bp: Seq<u8>, b: Seq<u8>, pos: int, v: StackMapFrame, end: int)
    requires
        bp.len() <= b.len(),
        0 <= pos,
        forall|i: int| 0 <= i < bp.len() ==> bp[i] == #[trigger] b[i],
        frame_at(bp, pos, Ok((v, end))),
    ensures
        frame_at(b, pos, Ok((v, end))),
{
    let ft = bp[pos];
    if 64 <= ft && ft <= 127 {
        match v {
            StackMapFrame::SameLocals1StackItemFrame(vt) => {
                lemma_vtype_at_mono(bp, b, pos + 1, vt, end);
            },
            _ => {},
        }
    } else if ft == 247 && pos + 3 <= bp.len() {
        match v {
            StackMapFrame::SameLocals1StackItemFrameExtended { stack, .. } => {
                lemma_vtype_at_mono(bp, b, pos + 3, stack, end);
            },
            _ => {},
        }
    } else if 252 <= ft && ft <= 254 && pos + 3 <= bp.len() {
        match v {
            StackMapFrame::AppendFrame { locals, .. } => {
                lemma_span_vts_mono(bp, b, pos + 3, end, locals@);
            },
            _ => {},
        }
    } else if ft == 255 && pos + 5 <= bp.len() {
        match v {
            StackMapFrame::FullFrame { locals, stack, .. } => {
                let q = choose|mid: int|
                    #[trigger] boundary(pos, mid) && pos + 5 <= mid && mid + 2 <= bp.len()
                        && span_vts(bp, pos + 5, mid, locals@) && stack@.len() == be_u16(bp, mid)
                        && span_vts(bp, mid + 2, end, stack@);
                lemma_span_vts_mono(bp, b, pos + 5, q, locals@);
                lemma_span_vts_mono(bp, b, q + 2, end, stack@);
                assert(boundary(pos, q) && pos + 5 <= q && q + 2 <= b.len()
                    && span_vts(b, pos + 5, q, locals@) && stack@.len() == be_u16(b, q)
                    && span_vts(b, q + 2, end, stack@));
            },
            _ => {},
        }
    }
}


/// A span of stack-map frames decoded from a prefix also decodes from the whole
/// input.
pub proof fn lemma_span_frames_mono(bp: Seq<u8>, b: Seq<u8>, lo: int, hi: int, s: Seq<StackMapFrame>)
    requires
        bp.len() <= b.len(),
        0 <= lo,
        forall|i: int| 0 <= i < bp.len() ==> bp[i] == #[trigger] b[i],
        span_frames(bp, lo, hi, s),
    ensures
        span_frames(b, lo, hi, s),
    decreases bp.len() - lo, 1int,
{
    if s.len() == 0 {
    } else {
        let m = choose|m: int|
            lo < m <= bp.len() && #[trigger] frame_at(bp, lo, Ok((s[0], m)))
                && span_frames(bp, m, hi, s.drop_first());
        lemma_frame_at_mono(bp, b, lo, s[0], m);
        lemma_span_frames_mono(bp, b, m, hi, s.drop_first());
        assert(true && lo < m <= b.len() && frame_at(b, lo, Ok((s[0], m)))
            && span_frames(b, m, hi, s.drop_first()));
    }
}


/// One of the annotations decoded from a prefix also decodes from the whole
/// input.
pub proof fn lemma_annotation_at_mono(bp: Seq<u8>, b: Seq<u8>, pos: int, v: Annotation, end: int)
    requires
        bp.len() <= b.len(),
        0 <= pos,
        forall|i: int| 0 <= i < bp.len() ==> bp[i] == #[trigger] b[i],
        annotation_at(bp, pos, Ok((v, end))),
    ensures
        annotation_at(b, pos, Ok((v, end))),
    decreases bp.len() - pos, 0int,
{
    if pos + 4 > bp.len() {
    } else {
        lemma_span_evps_mono(bp, b, pos + 4, end, v.element_value_pairs@);
    }
}


/// One of the element-value pairs decoded from a prefix also decodes from the whole
/// input.
pub proof fn lemma_evpair_at_mono(bp: Seq<u8>, b: Seq<u8>, pos: int, v: ElementValuePair, end: int)
    requires
        bp.len() <= b.len(),
        0 <= pos,
        forall|i: int| 0 <= i < bp.len() ==> bp[i] == #[trigger] b[i],
        evpair_at(bp, pos, Ok((v, end))),
    ensures
        evpair_at(b, pos, Ok((v, end))),
    decreases bp.len() - pos, 0int,
{
    if pos + 2 > bp.len() {
    } else {
        lemma_element_value_at_mono(bp, b, pos + 2, v.value, end);
    }
}


/// One of the element values decoded from a prefix also decodes from the whole
/// input.
pub proof fn lemma_element_value_at_mono(bp: Seq<u8>, b: Seq<u8>, pos: int, v: ElementValue, end: int)
    requires
        bp.len() <= b.len(),
        0 <= pos,
        forall|i: int| 0 <= i < bp.len() ==> bp[i] == #[trigger] b[i],
        element_value_at(bp, pos, Ok((v, end))),
    ensures
        element_value_at(b, pos, Ok((v, end))),
    decreases bp.len() - pos, 0int,
{
    if pos + 1 > bp.len() {
    } else {
        let tag = bp[pos];
        if tag == 0x40 {
            match v {
                ElementValue::Annotation(a) => {
                    lemma_annotation_at_mono(bp, b, pos + 1, a, end);
                },
                _ => {},
            }
        } else if tag == 0x5B && pos + 3 <= bp.len() {
            match v {
                ElementValue::Array(xs) => {
                    lemma_span_evs_mono(bp, b, pos + 3, end, xs@);
                },
                _ => {},
            }
        }
    }
}

/// A span of element-value pairs decoded from a prefix also decodes from the whole
/// input.
pub proof fn lemma_span_evps_mono(bp: Seq<u8>, b: Seq<u8>, lo: int, hi: int, s: Seq<ElementValuePair>)
    requires
        bp.len() <= b.len(),
        0 <= lo,
        forall|i: int| 0 <= i < bp.len() ==> bp[i] == #[trigger] b[i],
        span_evps(bp, lo, hi, s),
    ensures
        span_evps(b, lo, hi, s),
    decreases bp.len() - lo, 1int,
{
    if s.len() == 0 {
    } else {
        let m = choose|m: int|
            #[trigger] boundary(lo, m) && lo < m <= bp.len() && evpair_at(bp, lo, Ok((s[0], m)))
                && span_evps(bp, m, hi, s.drop_first());
        lemma_evpair_at_mono(bp, b, lo, s[0], m);
        lemma_span_evps_mono(bp, b, m, hi, s.drop_first());
        assert(boundary(lo, m) && lo < m <= b.len() && evpair_at(b, lo, Ok((s[0], m)))
            && span_evps(b, m, hi, s.drop_first()));
    }
}


/// A span of element values decoded from a prefix also decodes from the whole
/// input.
pub proof fn lemma_span_evs_mono(bp: Seq<u8>, b: Seq<u8>, lo: int, hi: int, s: Seq<ElementValue>)
    requires
        bp.len() <= b.len(),
        0 <= lo,
        forall|i: int| 0 <= i < bp.len() ==> bp[i] == #[trigger] b[i],
        span_evs(bp, lo, hi, s),
    ensures
        span_evs(b, lo, hi, s),
    decreases bp.len() - lo, 1int,
{
    if s.len() == 0 {
    } else {
        let m = choose|m: int|
            #[trigger] boundary(lo, m) && lo < m <= bp.len() && element_value_at(bp, lo, Ok((s[0], m)))
                && span_evs(bp, m, hi, s.drop_first());
        lemma_element_value_at_mono(bp, b, lo, s[0], m);
        lemma_span_evs_mono(bp, b, m, hi, s.drop_first());
        assert(boundary(lo, m) && lo < m <= b.len() && element_value_at(b, lo, Ok((s[0], m)))
            && span_evs(b, m, hi, s.drop_first()));
    }
}


/// A span of annotations decoded from a prefix also decodes from the whole
/// input.
pub proof fn lemma_span_anns_mono(bp: Seq<u8>, b: Seq<u8>, lo: int, hi: int, s: Seq<Annotation>)
    requires
        bp.len() <= b.len(),
        0 <= lo,
        forall|i: int| 0 <= i < bp.len() ==> bp[i] == #[trigger] b[i],
        span_anns(bp, lo, hi, s),
    ensures
        span_anns(b, lo, hi, s),
    decreases bp.len() - lo, 1int,
{
    if s.len() == 0 {
    } else {
        let m = choose|m: int|
            #[trigger] boundary(lo, m) && lo < m <= bp.len() && annotation_at(bp, lo, Ok((s[0], m)))
                && span_anns(bp, m, hi, s.drop_first());
        lemma_annotation_at_mono(bp, b, lo, s[0], m);
        lemma_span_anns_mono(bp, b, m, hi, s.drop_first());
        assert(boundary(lo, m) && lo < m <= b.len() && annotation_at(b, lo, Ok((s[0], m)))
            && span_anns(b, m, hi, s.drop_first()));
    }
}


/// One per-parameter annotation list decoded from a prefix also decodes
/// from the whole input.
pub proof fn lemma_ann_group_at_mono(bp: Seq<u8>, b: Seq<u8>, pos: int, v: Vec<Annotation>, end: int)
    requires
        bp.len() <= b.len(),
        0 <= pos,
        forall|i: int| 0 <= i < bp.len() ==> bp[i] == #[trigger] b[i],
        ann_group_at(bp, pos, Ok((v, end))),
    ensures
        ann_group_at(b, pos, Ok((v, end))),
{
    if pos + 2 > bp.len() {
    } else {
        lemma_span_anns_mono(bp, b, pos + 2, end, v@);
    }
}


/// A span of per-parameter annotation lists decoded from a prefix also decodes from the whole
/// input.
pub proof fn lemma_span_ann_groups_mono(bp: Seq<u8>, b: Seq<u8>, lo: int, hi: int, s: Seq<Vec<Annotation>>)
    requires
        bp.len() <= b.len(),
        0 <= lo,
        forall|i: int| 0 <= i < bp.len() ==> bp[i] == #[trigger] b[i],
        span_ann_groups(bp, lo, hi, s),
    ensures
        span_ann_groups(b, lo, hi, s),
    decreases bp.len() - lo, 1int,
{
    if s.len() == 0 {
    } else {
        let m = choose|m: int|
            lo < m <= bp.len() && #[trigger] ann_group_at(bp, lo, Ok((s[0], m)))
                && span_ann_groups(bp, m, hi, s.drop_first());
        lemma_ann_group_at_mono(bp, b, lo, s[0], m);
        lemma_span_ann_groups_mono(bp, b, m, hi, s.drop_first());
        assert(true && lo < m <= b.len() && ann_group_at(b, lo, Ok((s[0], m)))
            && span_ann_groups(b, m, hi, s.drop_first()));
    }
}


/// One target-info payload decoded from a prefix also decodes from the
/// whole input.
pub proof fn lemma_target_info_at_mono(bp: Seq<u8>, b: Seq<u8>, tag: u8, pos: int, v: TargetInfo, end: int)
    requires
        bp.len() <= b.len(),
        0 <= pos,
        forall|i: int| 0 <= i < bp.len() ==> bp[i] == #[trigger] b[i],
        target_info_at(bp, tag, pos, Ok((v, end))),
    ensures
        target_info_at(b, tag, pos, Ok((v, end))),
{
    match v {
        TargetInfo::Localvar(t) => {
        },
        _ => {},
    }
}


/// One type annotation decoded from a prefix also decodes from the whole
/// input.
pub proof fn lemma_type_annotation_at_mono(bp: Seq<u8>, b: Seq<u8>, pos: int, v: TypeAnnotation, end: int)
    requires
        bp.len() <= b.len(),
        0 <= pos,
        forall|i: int| 0 <= i < bp.len() ==> bp[i] == #[trigger] b[i],
        type_annotation_at(bp, pos, Ok((v, end))),
    ensures
        type_annotation_at(b, pos, Ok((v, end))),
{
    if pos + 1 > bp.len() {
    } else {
        let tag = bp[pos];
        if target_type_of(tag) is Some {
            let (q, mid) = choose|q: int, mid: int|
                #[trigger] boundary(q, mid) && tann_rest_at(bp, tag, pos, v, q, mid, end);
            lemma_target_info_at_mono(bp, b, tag, pos + 1, v.target_info, q);
            lemma_span_path_elems_mono(bp, b, q + 1, mid, v.type_path.path@);
            lemma_span_evps_mono(bp, b, mid + 4, end, v.element_value_pairs@);
            assert(boundary(q, mid) && tann_rest_at(b, tag, pos, v, q, mid, end));
        }
    }
}


/// A span of type annotations decoded from a prefix also decodes from the whole
/// input.
pub proof fn lemma_span_tanns_mono(bp: Seq<u8>, b: Seq<u8>, lo: int, hi: int, s: Seq<TypeAnnotation>)
    requires
        bp.len() <= b.len(),
        0 <= lo,
        forall|i: int| 0 <= i < bp.len() ==> bp[i] == #[trigger] b[i],
        span_tanns(bp, lo, hi, s),
    ensures
        span_tanns(b, lo, hi, s),
    decreases bp.len() - lo, 1int,
{
    if s.len() == 0 {
    } else {
        let m = choose|m: int|
            lo < m <= bp.len() && #[trigger] type_annotation_at(bp, lo, Ok((s[0], m)))
                && span_tanns(bp, m, hi, s.drop_first());
        lemma_type_annotation_at_mono(bp, b, lo, s[0], m);
        lemma_span_tanns_mono(bp, b, m, hi, s.drop_first());
        assert(true && lo < m <= b.len() && type_annotation_at(b, lo, Ok((s[0], m)))
            && span_tanns(b, m, hi, s.drop_first()));
    }
}


/// One constant-pool record decoded from a prefix also decodes from the
/// whole input.
pub proof fn lemma_cp_entry_at_mono(bp: Seq<u8>, b: Seq<u8>, pos: int, v: ConstantPoolInfo, end: int)
    requires
        bp.len() <= b.len(),
        0 <= pos,
        forall|i: int| 0 <= i < bp.len() ==> bp[i] == #[trigger] b[i],
        cp_entry_at(bp, pos, Ok((v, end))),
    ensures
        cp_entry_at(b, pos, Ok((v, end))),
{
    if pos + 1 <= bp.len() && bp[pos] == 1 && pos + 3 <= bp.len() && pos + 3 + be_u16(bp, pos + 1)
        <= bp.len() {
        assert(bp.subrange(pos + 3, pos + 3 + be_u16(bp, pos + 1)) =~= b.subrange(pos + 3, pos + 3
            + be_u16(b, pos + 1)));
    }
}

/// A pool span decoded from a prefix also decodes from the whole input.
pub proof fn lemma_span_cp_mono(bp: Seq<u8>, b: Seq<u8>, lo: int, hi: int, s: Seq<ConstantPoolInfo>)
    requires
        bp.len() <= b.len(),
        0 <= lo,
        forall|i: int| 0 <= i < bp.len() ==> bp[i] == #[trigger] b[i],
        span_cp(bp, lo, hi, s),
    ensures
        span_cp(b, lo, hi, s),
    decreases s.len(),
{
    if s.len() == 0 {
    } else {
        let m = lemma_span_cp_destruct(bp, lo, hi, s);
        lemma_cp_entry_at_mono(bp, b, lo, s[0], m);
        if s[0] is Long || s[0] is Double {
            lemma_span_cp_mono(bp, b, m, hi, s.skip(2));
        } else {
            lemma_span_cp_mono(bp, b, m, hi, s.drop_first());
        }
        assert(lo < m <= b.len() && cp_entry_at(b, lo, Ok((s[0], m))) && (if s[0] is Long || s[0]
            is Double {
            s.len() >= 2 && s[1] == ConstantPoolInfo::Invalid && span_cp(b, m, hi, s.skip(2))
        } else {
            span_cp(b, m, hi, s.drop_first())
        }));
    }
}

/// A constant-pool section decoded from a prefix also decodes from the
/// whole input.
pub proof fn lemma_cp_section_at_mono(bp: Seq<u8>, b: Seq<u8>, pos: int, s: Seq<ConstantPoolInfo>, end: int)
    requires
        bp.len() <= b.len(),
        0 <= pos,
        forall|i: int| 0 <= i < bp.len() ==> bp[i] == #[trigger] b[i],
        cp_section_at(bp, pos, Ok((s, end))),
    ensures
        cp_section_at(b, pos, Ok((s, end))),
{
    if pos + 2 > bp.len() {
    } else {
        lemma_span_cp_mono(bp, b, pos + 2, end, s);
    }
}

/// A span of attributes decoded from a prefix also decodes from the whole
/// input.
pub proof fn lemma_span_attrs_mono(
    bp: Seq<u8>,
    b: Seq<u8>,
    pool: Seq<ConstantPoolInfo>,
    lo: int,
    hi: int,
    s: Seq<Attribute>,
)
    requires
        bp.len() <= b.len(),
        0 <= lo,
        forall|i: int| 0 <= i < bp.len() ==> bp[i] == #[trigger] b[i],
        span_attrs(bp, pool, lo, hi, s),
    ensures
        span_attrs(b, pool, lo, hi, s),
    decreases bp.len() - lo, 1int,
{
    if s.len() == 0 {
    } else {
        let m = choose|m: int|
            #[trigger] boundary(lo, m) && lo < m <= bp.len() && attribute_at(bp, pool, lo, Ok((s[0],
                m))) && span_attrs(bp, pool, m, hi, s.drop_first());
        lemma_attribute_at_mono(bp, b, pool, lo, s[0], m);
        lemma_span_attrs_mono(bp, b, pool, m, hi, s.drop_first());
        assert(boundary(lo, m) && lo < m <= b.len() && attribute_at(b, pool, lo, Ok((s[0], m)))
            && span_attrs(b, pool, m, hi, s.drop_first()));
    }
}

/// A span of field-table entries decoded from a prefix also decodes from the whole
/// input.
pub proof fn lemma_span_fields_mono(
    bp: Seq<u8>,
    b: Seq<u8>,
    pool: Seq<ConstantPoolInfo>,
    lo: int,
    hi: int,
    s: Seq<Field>,
)
    requires
        bp.len() <= b.len(),
        0 <= lo,
        forall|i: int| 0 <= i < bp.len() ==> bp[i] == #[trigger] b[i],
        span_fields(bp, pool, lo, hi, s),
    ensures
        span_fields(b, pool, lo, hi, s),
    decreases bp.len() - lo, 1int,
{
    if s.len() == 0 {
    } else {
        let m = choose|m: int|
            lo < m <= bp.len() && #[trigger] field_at(bp, pool, lo, Ok((s[0], m)))
                && span_fields(bp, pool, m, hi, s.drop_first());
        lemma_field_at_mono(bp, b, pool, lo, s[0], m);
        lemma_span_fields_mono(bp, b, pool, m, hi, s.drop_first());
        assert(true && lo < m <= b.len() && field_at(b, pool, lo, Ok((s[0], m)))
            && span_fields(b, pool, m, hi, s.drop_first()));
    }
}

/// A span of method-table entries decoded from a prefix also decodes from the whole
/// input.
pub proof fn lemma_span_methods_mono(
    bp: Seq<u8>,
    b: Seq<u8>,
    pool: Seq<ConstantPoolInfo>,
    lo: int,
    hi: int,
    s: Seq<Method>,
)
    requires
        bp.len() <= b.len(),
        0 <= lo,
        forall|i: int| 0 <= i < bp.len() ==> bp[i] == #[trigger] b[i],
        span_methods(bp, pool, lo, hi, s),
    ensures
        span_methods(b, pool, lo, hi, s),
    decreases bp.len() - lo, 1int,
{
    if s.len() == 0 {
    } else {
        let m = choose|m: int|
            lo < m <= bp.len() && #[trigger] method_at(bp, pool, lo, Ok((s[0], m)))
                && span_methods(bp, pool, m, hi, s.drop_first());
        lemma_method_at_mono(bp, b, pool, lo, s[0], m);
        lemma_span_methods_mono(bp, b, pool, m, hi, s.drop_first());
        assert(true && lo < m <= b.len() && method_at(b, pool, lo, Ok((s[0], m)))
            && span_methods(b, pool, m, hi, s.drop_first()));
    }
}

/// One attribute decoded from a prefix also decodes from the whole input.
#[verifier::spinoff_prover]
#[verifier::rlimit(100)]
pub proof fn lemma_attribute_at_mono(
    bp: Seq<u8>,
    b: Seq<u8>,
    pool: Seq<ConstantPoolInfo>,
    pos: int,
    v: Attribute,
    end: int,
)
    requires
        bp.len() <= b.len(),
        0 <= pos,
        forall|i: int| 0 <= i < bp.len() ==> bp[i] == #[trigger] b[i],
        attribute_at(bp, pool, pos, Ok((v, end))),
    ensures
        attribute_at(b, pool, pos, Ok((v, end))),
    decreases bp.len() - pos, 0int,
{
    if pos + 6 > bp.len() {
        return ;
    }
    let ni = be_u16(bp, pos);
    if ni == 0 || ni > pool.len() {
        return ;
    }
    if !(pool[ni - 1] is Utf8) {
        return ;
    }
    let name = pool[ni - 1]->Utf8_0@;
    let p = pos + 6;
        if name == "Code"@ {
            lemma_code_attribute_at_mono(bp, b, pool, p, v, end);
        } else if name == "ConstantValue"@ {
        
        } else if name == "StackMapTable"@ {
            match v {
                Attribute::StackMapTable(xs) => {
                    lemma_span_frames_mono(bp, b, p + 2, end, xs@);
                },
                _ => {},
            }
        } else if name == "Exceptions"@ {
            match v {
                Attribute::Exceptions { exception_index_table: xs } => {
                    assert(u16s_at(b, p + 2, be_u16(bp, p), xs@));
                },
                _ => {},
            }
        } else if name == "InnerClasses"@ {
            match v {
                Attribute::InnerClasses { classes: xs } => {
                    assert(inner_classes_at(b, p + 2, be_u16(bp, p), xs@));
                },
                _ => {},
            }
        } else if name == "EnclosingMethod"@ {
        
        } else if name == "Synthetic"@ {
        
        } else if name == "Signature"@ {
        
        } else if name == "SourceFile"@ {
        
        } else if name == "SourceDebugExtension"@ {
            match v {
                Attribute::SourceDebugExtension(d) => {
                    assert(bp.subrange(p, p + be_u32(bp, pos + 2)) =~= b.subrange(p, p + be_u32(b,
                        pos + 2)));
                },
                _ => {},
            }
        } else if name == "LineNumberTable"@ {
            match v {
                Attribute::LineNumberTable(xs) => {
                    assert(line_numbers_at(b, p + 2, be_u16(bp, p), xs@));
                },
                _ => {},
            }
        } else if name == "LocalVariableTable"@ {
            match v {
                Attribute::LocalVariableTable(xs) => {
                    assert(local_vars_at(b, p + 2, be_u16(bp, p), xs@));
                },
                _ => {},
            }
        } else if name == "LocalVariableTypeTable"@ {
            match v {
                Attribute::LocalVariableTypeTable(xs) => {
                    assert(local_vars_at(b, p + 2, be_u16(bp, p), xs@));
                },
                _ => {},
            }
        } else if name == "Deprecated"@ {
        
        } else if name == "RuntimeVisibleAnnotations"@ {
            match v {
                Attribute::RuntimeVisibleAnnotations(xs) => {
                    lemma_span_anns_mono(bp, b, p + 2, end, xs@);
                },
                _ => {},
            }
        } else if name == "RuntimeInvisibleAnnotations"@ {
            match v {
                Attribute::RuntimeInvisibleAnnotations(xs) => {
                    lemma_span_anns_mono(bp, b, p + 2, end, xs@);
                },
                _ => {},
            }
        } else if name == "RuntimeVisibleParameterAnnotations"@ {
            match v {
                Attribute::RuntimeVisibleParameterAnnotations(xs) => {
                    lemma_span_ann_groups_mono(bp, b, p + 1, end, xs@);
                },
                _ => {},
            }
        } else if name == "RuntimeInvisibleParameterAnnotations"@ {
            match v {
                Attribute::RuntimeInvisibleParameterAnnotations(xs) => {
                    lemma_span_ann_groups_mono(bp, b, p + 1, end, xs@);
                },
                _ => {},
            }
        } else if name == "RuntimeVisibleTypeAnnotations"@ {
            match v {
                Attribute::RuntimeVisibleTypeAnnotations(xs) => {
                    lemma_span_tanns_mono(bp, b, p + 2, end, xs@);
                },
                _ => {},
            }
        } else if name == "RuntimeInvisibleTypeAnnotations"@ {
            match v {
                Attribute::RuntimeInvisibleTypeAnnotations(xs) => {
                    lemma_span_tanns_mono(bp, b, p + 2, end, xs@);
                },
                _ => {},
            }
        } else if name == "AnnotationDefault"@ {
            match v {
                Attribute::AnnotationDefault { element_value } => {
                    lemma_element_value_at_mono(bp, b, p, element_value, end);
                },
                _ => {},
            }
        } else if name == "BootstrapMethods"@ {
            match v {
                Attribute::BootstrapMethods(xs) => {
                    lemma_span_bsms_mono(bp, b, p + 2, end, xs@);
                },
                _ => {},
            }
        } else if name == "MethodParameters"@ {
            match v {
                Attribute::MethodParameters(xs) => {
                    assert(method_params_at(b, p + 1, bp[p] as int, xs@));
                },
                _ => {},
            }
        } else {
            match v {
                Attribute::Unknown(d) => {
                    assert(bp.subrange(p, p + be_u32(bp, pos + 2)) =~= b.subrange(p, p + be_u32(b,
                        pos + 2)));
                },
                _ => {},
            }
        }
}

/// A `Code` attribute body decoded from a prefix also decodes from the
/// whole input.
pub proof fn lemma_code_attribute_at_mono(
    bp: Seq<u8>,
    b: Seq<u8>,
    pool: Seq<ConstantPoolInfo>,
    p: int,
    v: Attribute,
    end: int,
)
    requires
        bp.len() <= b.len(),
        0 <= p,
        forall|i: int| 0 <= i < bp.len() ==> bp[i] == #[trigger] b[i],
        code_attribute_at(bp, pool, p, Ok((v, end))),
    ensures
        code_attribute_at(b, pool, p, Ok((v, end))),
    decreases bp.len() - p, 0int,
{
    if p + 8 > bp.len() {
        return ;
    }
    let cl = be_u32(bp, p + 4);
    if p + 8 + cl > bp.len() {
        return ;
    }
    let q = p + 8 + cl;
    if q + 2 > bp.len() {
        return ;
    }
    let ec = be_u16(bp, q);
    if q + 2 + 8 * ec > bp.len() {
        return ;
    }
    let r0 = q + 2 + 8 * ec;
    assert(bp.subrange(p + 8, p + 8 + cl) =~= b.subrange(p + 8, p + 8 + be_u32(b, p + 4)));
    match v {
        Attribute::Code { exception_table, attributes, .. } => {
            assert(exceptions_at(b, q + 2, ec, exception_table@));
            lemma_attrs_section_at_mono(bp, b, pool, r0, attributes@, end);
        },
        _ => {},
    }
}

/// A count-prefixed attribute list decoded from a prefix also decodes from
/// the whole input.
pub proof fn lemma_attrs_section_at_mono(
    bp: Seq<u8>,
    b: Seq<u8>,
    pool: Seq<ConstantPoolInfo>,
    pos: int,
    s: Seq<Attribute>,
    end: int,
)
    requires
        bp.len() <= b.len(),
        0 <= pos,
        forall|i: int| 0 <= i < bp.len() ==> bp[i] == #[trigger] b[i],
        attrs_section_at(bp, pool, pos, Ok((s, end))),
    ensures
        attrs_section_at(b, pool, pos, Ok((s, end))),
    decreases bp.len() - pos, 0int,
{
    if pos + 2 > bp.len() {
    } else {
        lemma_span_attrs_mono(bp, b, pool, pos + 2, end, s);
    }
}

/// One field-table entry decoded from a prefix also decodes from the whole
/// input.
pub proof fn lemma_field_at_mono(
    bp: Seq<u8>,
    b: Seq<u8>,
    pool: Seq<ConstantPoolInfo>,
    pos: int,
    v: Field,
    end: int,
)
    requires
        bp.len() <= b.len(),
        0 <= pos,
        forall|i: int| 0 <= i < bp.len() ==> bp[i] == #[trigger] b[i],
        field_at(bp, pool, pos, Ok((v, end))),
    ensures
        field_at(b, pool, pos, Ok((v, end))),
{
    if pos + 6 > bp.len() {
    } else {
        lemma_attrs_section_at_mono(bp, b, pool, pos + 6, v.attributes@, end);
    }
}

/// One method-table entry decoded from a prefix also decodes from the
/// whole input.
pub proof fn lemma_method_at_mono(
    bp: Seq<u8>,
    b: Seq<u8>,
    pool: Seq<ConstantPoolInfo>,
    pos: int,
    v: Method,
    end: int,
)
    requires
        bp.len() <= b.len(),
        0 <= pos,
        forall|i: int| 0 <= i < bp.len() ==> bp[i] == #[trigger] b[i],
        method_at(bp, pool, pos, Ok((v, end))),
    ensures
        method_at(b, pool, pos, Ok((v, end))),
{
    if pos + 6 > bp.len() {
    } else {
        lemma_attrs_section_at_mono(bp, b, pool, pos + 6, v.attributes@, end);
    }
}

/// A count-prefixed field table decoded from a prefix also decodes from
/// the whole input.
pub proof fn lemma_fields_section_at_mono(
    bp: Seq<u8>,
    b: Seq<u8>,
    pool: Seq<ConstantPoolInfo>,
    pos: int,
    s: Seq<Field>,
    end: int,
)
    requires
        bp.len() <= b.len(),
        0 <= pos,
        forall|i: int| 0 <= i < bp.len() ==> bp[i] == #[trigger] b[i],
        fields_section_at(bp, pool, pos, Ok((s, end))),
    ensures
        fields_section_at(b, pool, pos, Ok((s, end))),
{
    if pos + 2 > bp.len() {
    } else {
        lemma_span_fields_mono(bp, b, pool, pos + 2, end, s);
    }
}

/// A count-prefixed method table decoded from a prefix also decodes from
/// the whole input.
pub proof fn lemma_methods_section_at_mono(
    bp: Seq<u8>,
    b: Seq<u8>,
    pool: Seq<ConstantPoolInfo>,
    pos: int,
    s: Seq<Method>,
    end: int,
)
    requires
        bp.len() <= b.len(),
        0 <= pos,
        forall|i: int| 0 <= i < bp.len() ==> bp[i] == #[trigger] b[i],
        methods_section_at(bp, pool, pos, Ok((s, end))),
    ensures
        methods_section_at(b, pool, pos, Ok((s, end))),
{
    if pos + 2 > bp.len() {
    } else {
        lemma_span_methods_mono(bp, b, pool, pos + 2, end, s);
    }
}

/// Aligned decoded stages on the same bytes end at the same positions.
#[verifier::spinoff_prover]
#[verifier::rlimit(100)]
proof fn lemma_stages_align(
    b: Seq<u8>,
    c: Class,
    p1: int,
    p3: int,
    p4: int,
    p5: int,
    c2: Class,
    q1: int,
    q3: int,
    q4: int,
    q5: int,
)
    requires
        cp_section_at(b, 8, Ok((c.constant_pool@, p1))),
        cp_section_at(b, 8, Ok((c2.constant_pool@, q1))),
        8 < p1 <= b.len(),
        p1 + 8 + 2 * be_u16(b, p1 + 6) <= b.len(),
        fields_section_at(b, c.constant_pool@, p1 + 8 + 2 * be_u16(b, p1 + 6), Ok((c.fields@,
            p3))),
        fields_section_at(b, c2.constant_pool@, q1 + 8 + 2 * be_u16(b, q1 + 6), Ok((c2.fields@,
            q3))),
        methods_section_at(b, c.constant_pool@, p3, Ok((c.methods@, p4))),
        methods_section_at(b, c2.constant_pool@, q3, Ok((c2.methods@, q4))),
        attrs_section_at(b, c.constant_pool@, p4, Ok((c.attributes@, p5))),
        attrs_section_at(b, c2.constant_pool@, q4, Ok((c2.attributes@, q5))),
        0 <= p3,
        0 <= p4,
    ensures
        q5 == p5,
{
    lemma_cp_section_at_det(b, 8, Ok((c.constant_pool@, p1)), Ok((c2.constant_pool@, q1)));
    let p2 = p1 + 8 + 2 * be_u16(b, p1 + 6);
    lemma_fields_section_at_det(b, c.constant_pool@, c2.constant_pool@, p2, Ok((c.fields@, p3)),
        Ok((c2.fields@, q3)));
    lemma_methods_section_at_det(b, c.constant_pool@, c2.constant_pool@, p3, Ok((c.methods@,
        p4)), Ok((c2.methods@, q4)));
    lemma_attrs_section_at_det(b, c.constant_pool@, c2.constant_pool@, p4, Ok((c.attributes@,
        p5)), Ok((c2.attributes@, q5)));
}

/// A class decoded from a prefix also decodes from the whole input, with
/// every stage ending within the prefix.
#[verifier::spinoff_prover]
#[verifier::rlimit(100)]
proof fn lemma_class_ok_mono(bp: Seq<u8>, b: Seq<u8>, c2: Class)
    requires
        bp.len() <= b.len(),
        forall|i: int| 0 <= i < bp.len() ==> bp[i] == #[trigger] b[i],
        bp.len() >= 8,
        class_file_at(bp, Ok(c2)),
    ensures
        exists|q1: int, q3: int, q4: int, q5: int|
            #[trigger] boundaries(q1, q3, q4, q5) && class_body_at(b, c2, q1, q3, q4, q5) && q5
                <= bp.len(),
{
    reveal(class_body_at);
    let (q1, q3, q4, q5) = choose|p1x: int, p3x: int, p4x: int, p5x: int|
        #[trigger] boundaries(p1x, p3x, p4x, p5x) && class_body_at(bp, c2, p1x, p3x, p4x, p5x);
    lemma_cp_section_at_mono(bp, b, 8, c2.constant_pool@, q1);
    lemma_fields_section_at_mono(bp, b, c2.constant_pool@, q1 + 8 + 2 * be_u16(bp, q1 + 6),
        c2.fields@, q3);
    lemma_methods_section_at_mono(bp, b, c2.constant_pool@, q3, c2.methods@, q4);
    lemma_attrs_section_at_mono(bp, b, c2.constant_pool@, q4, c2.attributes@, q5);
    assert(be_u16(bp, q1 + 6) == be_u16(b, q1 + 6));
    assert(u16s_at(b, q1 + 8, be_u16(b, q1 + 6), c2.interfaces@));
    assert(boundaries(q1, q3, q4, q5) && class_body_at(b, c2, q1, q3, q4, q5) && q5 <= bp.len());
}

/// Truncating an image whose decode consumes every byte can never decode
/// successfully: every strict prefix fails.
#[verifier::spinoff_prover]
#[verifier::rlimit(100)]
pub proof fn lemma_truncation_never_decodes(
    b: Seq<u8>,
    c: Class,
    p1: int,
    p3: int,
    p4: int,
    p5: int,
    n: int,
    c2: Class,
)
    requires
        class_body_at(b, c, p1, p3, p4, p5),
        p5 == b.len(),
        0 <= n < b.len(),
    ensures
        !class_file_at(b.take(n), Ok(c2)),
{
    let bp = b.take(n);
    assert forall|i: int| 0 <= i < bp.len() implies bp[i] == #[trigger] b[i] by {
    }
    if bp.len() < 8 {
        return ;
    }
    if class_file_at(bp, Ok(c2)) {
        lemma_class_ok_mono(bp, b, c2);
        let (q1, q3, q4, q5) = choose|q1: int, q3: int, q4: int, q5: int|
            #[trigger] boundaries(q1, q3, q4, q5) && class_body_at(b, c2, q1, q3, q4, q5) && q5
                <= bp.len();
        reveal(class_body_at);
        lemma_stages_align(b, c, p1, p3, p4, p5, c2, q1, q3, q4, q5);
        assert(false);
    }
}

} // verus!
