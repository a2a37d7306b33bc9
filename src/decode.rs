//! Reading structured values back, driven by the shape the caller expects:
//! containers carry no length, so each element is preceded by a probe for the
//! closing marker.
use vstd::prelude::*;
use vstd::utf8::*;

use crate::error::{UbjError, UbjResult};
use crate::markers::UbjMarker;
use crate::reader::UbjReader;
use crate::shape::{
    conforms, conforms_all, conforms_each, conforms_entries, conforms_fields, conforms_payload,
    fits_here, lookup_field, lookup_variant, null_like, same, same_entries, same_fields, same_items,
    same_payload, shaped, shaped_all, shaped_each, shaped_entries, shaped_fields, shaped_payload,
    PayloadShape, Shape,
};
use crate::value::{entries_wire, fields_wire, items_wire, payload_wire, value_wire, Payload, Value};
use crate::wire::{
    be32, be64, from_be32_bits, from_be64_bits, int_wire, lemma_bits32, lemma_bits64,
    has_narrowed_int, lemma_int_wire, marked_string_wire, narrowed_failure, narrowed_len,
    narrowed_value, string_fits,
    unmarked_string_wire,
};

verus! {

/// `s` holds the bytes of `v`, which has shape `sh`, followed by `t`.
pub open spec fn encodes_as(v: Value, sh: Shape, s: Seq<u8>, t: Seq<u8>) -> bool {
    conforms(v, sh) && value_wire(v) is Ok && s == value_wire(v)->Ok_0 + t
}

/// The bytes of a value never open with a closing marker.
pub proof fn lemma_first_byte(v: Value)
    requires
        value_wire(v) is Ok,
    ensures
        value_wire(v)->Ok_0.len() > 0,
        value_wire(v)->Ok_0[0] != 0x5Du8,
        value_wire(v)->Ok_0[0] != 0x7Du8,
        UbjMarker::spec_from_byte(value_wire(v)->Ok_0[0]) is Some,
    decreases v,
{
    match v {
        Value::Present(x) => lemma_first_byte(*x),
        Value::NewtypeStruct(x) => lemma_first_byte(*x),
        _ => {},
    }
}

/// A value of a shape that cannot be written as a bare `Z` does not open with `Z`.
pub proof fn lemma_not_null(v: Value, sh: Shape)
    requires
        value_wire(v) is Ok,
        conforms(v, sh),
        !null_like(sh),
    ensures
        value_wire(v)->Ok_0.len() > 0,
        value_wire(v)->Ok_0[0] != 0x5Au8,
    decreases v,
{
    lemma_first_byte(v);
    match v {
        Value::NewtypeStruct(x) => {
            if let Shape::NewtypeStruct(inner) = sh {
                lemma_not_null(*x, *inner);
            }
        },
        _ => {},
    }
}

/// A string without marker reads back as itself: its narrowed length, then
/// exactly its well-formed bytes.
pub proof fn lemma_string_wire(x: Seq<char>, t: Seq<u8>)
    requires
        string_fits(x),
    ensures
        ({
            let u = unmarked_string_wire(x) + t;
            let b = encode_utf8(x);
            &&& crate::wire::has_narrowed_int(u)
            &&& narrowed_value(u) == b.len()
            &&& u.skip(narrowed_len(u) as int).take(b.len() as int) == b
            &&& u.skip(narrowed_len(u) as int).skip(b.len() as int) == t
            &&& valid_utf8(b)
            &&& decode_utf8(b) == x
        }),
{
    let b = encode_utf8(x);
    let n = b.len() as int;
    lemma_int_wire(n, b + t);
    assert(unmarked_string_wire(x) + t =~= int_wire(n) + (b + t));
    let u = unmarked_string_wire(x) + t;
    assert(u.skip(narrowed_len(u) as int) =~= b + t);
    assert((b + t).take(n) =~= b);
    assert((b + t).skip(n) =~= t);
    encode_utf8_valid_utf8(x);
    encode_utf8_decode_utf8(x);
}

proof fn lemma_i8_bits(x: i8)
    ensures
        ((x as u8) as i8) == x,
{
    assert(((x as u8) as i8) == x) by (bit_vector);
}

/// `s` holds the bytes of the elements `items`, each of shape `e`, then `]`,
/// then `t`.
pub open spec fn items_before(items: Seq<Value>, e: Shape, s: Seq<u8>, t: Seq<u8>) -> bool {
    conforms_all(items, e) && items_wire(items) is Ok && s == items_wire(items)->Ok_0 + seq![0x5Du8]
        + t
}

/// `s` holds the bytes of the elements `items`, one per shape, then `]`, then `t`.
pub open spec fn each_before(items: Seq<Value>, shapes: Seq<Shape>, s: Seq<u8>, t: Seq<u8>) -> bool {
    conforms_each(items, shapes) && items_wire(items) is Ok && s == items_wire(items)->Ok_0 + seq![
        0x5Du8,
    ] + t
}

/// `s` holds the bytes of the record fields `fields`, then `}`, then `t`.
pub open spec fn fields_before(
    fields: Seq<(String, Value)>,
    specs: Seq<(String, Shape)>,
    s: Seq<u8>,
    t: Seq<u8>,
) -> bool {
    conforms_fields(fields, specs) && fields_wire(fields) is Ok && s == fields_wire(fields)->Ok_0
        + seq![0x7Du8] + t
}

/// `s` holds the bytes of the map entries `entries`, then `}`, then `t`.
pub open spec fn entries_before(entries: Seq<(Value, Value)>, e: Shape, s: Seq<u8>, t: Seq<u8>) -> bool {
    conforms_entries(entries, e) && entries_wire(entries) is Ok && s == entries_wire(entries)->Ok_0
        + seq![0x7Du8] + t
}

/// `s` holds the bytes of the union payload `p`, then `t`.
pub open spec fn payload_before(p: Payload, ps: PayloadShape, s: Seq<u8>, t: Seq<u8>) -> bool {
    conforms_payload(p, ps) && payload_wire(p) is Ok && s == payload_wire(p)->Ok_0 + t
}

/// The position of the first field named `name`.
fn find_field(specs: &Vec<(String, Shape)>, name: &String) -> (r: Option<usize>)
    ensures
        match r {
            Some(i) => i < specs@.len() && lookup_field(specs@, name@) == Some(specs@[i as int].1),
            None => lookup_field(specs@, name@) is None,
        },
{
    let mut i: usize = 0;
    assert(specs@.skip(0) =~= specs@);
    while i < specs.len()
        invariant
            i <= specs@.len(),
            lookup_field(specs@, name@) == lookup_field(specs@.skip(i as int), name@),
        decreases specs@.len() - i,
    {
        assert(specs@.skip(i as int)[0] == specs@[i as int]);
        if specs[i].0 == *name {
            return Some(i);
        }
        assert(specs@.skip(i as int).drop_first() =~= specs@.skip(i + 1));
        i = i + 1;
    }
    None
}

/// The position of the first alternative named `name`.
fn find_variant(variants: &Vec<(String, PayloadShape)>, name: &String) -> (r: Option<usize>)
    ensures
        match r {
            Some(i) => i < variants@.len() && lookup_variant(variants@, name@) == Some(
                variants@[i as int].1,
            ),
            None => lookup_variant(variants@, name@) is None,
        },
{
    let mut i: usize = 0;
    assert(variants@.skip(0) =~= variants@);
    while i < variants.len()
        invariant
            i <= variants@.len(),
            lookup_variant(variants@, name@) == lookup_variant(variants@.skip(i as int), name@),
        decreases variants@.len() - i,
    {
        assert(variants@.skip(i as int)[0] == variants@[i as int]);
        if variants[i].0 == *name {
            return Some(i);
        }
        assert(variants@.skip(i as int).drop_first() =~= variants@.skip(i + 1));
        i = i + 1;
    }
    None
}

/// Reads an integer under any integer marker and keeps it if it lies in
/// `[lo, hi]`.
fn read_int_in(r: &mut UbjReader, lo: i64, hi: i64) -> (res: UbjResult<i64>)
    requires
        old(r).wf(),
    ensures
        final(r).wf(),
        res is Ok ==> final(r).rest().len() < old(r).rest().len(),
        ({
            let s = old(r).rest();
            &&& (has_narrowed_int(s) && lo <= narrowed_value(s) <= hi) ==> (res == Ok::<i64, UbjError>(
                narrowed_value(s) as i64,
            ) && final(r).rest() == s.skip(narrowed_len(s) as int))
            &&& !has_narrowed_int(s) ==> res == Err::<i64, UbjError>(narrowed_failure(s))
        }),
{
    let x = r.read_integer()?;
    if x < lo || x > hi {
        return Err(UbjError::Unsupported("integer out of range for the expected type"));
    }
    Ok(x)
}

/// Whether a shape holds no other shape.
pub open spec fn is_scalar_shape(sh: Shape) -> bool {
    !(sh is Optional || sh is NewtypeStruct || sh is Sequence || sh is Tuple || sh is TupleStruct
        || sh is Record || sh is Mapping || sh is Union)
}

/// Reads a unit, a unit struct or a boolean.
fn read_unit_like(r: &mut UbjReader, sh: &Shape) -> (res: UbjResult<Value>)
    requires
        old(r).wf(),
        ({
            let sh = *sh;
            sh is Unit || sh is UnitStruct || sh is Bool
        }),
    ensures
        final(r).wf(),
        res is Ok ==> final(r).rest().len() < old(r).rest().len(),
        res is Ok ==> shaped(res->Ok_0, *sh),
        forall|v: Value, t: Seq<u8>|
            #[trigger] encodes_as(v, *sh, old(r).rest(), t) ==> (res is Ok && same(res->Ok_0, v)
                && final(r).rest() == t),
        forall|v: Value| #[trigger] truncates(v, *sh, old(r).rest()) ==> res == Err::<Value, UbjError>(
            UbjError::UnexpectedEof,
        ),
{
    let ghost s = old(r).rest();
    match sh {
        Shape::Unit => {
            proof {
                assert forall|v: Value, t: Seq<u8>| #[trigger] encodes_as(v, *sh, s, t) implies s.skip(1) == t by {
                    assert(s.skip(1) =~= t);
                }
            }
            proof {
                assert forall|v: Value| #[trigger] truncates(v, *sh, s) implies (s.len() < value_wire(v)->Ok_0.len()
                    && (s.len() > 0 ==> s[0] == value_wire(v)->Ok_0[0])) by {
                    lemma_fixed_cut(s, value_wire(v)->Ok_0);
                }
            }
            r.read_null()?;
            Ok(Value::Unit)
        },
        Shape::UnitStruct => {
            proof {
                assert forall|v: Value, t: Seq<u8>| #[trigger] encodes_as(v, *sh, s, t) implies s.skip(1) == t by {
                    assert(s.skip(1) =~= t);
                }
            }
            proof {
                assert forall|v: Value| #[trigger] truncates(v, *sh, s) implies (s.len() < value_wire(v)->Ok_0.len()
                    && (s.len() > 0 ==> s[0] == value_wire(v)->Ok_0[0])) by {
                    lemma_fixed_cut(s, value_wire(v)->Ok_0);
                }
            }
            r.read_null()?;
            Ok(Value::UnitStruct)
        },
        Shape::Bool => {
            proof {
                assert forall|v: Value, t: Seq<u8>| #[trigger] encodes_as(v, *sh, s, t) implies s.skip(1) == t by {
                    assert(s.skip(1) =~= t);
                }
            }
            proof {
                assert forall|v: Value| #[trigger] truncates(v, *sh, s) implies (s.len() < value_wire(v)->Ok_0.len()
                    && (s.len() > 0 ==> s[0] == value_wire(v)->Ok_0[0])) by {
                    lemma_fixed_cut(s, value_wire(v)->Ok_0);
                }
            }
            let b = r.read_bool()?;
            Ok(Value::Bool(b))
        },
        _ => Err(UbjError::Unsupported("unexpected shape")),
    }
}

/// Reads a signed integer of the expected width, under any integer marker.
#[verifier::rlimit(60)]
#[verifier::spinoff_prover]
fn read_signed(r: &mut UbjReader, sh: &Shape) -> (res: UbjResult<Value>)
    requires
        old(r).wf(),
        ({
            let sh = *sh;
            sh is I8 || sh is I16 || sh is I32 || sh is I64
        }),
    ensures
        final(r).wf(),
        res is Ok ==> final(r).rest().len() < old(r).rest().len(),
        res is Ok ==> shaped(res->Ok_0, *sh),
        forall|v: Value, t: Seq<u8>|
            #[trigger] encodes_as(v, *sh, old(r).rest(), t) ==> (res is Ok && same(res->Ok_0, v)
                && final(r).rest() == t),
        forall|v: Value| #[trigger] truncates(v, *sh, old(r).rest()) ==> res == Err::<Value, UbjError>(
            UbjError::UnexpectedEof,
        ),
{
    let ghost s = old(r).rest();
    match sh {
        Shape::I8 => {
            proof {
                assert forall|v: Value, t: Seq<u8>| #[trigger] encodes_as(v, *sh, s, t) implies (
                has_narrowed_int(s) && narrowed_value(s) == v->I8_0 as int && s.skip(2) == t) by {
                    lemma_i8_bits(v->I8_0);
                    assert(s.skip(2) =~= t);
                }
            }
            proof {
                assert forall|v: Value| #[trigger] truncates(v, *sh, s) implies (!has_narrowed_int(s)
                    && narrowed_failure(s) == UbjError::UnexpectedEof) by {
                    lemma_fixed_cut(s, value_wire(v)->Ok_0);
                }
            }
            let x = read_int_in(r, -128, 127)?;
            Ok(Value::I8(x as i8))
        },
        Shape::I16 => {
            proof {
                assert forall|v: Value, t: Seq<u8>| #[trigger] encodes_as(v, *sh, s, t) implies (
                has_narrowed_int(s) && narrowed_value(s) == v->I16_0 as int && s.skip(
                    narrowed_len(s) as int,
                ) == t) by {
                    lemma_int_wire(v->I16_0 as int, t);
                    assert(s.skip(int_wire(v->I16_0 as int).len() as int) =~= t);
                }
            }
            proof {
                assert forall|v: Value| #[trigger] truncates(v, *sh, s) implies (!has_narrowed_int(s)
                    && narrowed_failure(s) == UbjError::UnexpectedEof) by {
                    let w = int_wire(v->I16_0 as int);
                    lemma_int_wire(v->I16_0 as int, Seq::<u8>::empty());
                    assert(w + Seq::<u8>::empty() =~= w);
                    lemma_int_cut(s, w);
                }
            }
            let x = read_int_in(r, -32768, 32767)?;
            Ok(Value::I16(x as i16))
        },
        Shape::I32 => {
            proof {
                assert forall|v: Value, t: Seq<u8>| #[trigger] encodes_as(v, *sh, s, t) implies (
                has_narrowed_int(s) && narrowed_value(s) == v->I32_0 as int && s.skip(
                    narrowed_len(s) as int,
                ) == t) by {
                    lemma_int_wire(v->I32_0 as int, t);
                    assert(s.skip(int_wire(v->I32_0 as int).len() as int) =~= t);
                }
            }
            proof {
                assert forall|v: Value| #[trigger] truncates(v, *sh, s) implies (!has_narrowed_int(s)
                    && narrowed_failure(s) == UbjError::UnexpectedEof) by {
                    let w = int_wire(v->I32_0 as int);
                    lemma_int_wire(v->I32_0 as int, Seq::<u8>::empty());
                    assert(w + Seq::<u8>::empty() =~= w);
                    lemma_int_cut(s, w);
                }
            }
            let x = read_int_in(r, -2147483648, 2147483647)?;
            Ok(Value::I32(x as i32))
        },
        Shape::I64 => {
            proof {
                assert forall|v: Value, t: Seq<u8>| #[trigger] encodes_as(v, *sh, s, t) implies (
                has_narrowed_int(s) && narrowed_value(s) == v->I64_0 as int && s.skip(
                    narrowed_len(s) as int,
                ) == t) by {
                    lemma_int_wire(v->I64_0 as int, t);
                    assert(s.skip(int_wire(v->I64_0 as int).len() as int) =~= t);
                }
            }
            proof {
                assert forall|v: Value| #[trigger] truncates(v, *sh, s) implies (!has_narrowed_int(s)
                    && narrowed_failure(s) == UbjError::UnexpectedEof) by {
                    let w = int_wire(v->I64_0 as int);
                    lemma_int_wire(v->I64_0 as int, Seq::<u8>::empty());
                    assert(w + Seq::<u8>::empty() =~= w);
                    lemma_int_cut(s, w);
                }
            }
            let x = read_int_in(r, i64::MIN, i64::MAX)?;
            Ok(Value::I64(x))
        },
        _ => Err(UbjError::Unsupported("unexpected shape")),
    }
}

/// Reads an unsigned integer of the expected width, under any integer marker.
#[verifier::rlimit(60)]
#[verifier::spinoff_prover]
fn read_unsigned(r: &mut UbjReader, sh: &Shape) -> (res: UbjResult<Value>)
    requires
        old(r).wf(),
        ({
            let sh = *sh;
            sh is U8 || sh is U16 || sh is U32 || sh is U64
        }),
    ensures
        final(r).wf(),
        res is Ok ==> final(r).rest().len() < old(r).rest().len(),
        res is Ok ==> shaped(res->Ok_0, *sh),
        forall|v: Value, t: Seq<u8>|
            #[trigger] encodes_as(v, *sh, old(r).rest(), t) ==> (res is Ok && same(res->Ok_0, v)
                && final(r).rest() == t),
        forall|v: Value| #[trigger] truncates(v, *sh, old(r).rest()) ==> res == Err::<Value, UbjError>(
            UbjError::UnexpectedEof,
        ),
{
    let ghost s = old(r).rest();
    match sh {
        Shape::U8 => {
            proof {
                assert forall|v: Value, t: Seq<u8>| #[trigger] encodes_as(v, *sh, s, t) implies (
                has_narrowed_int(s) && narrowed_value(s) == v->U8_0 as int && s.skip(2) == t) by {
                    assert(s.skip(2) =~= t);
                }
            }
            proof {
                assert forall|v: Value| #[trigger] truncates(v, *sh, s) implies (!has_narrowed_int(s)
                    && narrowed_failure(s) == UbjError::UnexpectedEof) by {
                    lemma_fixed_cut(s, value_wire(v)->Ok_0);
                }
            }
            let x = read_int_in(r, 0, 255)?;
            Ok(Value::U8(x as u8))
        },
        Shape::U16 => {
            proof {
                assert forall|v: Value, t: Seq<u8>| #[trigger] encodes_as(v, *sh, s, t) implies (
                has_narrowed_int(s) && narrowed_value(s) == v->U16_0 as int && s.skip(
                    narrowed_len(s) as int,
                ) == t) by {
                    lemma_int_wire(v->U16_0 as int, t);
                    assert(s.skip(int_wire(v->U16_0 as int).len() as int) =~= t);
                }
            }
            proof {
                assert forall|v: Value| #[trigger] truncates(v, *sh, s) implies (!has_narrowed_int(s)
                    && narrowed_failure(s) == UbjError::UnexpectedEof) by {
                    let w = int_wire(v->U16_0 as int);
                    lemma_int_wire(v->U16_0 as int, Seq::<u8>::empty());
                    assert(w + Seq::<u8>::empty() =~= w);
                    lemma_int_cut(s, w);
                }
            }
            let x = read_int_in(r, 0, 65535)?;
            Ok(Value::U16(x as u16))
        },
        Shape::U32 => {
            proof {
                assert forall|v: Value, t: Seq<u8>| #[trigger] encodes_as(v, *sh, s, t) implies (
                has_narrowed_int(s) && narrowed_value(s) == v->U32_0 as int && s.skip(
                    narrowed_len(s) as int,
                ) == t) by {
                    lemma_int_wire(v->U32_0 as int, t);
                    assert(s.skip(int_wire(v->U32_0 as int).len() as int) =~= t);
                }
            }
            proof {
                assert forall|v: Value| #[trigger] truncates(v, *sh, s) implies (!has_narrowed_int(s)
                    && narrowed_failure(s) == UbjError::UnexpectedEof) by {
                    let w = int_wire(v->U32_0 as int);
                    lemma_int_wire(v->U32_0 as int, Seq::<u8>::empty());
                    assert(w + Seq::<u8>::empty() =~= w);
                    lemma_int_cut(s, w);
                }
            }
            let x = read_int_in(r, 0, 4294967295)?;
            Ok(Value::U32(x as u32))
        },
        Shape::U64 => {
            proof {
                assert forall|v: Value, t: Seq<u8>| #[trigger] encodes_as(v, *sh, s, t) implies (
                has_narrowed_int(s) && narrowed_value(s) == v->U64_0 as int && s.skip(
                    narrowed_len(s) as int,
                ) == t) by {
                    lemma_int_wire(v->U64_0 as int, t);
                    assert(s.skip(int_wire(v->U64_0 as int).len() as int) =~= t);
                }
            }
            proof {
                assert forall|v: Value| #[trigger] truncates(v, *sh, s) implies (!has_narrowed_int(s)
                    && narrowed_failure(s) == UbjError::UnexpectedEof) by {
                    let w = int_wire(v->U64_0 as int);
                    lemma_int_wire(v->U64_0 as int, Seq::<u8>::empty());
                    assert(w + Seq::<u8>::empty() =~= w);
                    lemma_int_cut(s, w);
                }
            }
            let x = read_int_in(r, 0, i64::MAX)?;
            Ok(Value::U64(x as u64))
        },
        _ => Err(UbjError::Unsupported("unexpected shape")),
    }
}

/// Reads a float as its IEEE-754 bits.
fn read_float(r: &mut UbjReader, sh: &Shape) -> (res: UbjResult<Value>)
    requires
        old(r).wf(),
        ({
            let sh = *sh;
            sh is F32 || sh is F64
        }),
    ensures
        final(r).wf(),
        res is Ok ==> final(r).rest().len() < old(r).rest().len(),
        res is Ok ==> shaped(res->Ok_0, *sh),
        forall|v: Value, t: Seq<u8>|
            #[trigger] encodes_as(v, *sh, old(r).rest(), t) ==> (res is Ok && same(res->Ok_0, v)
                && final(r).rest() == t),
        forall|v: Value| #[trigger] truncates(v, *sh, old(r).rest()) ==> res == Err::<Value, UbjError>(
            UbjError::UnexpectedEof,
        ),
{
    let ghost s = old(r).rest();
    match sh {
        Shape::F32 => {
            proof {
                assert forall|v: Value, t: Seq<u8>| #[trigger] encodes_as(v, *sh, s, t) implies (
                s.len() >= 5 && s[0] == 0x64 && from_be32_bits(s.subrange(1, 5)) == v->F32_0
                    && s.skip(5) == t) by {
                    lemma_bits32(v->F32_0);
                    assert(s.subrange(1, 5) =~= be32(v->F32_0));
                    assert(s.skip(5) =~= t);
                }
            }
            proof {
                assert forall|v: Value| #[trigger] truncates(v, *sh, s) implies (s.len() < value_wire(v)->Ok_0.len()
                    && (s.len() > 0 ==> s[0] == value_wire(v)->Ok_0[0])) by {
                    lemma_fixed_cut(s, value_wire(v)->Ok_0);
                }
            }
            let bits = r.read_float32()?;
            Ok(Value::F32(bits))
        },
        Shape::F64 => {
            proof {
                assert forall|v: Value, t: Seq<u8>| #[trigger] encodes_as(v, *sh, s, t) implies (
                s.len() >= 9 && s[0] == 0x44 && from_be64_bits(s.subrange(1, 9)) == v->F64_0
                    && s.skip(9) == t) by {
                    lemma_bits64(v->F64_0);
                    assert(s.subrange(1, 9) =~= be64(v->F64_0));
                    assert(s.skip(9) =~= t);
                }
            }
            proof {
                assert forall|v: Value| #[trigger] truncates(v, *sh, s) implies (s.len() < value_wire(v)->Ok_0.len()
                    && (s.len() > 0 ==> s[0] == value_wire(v)->Ok_0[0])) by {
                    lemma_fixed_cut(s, value_wire(v)->Ok_0);
                }
            }
            let bits = r.read_float64()?;
            Ok(Value::F64(bits))
        },
        _ => Err(UbjError::Unsupported("unexpected shape")),
    }
}

/// Reads a character or a string.
#[verifier::rlimit(60)]
#[verifier::spinoff_prover]
fn read_text(r: &mut UbjReader, sh: &Shape) -> (res: UbjResult<Value>)
    requires
        old(r).wf(),
        ({
            let sh = *sh;
            sh is Char || sh is Str
        }),
    ensures
        final(r).wf(),
        res is Ok ==> final(r).rest().len() < old(r).rest().len(),
        res is Ok ==> shaped(res->Ok_0, *sh),
        forall|v: Value, t: Seq<u8>|
            #[trigger] encodes_as(v, *sh, old(r).rest(), t) ==> (res is Ok && same(res->Ok_0, v)
                && final(r).rest() == t),
        forall|v: Value| #[trigger] truncates(v, *sh, old(r).rest()) ==> res == Err::<Value, UbjError>(
            UbjError::UnexpectedEof,
        ),
{
    let ghost s = old(r).rest();
    match sh {
        Shape::Char => {
            proof {
                assert forall|v: Value, t: Seq<u8>| #[trigger] encodes_as(v, *sh, s, t) implies (
                s.len() >= 2 && s[0] == 0x43 && s[1] <= 127 && (s[1] as char) == v->Char_0
                    && s.skip(2) == t) by {
                    let c = v->Char_0;
                    char_u32_cast(c, c as u32);
                    assert(s.skip(2) =~= t);
                }
            }
            proof {
                assert forall|v: Value| #[trigger] truncates(v, *sh, s) implies (s.len() < value_wire(v)->Ok_0.len()
                    && (s.len() > 0 ==> s[0] == value_wire(v)->Ok_0[0])) by {
                    lemma_fixed_cut(s, value_wire(v)->Ok_0);
                }
            }
            let c = r.read_char()?;
            Ok(Value::Char(c))
        },
        Shape::Str => {
            proof {
                assert forall|v: Value, t: Seq<u8>| #[trigger] encodes_as(v, *sh, s, t) implies ({
                    let u = s.skip(1);
                    let b = encode_utf8(v->Str_0@);
                    &&& s.len() > 0 && s[0] == 0x53
                    &&& has_narrowed_int(u)
                    &&& narrowed_value(u) == b.len()
                    &&& b.len() <= usize::MAX
                    &&& u.skip(narrowed_len(u) as int).take(b.len() as int) == b
                    &&& s.skip(1 + narrowed_len(u) + narrowed_value(u)) == t
                    &&& valid_utf8(b)
                    &&& decode_utf8(b) == v->Str_0@
                }) by {
                    let x = v->Str_0@;
                    lemma_string_wire(x, t);
                    assert(s.skip(1) =~= unmarked_string_wire(x) + t);
                    let u = s.skip(1);
                    assert(u.skip(narrowed_len(u) as int).skip(encode_utf8(x).len() as int) =~= s.skip(
                        1 + narrowed_len(u) + narrowed_value(u),
                    ));
                }
            }
            let text = r.read_marked_string();
            proof {
                assert forall|v: Value| #[trigger] truncates(v, *sh, s) implies text
                    == Err::<String, UbjError>(UbjError::UnexpectedEof) by {
                    let x = v->Str_0@;
                    let w = marked_string_wire(x);
                    lemma_fixed_cut(s, w);
                    if s.len() > 0 {
                        assert(w =~= seq![0x53u8] + unmarked_string_wire(x));
                        lemma_prefix_split(s, seq![0x53u8], unmarked_string_wire(x));
                        assert(s.skip(1) =~= s.skip(seq![0x53u8].len() as int));
                        lemma_name_cut(x, s.skip(1), text);
                    }
                }
            }
            Ok(Value::Str(text?))
        },
        _ => Err(UbjError::Unsupported("unexpected shape")),
    }
}

/// Reads a value of a shape that holds no other shape.
fn read_scalar(r: &mut UbjReader, sh: &Shape) -> (res: UbjResult<Value>)
    requires
        old(r).wf(),
        is_scalar_shape(*sh),
    ensures
        final(r).wf(),
        res is Ok ==> final(r).rest().len() < old(r).rest().len(),
        res is Ok ==> shaped(res->Ok_0, *sh),
        forall|v: Value, t: Seq<u8>|
            #[trigger] encodes_as(v, *sh, old(r).rest(), t) ==> (res is Ok && same(res->Ok_0, v)
                && final(r).rest() == t),
        forall|v: Value| #[trigger] truncates(v, *sh, old(r).rest()) ==> res == Err::<Value, UbjError>(
            UbjError::UnexpectedEof,
        ),
{
    match sh {
        Shape::Unit | Shape::UnitStruct | Shape::Bool => read_unit_like(r, sh),
        Shape::I8 | Shape::I16 | Shape::I32 | Shape::I64 => read_signed(r, sh),
        Shape::U8 | Shape::U16 | Shape::U32 | Shape::U64 => read_unsigned(r, sh),
        Shape::F32 | Shape::F64 => read_float(r, sh),
        Shape::Char | Shape::Str => read_text(r, sh),
        Shape::I128 => Err(UbjError::Unsupported("Rust i128 values")),
        Shape::U128 => Err(UbjError::Unsupported("Rust u128 values")),
        _ => Err(UbjError::Unsupported("byte sequences")),
    }
}

/// Shapes that have a representation on the wire.
pub open spec fn representable_shape(sh: Shape) -> bool {
    !(sh is I128 || sh is U128 || sh is Bytes)
}

fn is_representable(sh: &Shape) -> (b: bool)
    ensures
        b == representable_shape(*sh),
{
    match sh {
        Shape::I128 | Shape::U128 | Shape::Bytes => false,
        _ => true,
    }
}

/// Reads a value of the expected shape. Whenever the input holds the bytes of
/// a value of that shape followed by anything, this reads back that same value
/// and leaves exactly what follows.
pub fn read_value(r: &mut UbjReader, sh: &Shape) -> (res: UbjResult<Value>)
    requires
        old(r).wf(),
    ensures
        final(r).wf(),
        res is Ok ==> final(r).rest().len() < old(r).rest().len(),
        res is Ok ==> shaped(res->Ok_0, *sh),
        forall|v: Value, t: Seq<u8>|
            #[trigger] encodes_as(v, *sh, old(r).rest(), t) ==> (res is Ok && same(res->Ok_0, v)
                && final(r).rest() == t),
        forall|v: Value| #[trigger] truncates(v, *sh, old(r).rest()) ==> res == Err::<Value, UbjError>(
            UbjError::UnexpectedEof,
        ),
        (old(r).rest().len() == 0 && representable_shape(*sh)) ==> res == Err::<Value, UbjError>(
            UbjError::UnexpectedEof,
        ),
        (old(r).rest().len() > 0 && UbjMarker::spec_from_byte(old(r).rest()[0]) is None
            && representable_shape(*sh)) ==> res == Err::<Value, UbjError>(
            UbjError::UnexpectedMarker(old(r).rest()[0]),
        ),
    decreases sh, 2nat,
{
    let ghost s = old(r).rest();
    if !is_representable(sh) {
        return read_scalar(r, sh);
    }
    if r.is_at_end() {
        proof {
            assert forall|v: Value, t: Seq<u8>| #[trigger] encodes_as(v, *sh, s, t) implies false by {
                lemma_first_byte(v);
            }
        }
        return Err(UbjError::UnexpectedEof);
    }
    if let Some(b) = r.peek_byte() {
        if let Err(e) = UbjMarker::from_byte(b) {
            proof {
                assert forall|v: Value, t: Seq<u8>| #[trigger] encodes_as(v, *sh, s, t) implies false by {
                    lemma_first_byte(v);
                }
                assert forall|v: Value| #[trigger] truncates(v, *sh, s) implies false by {
                    lemma_first_byte(v);
                    lemma_fixed_cut(s, value_wire(v)->Ok_0);
                }
            }
            return Err(e);
        }
    }
    match sh {
        Shape::Optional(inner) => {
            proof {
                assert forall|v: Value, t: Seq<u8>| #[trigger] encodes_as(v, *sh, s, t) implies (
                (v is Absent ==> (s.len() > 0 && s[0] == 0x5A && s.skip(1) == t)) && (v is Present
                    ==> (s.len() > 0 && s[0] != 0x5A && encodes_as(*v->Present_0, **inner, s, t))))
                    by {
                    if let Value::Present(x) = v {
                        lemma_not_null(*x, **inner);
                    } else {
                        assert(s.skip(1) =~= t);
                    }
                }
            }
            proof {
                assert forall|v: Value| #[trigger] truncates(v, *sh, s) implies (v is Present && s[0]
                    != 0x5A && truncates(*v->Present_0, **inner, s)) by {
                    lemma_fixed_cut(s, value_wire(v)->Ok_0);
                    if let Value::Present(x) = v {
                        lemma_not_null(*x, **inner);
                    }
                }
            }
            match r.read_null() {
                Ok(()) => Ok(Value::Absent),
                Err(_) => {
                    let x = read_value(r, inner)?;
                    Ok(Value::Present(Box::new(x)))
                },
            }
        },
        Shape::NewtypeStruct(inner) => {
            proof {
                assert forall|v: Value, t: Seq<u8>| #[trigger] encodes_as(v, *sh, s, t) implies encodes_as(
                    *v->NewtypeStruct_0,
                    **inner,
                    s,
                    t,
                ) by {}
            }
            proof {
                assert forall|v: Value| #[trigger] truncates(v, *sh, s) implies truncates(
                    *v->NewtypeStruct_0,
                    **inner,
                    s,
                ) by {}
            }
            let x = read_value(r, inner)?;
            Ok(Value::NewtypeStruct(Box::new(x)))
        },
        Shape::Sequence(_) | Shape::Tuple(_) | Shape::TupleStruct(_) => read_array(r, sh),
        Shape::Record(_) | Shape::Mapping(_) => read_object(r, sh),
        Shape::Union(variants) => read_union(r, variants),
        _ => read_scalar(r, sh),
    }
}

/// Reads an array of the expected shape: a sequence, a tuple or a tuple struct.
fn read_array(r: &mut UbjReader, sh: &Shape) -> (res: UbjResult<Value>)
    requires
        old(r).wf(),
        sh is Sequence || sh is Tuple || sh is TupleStruct,
    ensures
        final(r).wf(),
        res is Ok ==> final(r).rest().len() < old(r).rest().len(),
        res is Ok ==> shaped(res->Ok_0, *sh),
        forall|v: Value, t: Seq<u8>|
            #[trigger] encodes_as(v, *sh, old(r).rest(), t) ==> (res is Ok && same(res->Ok_0, v)
                && final(r).rest() == t),
        forall|v: Value| #[trigger] truncates(v, *sh, old(r).rest()) ==> res == Err::<Value, UbjError>(
            UbjError::UnexpectedEof,
        ),
    decreases sh, 1nat,
{
    let ghost s = old(r).rest();
    match sh {
        Shape::Sequence(e) => {
            proof {
                assert forall|v: Value, t: Seq<u8>| #[trigger] encodes_as(v, *sh, s, t) implies (s.len()
                    > 0 && s[0] == 0x5B && items_before(v->Sequence_0@, **e, s.skip(1), t)) by {
                    assert(s.skip(1) =~= items_wire(v->Sequence_0@)->Ok_0 + seq![0x5Du8] + t);
                }
            }
            proof {
                assert forall|v: Value| #[trigger] truncates(v, *sh, s) implies (s.len() == 0 || (s[0]
                    == 0x5Bu8 && items_cut(v->Sequence_0@, **e, s.skip(1)))) by {
                    let body = items_wire(v->Sequence_0@)->Ok_0 + seq![0x5Du8];
                    assert(value_wire(v)->Ok_0 =~= seq![0x5Bu8] + body);
                    lemma_prefix_split(s, seq![0x5Bu8], body);
                }
            }
            r.read_start_array()?;
            let items = read_elements(r, e)?;
            Ok(Value::Sequence(items))
        },
        Shape::Tuple(shapes) => {
            proof {
                assert forall|v: Value, t: Seq<u8>| #[trigger] encodes_as(v, *sh, s, t) implies (s.len()
                    > 0 && s[0] == 0x5B && each_before(v->Tuple_0@, shapes@, s.skip(1), t)) by {
                    assert(s.skip(1) =~= items_wire(v->Tuple_0@)->Ok_0 + seq![0x5Du8] + t);
                }
            }
            proof {
                assert forall|v: Value| #[trigger] truncates(v, *sh, s) implies (s.len() == 0 || (s[0]
                    == 0x5Bu8 && each_cut(v->Tuple_0@, shapes@, s.skip(1)))) by {
                    let body = items_wire(v->Tuple_0@)->Ok_0 + seq![0x5Du8];
                    assert(value_wire(v)->Ok_0 =~= seq![0x5Bu8] + body);
                    lemma_prefix_split(s, seq![0x5Bu8], body);
                }
            }
            r.read_start_array()?;
            let items = read_fixed_elements(r, shapes)?;
            Ok(Value::Tuple(items))
        },
        Shape::TupleStruct(shapes) => {
            proof {
                assert forall|v: Value, t: Seq<u8>| #[trigger] encodes_as(v, *sh, s, t) implies (s.len()
                    > 0 && s[0] == 0x5B && each_before(v->TupleStruct_0@, shapes@, s.skip(1), t)) by {
                    assert(s.skip(1) =~= items_wire(v->TupleStruct_0@)->Ok_0 + seq![0x5Du8] + t);
                }
            }
            proof {
                assert forall|v: Value| #[trigger] truncates(v, *sh, s) implies (s.len() == 0 || (s[0]
                    == 0x5Bu8 && each_cut(v->TupleStruct_0@, shapes@, s.skip(1)))) by {
                    let body = items_wire(v->TupleStruct_0@)->Ok_0 + seq![0x5Du8];
                    assert(value_wire(v)->Ok_0 =~= seq![0x5Bu8] + body);
                    lemma_prefix_split(s, seq![0x5Bu8], body);
                }
            }
            r.read_start_array()?;
            let items = read_fixed_elements(r, shapes)?;
            Ok(Value::TupleStruct(items))
        },
        _ => Err(UbjError::Unsupported("unexpected shape")),
    }
}

/// Reads an object of the expected shape: a record or a map.
fn read_object(r: &mut UbjReader, sh: &Shape) -> (res: UbjResult<Value>)
    requires
        old(r).wf(),
        sh is Record || sh is Mapping,
    ensures
        final(r).wf(),
        res is Ok ==> final(r).rest().len() < old(r).rest().len(),
        res is Ok ==> shaped(res->Ok_0, *sh),
        forall|v: Value, t: Seq<u8>|
            #[trigger] encodes_as(v, *sh, old(r).rest(), t) ==> (res is Ok && same(res->Ok_0, v)
                && final(r).rest() == t),
        forall|v: Value| #[trigger] truncates(v, *sh, old(r).rest()) ==> res == Err::<Value, UbjError>(
            UbjError::UnexpectedEof,
        ),
    decreases sh, 1nat,
{
    let ghost s = old(r).rest();
    match sh {
        Shape::Record(specs) => {
            proof {
                assert forall|v: Value, t: Seq<u8>| #[trigger] encodes_as(v, *sh, s, t) implies (s.len()
                    > 0 && s[0] == 0x7B && fields_before(v->Record_0@, specs@, s.skip(1), t)) by {
                    assert(s.skip(1) =~= fields_wire(v->Record_0@)->Ok_0 + seq![0x7Du8] + t);
                }
            }
            proof {
                assert forall|v: Value| #[trigger] truncates(v, *sh, s) implies (s.len() == 0 || (s[0]
                    == 0x7Bu8 && fields_cut(v->Record_0@, specs@, s.skip(1)))) by {
                    let body = fields_wire(v->Record_0@)->Ok_0 + seq![0x7Du8];
                    assert(value_wire(v)->Ok_0 =~= seq![0x7Bu8] + body);
                    lemma_prefix_split(s, seq![0x7Bu8], body);
                }
            }
            r.read_start_object()?;
            let fields = read_fields(r, specs)?;
            Ok(Value::Record(fields))
        },
        Shape::Mapping(e) => {
            proof {
                assert forall|v: Value, t: Seq<u8>| #[trigger] encodes_as(v, *sh, s, t) implies (s.len()
                    > 0 && s[0] == 0x7B && entries_before(v->Mapping_0@, **e, s.skip(1), t)) by {
                    assert(s.skip(1) =~= entries_wire(v->Mapping_0@)->Ok_0 + seq![0x7Du8] + t);
                }
            }
            proof {
                assert forall|v: Value| #[trigger] truncates(v, *sh, s) implies (s.len() == 0 || (s[0]
                    == 0x7Bu8 && entries_cut(v->Mapping_0@, **e, s.skip(1)))) by {
                    let body = entries_wire(v->Mapping_0@)->Ok_0 + seq![0x7Du8];
                    assert(value_wire(v)->Ok_0 =~= seq![0x7Bu8] + body);
                    lemma_prefix_split(s, seq![0x7Bu8], body);
                }
            }
            r.read_start_object()?;
            let entries = read_entries(r, e)?;
            Ok(Value::Mapping(entries))
        },
        _ => Err(UbjError::Unsupported("unexpected shape")),
    }
}

/// Reads the elements of an array whose `[` was read, up to and with its `]`.
fn read_elements(r: &mut UbjReader, e: &Shape) -> (res: UbjResult<Vec<Value>>)
    requires
        old(r).wf(),
    ensures
        final(r).wf(),
        res is Ok ==> final(r).rest().len() < old(r).rest().len(),
        res is Ok ==> shaped_all(res->Ok_0@, *e),
        forall|items: Seq<Value>, t: Seq<u8>|
            #[trigger] items_before(items, *e, old(r).rest(), t) ==> (res is Ok && same_items(
                res->Ok_0@,
                items,
            ) && final(r).rest() == t),
        forall|items: Seq<Value>|
            #[trigger] items_cut(items, *e, old(r).rest()) ==> res == Err::<Vec<Value>, UbjError>(
                UbjError::UnexpectedEof,
            ),
    decreases e, 3nat,
{
    let ghost s0 = old(r).rest();
    let mut out: Vec<Value> = Vec::new();
    proof {
        assert forall|items: Seq<Value>, t: Seq<u8>| #[trigger] items_before(items, *e, s0, t) implies (
        items_before(items.skip(0), *e, s0, t) && same_items(out@, items.take(0))) by {
            assert(items.skip(0) =~= items);
            assert(items.take(0) =~= Seq::<Value>::empty());
        }
        assert forall|items: Seq<Value>| #[trigger] items_cut(items, *e, s0) implies items_cut(
            items.skip(0),
            *e,
            s0,
        ) by {
            assert(items.skip(0) =~= items);
        }
    }
    loop
        invariant
            r.wf(),
            s0 == old(r).rest(),
            r.rest().len() <= s0.len(),
            shaped_all(out@, *e),
            forall|items: Seq<Value>, t: Seq<u8>|
                #[trigger] items_before(items, *e, s0, t) ==> (out@.len() <= items.len()
                    && items_before(items.skip(out@.len() as int), *e, r.rest(), t) && same_items(
                    out@,
                    items.take(out@.len() as int),
                )),
            forall|items: Seq<Value>|
                #[trigger] items_cut(items, *e, s0) ==> (out@.len() <= items.len() && items_cut(
                    items.skip(out@.len() as int),
                    *e,
                    r.rest(),
                )),
        decreases r.rest().len(),
    {
        let ghost before = r.rest();
        let ghost i = out@.len() as int;
        proof {
            assert forall|items: Seq<Value>, t: Seq<u8>| #[trigger] items_before(items, *e, s0, t) implies (
            (items.len() == i ==> (before.len() > 0 && before[0] == 0x5D && before.skip(1) == t
                && items.take(i) == items)) && (items.len() > i ==> (before.len() > 0 && before[0]
                != 0x5D && items_wire(items.skip(i + 1)) is Ok && encodes_as(
                items[i],
                *e,
                before,
                items_wire(items.skip(i + 1))->Ok_0 + seq![0x5Du8] + t,
            ) && conforms_all(items.skip(i + 1), *e)))) by {
                let rest = items.skip(i);
                if items.len() == i {
                    assert(rest =~= Seq::<Value>::empty());
                    assert(before.skip(1) =~= t);
                    assert(items.take(i) =~= items);
                } else {
                    assert(rest[0] == items[i]);
                    assert(rest.drop_first() =~= items.skip(i + 1));
                    lemma_first_byte(items[i]);
                    assert(before =~= value_wire(items[i])->Ok_0 + (items_wire(items.skip(i + 1))->Ok_0
                        + seq![0x5Du8] + t));
                }
            }
        }
        proof {
            assert forall|items: Seq<Value>| #[trigger] items_cut(items, *e, s0) implies elem_cut_step(
                items,
                i,
                *e,
                before,
            ) by {
                lemma_elem_cut_step(items, i, *e, before);
            }
        }
        match r.read_end_array() {
            Ok(()) => {
                return Ok(out);
            },
            Err(UbjError::UnexpectedEof) => {
                return Err(UbjError::UnexpectedEof);
            },
            Err(_) => {},
        }
        let x = read_value(r, e)?;
        proof {
            assert forall|items: Seq<Value>, t: Seq<u8>| #[trigger] items_before(items, *e, s0, t) implies (
            out@.push(x).len() <= items.len() && items_before(
                items.skip(out@.push(x).len() as int),
                *e,
                r.rest(),
                t,
            ) && same_items(out@.push(x), items.take(out@.push(x).len() as int))) by {
                assert(items.take(i + 1).drop_last() =~= items.take(i));
                assert(out@.push(x).drop_last() =~= out@);
            }
            assert forall|items: Seq<Value>| #[trigger] items_cut(items, *e, s0) implies (out@.push(x).len()
                <= items.len() && items_cut(items.skip(out@.push(x).len() as int), *e, r.rest())) by {}
        }
        proof {
            assert(out@.push(x).drop_last() =~= out@);
        }
        out.push(x);
    }
}

/// Reads one element per shape of an array whose `[` was read, then its `]`.
fn read_fixed_elements(r: &mut UbjReader, shapes: &Vec<Shape>) -> (res: UbjResult<Vec<Value>>)
    requires
        old(r).wf(),
    ensures
        final(r).wf(),
        res is Ok ==> final(r).rest().len() < old(r).rest().len(),
        res is Ok ==> shaped_each(res->Ok_0@, shapes@),
        forall|items: Seq<Value>, t: Seq<u8>|
            #[trigger] each_before(items, shapes@, old(r).rest(), t) ==> (res is Ok && same_items(
                res->Ok_0@,
                items,
            ) && final(r).rest() == t),
        forall|items: Seq<Value>|
            #[trigger] each_cut(items, shapes@, old(r).rest()) ==> res == Err::<Vec<Value>, UbjError>(
                UbjError::UnexpectedEof,
            ),
    decreases shapes, 0nat,
{
    let ghost s0 = old(r).rest();
    let mut out: Vec<Value> = Vec::new();
    let mut j: usize = 0;
    assert(shapes@.take(0) =~= Seq::<Shape>::empty());
    proof {
        assert forall|items: Seq<Value>, t: Seq<u8>| #[trigger] each_before(items, shapes@, s0, t) implies (
        each_before(items.skip(0), shapes@.skip(0), s0, t) && same_items(out@, items.take(0))) by {
            assert(items.skip(0) =~= items);
            assert(shapes@.skip(0) =~= shapes@);
            assert(items.take(0) =~= Seq::<Value>::empty());
        }
        assert forall|items: Seq<Value>| #[trigger] each_cut(items, shapes@, s0) implies each_cut(
            items.skip(0),
            shapes@.skip(0),
            s0,
        ) by {
            assert(items.skip(0) =~= items);
            assert(shapes@.skip(0) =~= shapes@);
        }
    }
    while j < shapes.len()
        invariant
            r.wf(),
            s0 == old(r).rest(),
            r.rest().len() <= s0.len(),
            j <= shapes@.len(),
            out@.len() == j,
            shaped_each(out@, shapes@.take(j as int)),
            forall|items: Seq<Value>, t: Seq<u8>|
                #[trigger] each_before(items, shapes@, s0, t) ==> (each_before(
                    items.skip(j as int),
                    shapes@.skip(j as int),
                    r.rest(),
                    t,
                ) && same_items(out@, items.take(j as int))),
            forall|items: Seq<Value>|
                #[trigger] each_cut(items, shapes@, s0) ==> (items.len() == shapes@.len() && each_cut(
                    items.skip(j as int),
                    shapes@.skip(j as int),
                    r.rest(),
                )),
        decreases shapes@.len() - j,
    {
        let ghost before = r.rest();
        proof {
            assert forall|items: Seq<Value>, t: Seq<u8>| #[trigger] each_before(items, shapes@, s0, t) implies (
            before.len() > 0 && before[0] != 0x5D && items_wire(items.skip(j + 1)) is Ok && encodes_as(
                items[j as int],
                shapes@[j as int],
                before,
                items_wire(items.skip(j + 1))->Ok_0 + seq![0x5Du8] + t,
            ) && conforms_each(items.skip(j + 1), shapes@.skip(j + 1))) by {
                let rest = items.skip(j as int);
                assert(rest.len() == shapes@.skip(j as int).len());
                assert(rest[0] == items[j as int]);
                assert(rest.drop_first() =~= items.skip(j + 1));
                assert(shapes@.skip(j as int).drop_first() =~= shapes@.skip(j + 1));
                lemma_first_byte(items[j as int]);
                assert(before =~= value_wire(items[j as int])->Ok_0 + (items_wire(items.skip(j + 1))->Ok_0
                    + seq![0x5Du8] + t));
            }
        }
        proof {
            assert forall|items: Seq<Value>| #[trigger] each_cut(items, shapes@, s0) implies each_cut_step(
                items,
                shapes@,
                j as int,
                before,
            ) by {
                lemma_each_cut_step(items, shapes@, j as int, before);
            }
        }
        match r.read_end_array() {
            Ok(()) => {
                return Err(UbjError::UnexpectedMarker(0x5D));
            },
            Err(UbjError::UnexpectedEof) => {
                return Err(UbjError::UnexpectedEof);
            },
            Err(_) => {},
        }
        let x = read_value(r, &shapes[j])?;
        proof {
            assert forall|items: Seq<Value>, t: Seq<u8>| #[trigger] each_before(items, shapes@, s0, t) implies (
            each_before(items.skip(j + 1), shapes@.skip(j + 1), r.rest(), t) && same_items(
                out@.push(x),
                items.take(j + 1),
            )) by {
                assert(items.take(j + 1).drop_last() =~= items.take(j as int));
                assert(out@.push(x).drop_last() =~= out@);
            }
            assert forall|items: Seq<Value>| #[trigger] each_cut(items, shapes@, s0) implies each_cut(
                items.skip(j + 1),
                shapes@.skip(j + 1),
                r.rest(),
            ) by {}
        }
        proof {
            assert(out@.push(x).drop_last() =~= out@);
            assert(shapes@.take(j + 1).drop_last() =~= shapes@.take(j as int));
        }
        out.push(x);
        j = j + 1;
    }
    let ghost before = r.rest();
    proof {
        assert forall|items: Seq<Value>, t: Seq<u8>| #[trigger] each_before(items, shapes@, s0, t) implies (
        before.len() > 0 && before[0] == 0x5D && before.skip(1) == t && items.take(j as int) == items) by {
            assert(items.skip(j as int) =~= Seq::<Value>::empty());
            assert(before.skip(1) =~= t);
            assert(items.take(j as int) =~= items);
        }
        assert forall|items: Seq<Value>| #[trigger] each_cut(items, shapes@, s0) implies before.len()
            == 0 by {
            lemma_each_cut_step(items, shapes@, j as int, before);
        }
    }
    r.read_end_array()?;
    assert(shapes@.take(j as int) =~= shapes@);
    Ok(out)
}

/// `u` starts with the name `x` as a string without marker, then `rest`.
pub open spec fn name_at_head(u: Seq<u8>, x: Seq<char>, rest: Seq<u8>) -> bool {
    let b = encode_utf8(x);
    &&& u.len() > 0 && u[0] != 0x7Du8 && u[0] != 0x5Du8
    &&& has_narrowed_int(u)
    &&& narrowed_value(u) == b.len()
    &&& 0 <= narrowed_value(u) <= usize::MAX
    &&& u.len() >= narrowed_len(u) + narrowed_value(u)
    &&& u.skip(narrowed_len(u) as int).take(narrowed_value(u) as nat as int) == b
    &&& valid_utf8(b)
    &&& decode_utf8(b) == x
    &&& u.skip(narrowed_len(u) + narrowed_value(u)) == rest
}

/// A name without marker at the head of the input reads back as itself.
proof fn lemma_name_head(x: Seq<char>, t: Seq<u8>)
    requires
        string_fits(x),
        fits_here(x),
    ensures
        name_at_head(unmarked_string_wire(x) + t, x, t),
{
    lemma_string_wire(x, t);
    let u = unmarked_string_wire(x) + t;
    let b = encode_utf8(x);
    assert(u.skip(narrowed_len(u) as int).skip(b.len() as int) =~= u.skip(
        narrowed_len(u) + narrowed_value(u),
    ));
    assert(u[0] == int_wire(b.len() as int)[0]);
}

/// Reading a string without marker where a name stands gives that name and
/// leaves what follows it.
proof fn lemma_read_name(before: Seq<u8>, x: Seq<char>, rest: Seq<u8>, res: UbjResult<String>, after: Seq<u8>)
    requires
        name_at_head(before, x, rest),
        crate::reader::unmarked_string_outcome(before, res),
        res is Ok ==> after == before.skip(narrowed_len(before) + narrowed_value(before)),
    ensures
        res is Ok,
        res->Ok_0@ == x,
        after == rest,
{
}

/// What the `i`-th step of reading record fields finds: the closing `}` when
/// all fields are read, else the next field's name, then its value.
pub open spec fn field_step(
    fields: Seq<(String, Value)>,
    i: int,
    specs: Seq<(String, Shape)>,
    before: Seq<u8>,
    t: Seq<u8>,
) -> bool {
    &&& fields.len() == i ==> (before.len() > 0 && before[0] == 0x7D && before.skip(1) == t
        && fields.take(i) == fields)
    &&& fields.len() > i ==> ({
        let tail = fields_wire(fields.skip(i + 1))->Ok_0 + seq![0x7Du8] + t;
        let t2 = value_wire(fields[i].1)->Ok_0 + tail;
        &&& name_at_head(before, fields[i].0@, t2)
        &&& lookup_field(specs, fields[i].0@) is Some
        &&& encodes_as(fields[i].1, lookup_field(specs, fields[i].0@)->Some_0, t2, tail)
        &&& fields_before(fields.skip(i + 1), specs, tail, t)
    })
}

proof fn lemma_field_step(
    fields: Seq<(String, Value)>,
    i: int,
    specs: Seq<(String, Shape)>,
    before: Seq<u8>,
    t: Seq<u8>,
)
    requires
        0 <= i <= fields.len(),
        fields_before(fields.skip(i), specs, before, t),
    ensures
        field_step(fields, i, specs, before, t),
{
    let rest = fields.skip(i);
    if fields.len() == i {
        assert(rest =~= Seq::<(String, Value)>::empty());
        assert(before.skip(1) =~= t);
        assert(fields.take(i) =~= fields);
    } else {
        assert(rest[0] == fields[i]);
        assert(rest.drop_first() =~= fields.skip(i + 1));
        let name = fields[i].0@;
        let tail = fields_wire(fields.skip(i + 1))->Ok_0 + seq![0x7Du8] + t;
        let t2 = value_wire(fields[i].1)->Ok_0 + tail;
        assert(before =~= unmarked_string_wire(name) + t2);
        lemma_name_head(name, t2);
    }
}

/// What the `i`-th step of reading map entries finds: the closing `}` when all
/// entries are read, else the next key, then its value.
pub open spec fn entry_step(
    entries: Seq<(Value, Value)>,
    i: int,
    e: Shape,
    before: Seq<u8>,
    t: Seq<u8>,
) -> bool {
    &&& entries.len() == i ==> (before.len() > 0 && before[0] == 0x7D && before.skip(1) == t
        && entries.take(i) == entries)
    &&& entries.len() > i ==> ({
        let tail = entries_wire(entries.skip(i + 1))->Ok_0 + seq![0x7Du8] + t;
        let t2 = value_wire(entries[i].1)->Ok_0 + tail;
        &&& entries[i].0 is Str
        &&& name_at_head(before, entries[i].0->Str_0@, t2)
        &&& encodes_as(entries[i].1, e, t2, tail)
        &&& entries_before(entries.skip(i + 1), e, tail, t)
    })
}

proof fn lemma_entry_step(
    entries: Seq<(Value, Value)>,
    i: int,
    e: Shape,
    before: Seq<u8>,
    t: Seq<u8>,
)
    requires
        0 <= i <= entries.len(),
        entries_before(entries.skip(i), e, before, t),
    ensures
        entry_step(entries, i, e, before, t),
{
    let rest = entries.skip(i);
    if entries.len() == i {
        assert(rest =~= Seq::<(Value, Value)>::empty());
        assert(before.skip(1) =~= t);
        assert(entries.take(i) =~= entries);
    } else {
        assert(rest[0] == entries[i]);
        assert(rest.drop_first() =~= entries.skip(i + 1));
        let name = entries[i].0->Str_0@;
        let tail = entries_wire(entries.skip(i + 1))->Ok_0 + seq![0x7Du8] + t;
        let t2 = value_wire(entries[i].1)->Ok_0 + tail;
        assert(before =~= unmarked_string_wire(name) + t2);
        lemma_name_head(name, t2);
    }
}

/// What reading a union alternative finds: `{`, the alternative's name, its
/// payload, then `}`.
pub open spec fn union_head(v: Value, variants: Seq<(String, PayloadShape)>, s: Seq<u8>, t: Seq<u8>) -> bool {
    let name = v->Union_0@;
    let p = v->Union_1;
    let t2 = payload_wire(p)->Ok_0 + (seq![0x7Du8] + t);
    &&& v is Union
    &&& s.len() > 0 && s[0] == 0x7B
    &&& name_at_head(s.skip(1), name, t2)
    &&& lookup_variant(variants, name) is Some
    &&& payload_before(p, lookup_variant(variants, name)->Some_0, t2, seq![0x7Du8] + t)
}

proof fn lemma_union_head(v: Value, variants: Vec<(String, PayloadShape)>, s: Seq<u8>, t: Seq<u8>)
    requires
        encodes_as(v, Shape::Union(variants), s, t),
    ensures
        union_head(v, variants@, s, t),
{
    let name = v->Union_0@;
    let p = v->Union_1;
    let t2 = payload_wire(p)->Ok_0 + (seq![0x7Du8] + t);
    assert(s.skip(1) =~= unmarked_string_wire(name) + t2);
    lemma_name_head(name, t2);
}

/// Reads the fields of a record whose `{` was read, up to and with its `}`.
#[verifier::rlimit(80)]
#[verifier::spinoff_prover]
fn read_fields(r: &mut UbjReader, specs: &Vec<(String, Shape)>) -> (res: UbjResult<
    Vec<(String, Value)>,
>)
    requires
        old(r).wf(),
    ensures
        final(r).wf(),
        res is Ok ==> final(r).rest().len() < old(r).rest().len(),
        res is Ok ==> shaped_fields(res->Ok_0@, specs@),
        forall|fields: Seq<(String, Value)>, t: Seq<u8>|
            #[trigger] fields_before(fields, specs@, old(r).rest(), t) ==> (res is Ok
                && same_fields(res->Ok_0@, fields) && final(r).rest() == t),
        forall|fields: Seq<(String, Value)>|
            #[trigger] fields_cut(fields, specs@, old(r).rest()) ==> res == Err::<Vec<(String, Value)>, UbjError>(
                UbjError::UnexpectedEof,
            ),
    decreases specs, 0nat,
{
    let ghost s0 = old(r).rest();
    let mut out: Vec<(String, Value)> = Vec::new();
    proof {
        assert forall|fields: Seq<(String, Value)>, t: Seq<u8>| #[trigger] fields_before(fields, specs@, s0, t) implies (
        fields_before(fields.skip(0), specs@, s0, t) && same_fields(out@, fields.take(0))) by {
            assert(fields.skip(0) =~= fields);
            assert(fields.take(0) =~= Seq::<(String, Value)>::empty());
        }
    }
    proof {
        assert forall|fields: Seq<(String, Value)>| #[trigger] fields_cut(fields, specs@, s0) implies fields_cut(fields.skip(0), specs@, s0) by {
            assert(fields.skip(0) =~= fields);
        }
    }
    loop
        invariant
            r.wf(),
            s0 == old(r).rest(),
            r.rest().len() <= s0.len(),
            shaped_fields(out@, specs@),
            forall|fields: Seq<(String, Value)>, t: Seq<u8>|
                #[trigger] fields_before(fields, specs@, s0, t) ==> (out@.len() <= fields.len()
                    && fields_before(fields.skip(out@.len() as int), specs@, r.rest(), t)
                    && same_fields(out@, fields.take(out@.len() as int))),
            forall|fields: Seq<(String, Value)>|
                #[trigger] fields_cut(fields, specs@, s0) ==> (out@.len() <= fields.len() && fields_cut(
                    fields.skip(out@.len() as int),
                    specs@,
                    r.rest(),
                )),
        decreases r.rest().len(),
    {
        let ghost before = r.rest();
        let ghost i = out@.len() as int;
        proof {
            assert forall|fields: Seq<(String, Value)>, t: Seq<u8>| #[trigger] fields_before(fields, specs@, s0, t) implies field_step(
                fields,
                i,
                specs@,
                before,
                t,
            ) by {
                lemma_field_step(fields, i, specs@, before, t);
            }
        }
        proof {
            assert forall|fields: Seq<(String, Value)>| #[trigger] fields_cut(fields, specs@, s0) implies field_cut_step(fields, i, specs@, before) by {
                lemma_field_cut_step(fields, i, specs@, before);
            }
        }
        match r.read_end_object() {
            Ok(()) => {
                return Ok(out);
            },
            Err(UbjError::UnexpectedEof) => {
                return Err(UbjError::UnexpectedEof);
            },
            Err(_) => {},
        }
        let key_res = r.read_unmarked_string();
        let ghost after_key = r.rest();
        proof {
            assert forall|fields: Seq<(String, Value)>, t: Seq<u8>| #[trigger] fields_before(fields, specs@, s0, t) implies (fields.len() > i
                && key_res is Ok && key_res->Ok_0@ == fields[i].0@ && after_key == value_wire(fields[i].1)->Ok_0
                + (fields_wire(fields.skip(i + 1))->Ok_0 + seq![0x7Du8] + t)) by {
                let tail = fields_wire(fields.skip(i + 1))->Ok_0 + seq![0x7Du8] + t;
                lemma_read_name(before, fields[i].0@, value_wire(fields[i].1)->Ok_0 + tail, key_res, after_key);
            }
        }
        proof {
            assert forall|fields: Seq<(String, Value)>| #[trigger] fields_cut(fields, specs@, s0) implies ({
                let wn = unmarked_string_wire(fields[i].0@);
                &&& (fields.len() == i || before.len() < wn.len()) ==> key_res == Err::<String, UbjError>(
                    UbjError::UnexpectedEof,
                )
                &&& (fields.len() > i && before.len() >= wn.len()) ==> (key_res is Ok
                    && key_res->Ok_0@ == fields[i].0@ && after_key == before.skip(wn.len() as int))
            }) by {
                if fields.len() > i {
                    let wn = unmarked_string_wire(fields[i].0@);
                    if before.len() < wn.len() {
                        lemma_name_cut(fields[i].0@, before, key_res);
                    } else {
                        lemma_read_name(before, fields[i].0@, before.skip(wn.len() as int), key_res, after_key);
                    }
                }
            }
        }
        let key = match key_res {
            Ok(k) => k,
            Err(e) => {
                return Err(e);
            },
        };
        let idx = match find_field(specs, &key) {
            Some(idx) => idx,
            None => {
                return Err(UbjError::Unsupported("unknown record field"));
            },
        };
        let x = read_value(r, &specs[idx].1)?;
        proof {
            assert forall|fields: Seq<(String, Value)>, t: Seq<u8>| #[trigger] fields_before(fields, specs@, s0, t) implies (
            out@.push((key, x)).len() <= fields.len() && fields_before(
                fields.skip(out@.push((key, x)).len() as int),
                specs@,
                r.rest(),
                t,
            ) && same_fields(out@.push((key, x)), fields.take(out@.push((key, x)).len() as int))) by {
                assert(fields.take(i + 1).drop_last() =~= fields.take(i));
                assert(out@.push((key, x)).drop_last() =~= out@);
            }
        }
        proof {
            assert forall|fields: Seq<(String, Value)>| #[trigger] fields_cut(fields, specs@, s0) implies fields_cut(fields.skip(i + 1), specs@, r.rest())
                && i + 1 <= fields.len() by {}
        }
        proof {
            assert(out@.push((key, x)).drop_last() =~= out@);
        }
        out.push((key, x));
    }
}

/// Two strings with the same characters are the same value.
proof fn lemma_same_str(a: String, k: Value)
    requires
        k is Str,
        a@ == k->Str_0@,
    ensures
        same(Value::Str(a), k),
{
}

/// Reads the entries of a map whose `{` was read, up to and with its `}`.
#[verifier::rlimit(80)]
#[verifier::spinoff_prover]
fn read_entries(r: &mut UbjReader, e: &Shape) -> (res: UbjResult<Vec<(Value, Value)>>)
    requires
        old(r).wf(),
    ensures
        final(r).wf(),
        res is Ok ==> final(r).rest().len() < old(r).rest().len(),
        res is Ok ==> shaped_entries(res->Ok_0@, *e),
        forall|entries: Seq<(Value, Value)>, t: Seq<u8>|
            #[trigger] entries_before(entries, *e, old(r).rest(), t) ==> (res is Ok
                && same_entries(res->Ok_0@, entries) && final(r).rest() == t),
        forall|entries: Seq<(Value, Value)>|
            #[trigger] entries_cut(entries, *e, old(r).rest()) ==> res == Err::<Vec<(Value, Value)>, UbjError>(
                UbjError::UnexpectedEof,
            ),
    decreases e, 3nat,
{
    let ghost s0 = old(r).rest();
    let mut out: Vec<(Value, Value)> = Vec::new();
    proof {
        assert forall|entries: Seq<(Value, Value)>, t: Seq<u8>| #[trigger] entries_before(entries, *e, s0, t) implies (
        entries_before(entries.skip(0), *e, s0, t) && same_entries(out@, entries.take(0))) by {
            assert(entries.skip(0) =~= entries);
            assert(entries.take(0) =~= Seq::<(Value, Value)>::empty());
        }
    }
    proof {
        assert forall|entries: Seq<(Value, Value)>| #[trigger] entries_cut(entries, *e, s0) implies entries_cut(entries.skip(0), *e, s0) by {
            assert(entries.skip(0) =~= entries);
        }
    }
    loop
        invariant
            r.wf(),
            s0 == old(r).rest(),
            r.rest().len() <= s0.len(),
            shaped_entries(out@, *e),
            forall|entries: Seq<(Value, Value)>, t: Seq<u8>|
                #[trigger] entries_before(entries, *e, s0, t) ==> (out@.len() <= entries.len()
                    && entries_before(entries.skip(out@.len() as int), *e, r.rest(), t)
                    && same_entries(out@, entries.take(out@.len() as int))),
            forall|entries: Seq<(Value, Value)>|
                #[trigger] entries_cut(entries, *e, s0) ==> (out@.len() <= entries.len() && entries_cut(
                    entries.skip(out@.len() as int),
                    *e,
                    r.rest(),
                )),
        decreases r.rest().len(),
    {
        let ghost before = r.rest();
        let ghost i = out@.len() as int;
        proof {
            assert forall|entries: Seq<(Value, Value)>, t: Seq<u8>| #[trigger] entries_before(entries, *e, s0, t) implies entry_step(
                entries,
                i,
                *e,
                before,
                t,
            ) by {
                lemma_entry_step(entries, i, *e, before, t);
            }
        }
        proof {
            assert forall|entries: Seq<(Value, Value)>| #[trigger] entries_cut(entries, *e, s0) implies entry_cut_step(entries, i, *e, before) by {
                lemma_entry_cut_step(entries, i, *e, before);
            }
        }
        match r.read_end_object() {
            Ok(()) => {
                return Ok(out);
            },
            Err(UbjError::UnexpectedEof) => {
                return Err(UbjError::UnexpectedEof);
            },
            Err(_) => {},
        }
        let key_res = r.read_unmarked_string();
        let ghost after_key = r.rest();
        proof {
            assert forall|entries: Seq<(Value, Value)>, t: Seq<u8>| #[trigger] entries_before(entries, *e, s0, t) implies (entries.len() > i
                && key_res is Ok && key_res->Ok_0@ == entries[i].0->Str_0@ && after_key == value_wire(entries[i].1)->Ok_0
                + (entries_wire(entries.skip(i + 1))->Ok_0 + seq![0x7Du8] + t)) by {
                let tail = entries_wire(entries.skip(i + 1))->Ok_0 + seq![0x7Du8] + t;
                lemma_read_name(before, entries[i].0->Str_0@, value_wire(entries[i].1)->Ok_0 + tail, key_res, after_key);
            }
        }
        proof {
            assert forall|entries: Seq<(Value, Value)>| #[trigger] entries_cut(entries, *e, s0) implies ({
                let wn = unmarked_string_wire(entries[i].0->Str_0@);
                &&& (entries.len() == i || before.len() < wn.len()) ==> key_res == Err::<String, UbjError>(
                    UbjError::UnexpectedEof,
                )
                &&& (entries.len() > i && before.len() >= wn.len()) ==> (key_res is Ok
                    && key_res->Ok_0@ == entries[i].0->Str_0@ && after_key == before.skip(wn.len() as int))
            }) by {
                if entries.len() > i {
                    let wn = unmarked_string_wire(entries[i].0->Str_0@);
                    if before.len() < wn.len() {
                        lemma_name_cut(entries[i].0->Str_0@, before, key_res);
                    } else {
                        lemma_read_name(before, entries[i].0->Str_0@, before.skip(wn.len() as int), key_res, after_key);
                    }
                }
            }
        }
        let key = match key_res {
            Ok(k) => k,
            Err(e) => {
                return Err(e);
            },
        };
        let x = read_value(r, e)?;
        proof {
            let k = Value::Str(key);
            assert forall|entries: Seq<(Value, Value)>, t: Seq<u8>| #[trigger] entries_before(entries, *e, s0, t) implies (
            out@.push((k, x)).len() <= entries.len() && entries_before(
                entries.skip(out@.push((k, x)).len() as int),
                *e,
                r.rest(),
                t,
            ) && same_entries(out@.push((k, x)), entries.take(out@.push((k, x)).len() as int))) by {
                lemma_same_str(key, entries[i].0);
                assert(entries.take(i + 1).drop_last() =~= entries.take(i));
                assert(out@.push((k, x)).drop_last() =~= out@);
            }
        }
        proof {
            assert forall|entries: Seq<(Value, Value)>| #[trigger] entries_cut(entries, *e, s0) implies entries_cut(entries.skip(i + 1), *e, r.rest())
                && i + 1 <= entries.len() by {}
        }
        proof {
            assert(out@.push((Value::Str(key), x)).drop_last() =~= out@);
        }
        out.push((Value::Str(key), x));
    }
}

/// Reads a union payload of the expected shape.
fn read_payload(r: &mut UbjReader, ps: &PayloadShape) -> (res: UbjResult<Payload>)
    requires
        old(r).wf(),
    ensures
        final(r).wf(),
        res is Ok ==> final(r).rest().len() < old(r).rest().len(),
        res is Ok ==> shaped_payload(res->Ok_0, *ps),
        forall|p: Payload, t: Seq<u8>|
            #[trigger] payload_before(p, *ps, old(r).rest(), t) ==> (res is Ok && same_payload(
                res->Ok_0,
                p,
            ) && final(r).rest() == t),
        forall|p: Payload|
            #[trigger] payload_cut(p, *ps, old(r).rest()) ==> res == Err::<Payload, UbjError>(
                UbjError::UnexpectedEof,
            ),
    decreases ps, 0nat,
{
    let ghost s = old(r).rest();
    match ps {
        PayloadShape::Unit => {
            proof {
                assert forall|p: Payload, t: Seq<u8>| #[trigger] payload_before(p, *ps, s, t) implies s.skip(1) == t by {
                    assert(s.skip(1) =~= t);
                }
            }
            proof {
                assert forall|p: Payload| #[trigger] payload_cut(p, *ps, s) implies s.len() == 0 by {
                    lemma_fixed_cut(s, payload_wire(p)->Ok_0);
                }
            }
            r.read_null()?;
            Ok(Payload::Unit)
        },
        PayloadShape::Newtype(sh) => {
            proof {
                assert forall|p: Payload, t: Seq<u8>| #[trigger] payload_before(p, *ps, s, t) implies encodes_as(
                    *p->Newtype_0,
                    **sh,
                    s,
                    t,
                ) by {}
            }
            proof {
                assert forall|p: Payload| #[trigger] payload_cut(p, *ps, s) implies truncates(
                    *p->Newtype_0,
                    **sh,
                    s,
                ) by {}
            }
            let x = read_value(r, sh)?;
            Ok(Payload::Newtype(Box::new(x)))
        },
        PayloadShape::Tuple(shapes) => {
            proof {
                assert forall|p: Payload, t: Seq<u8>| #[trigger] payload_before(p, *ps, s, t) implies (s.len()
                    > 0 && s[0] == 0x5B && each_before(p->Tuple_0@, shapes@, s.skip(1), t)) by {
                    assert(s.skip(1) =~= items_wire(p->Tuple_0@)->Ok_0 + seq![0x5Du8] + t);
                }
            }
            proof {
                assert forall|p: Payload| #[trigger] payload_cut(p, *ps, s) implies (s.len() == 0 || (s[0]
                    == 0x5Bu8 && each_cut(p->Tuple_0@, shapes@, s.skip(1)))) by {
                    let body = items_wire(p->Tuple_0@)->Ok_0 + seq![0x5Du8];
                    assert(payload_wire(p)->Ok_0 =~= seq![0x5Bu8] + body);
                    lemma_prefix_split(s, seq![0x5Bu8], body);
                }
            }
            r.read_start_array()?;
            let items = read_fixed_elements(r, shapes)?;
            Ok(Payload::Tuple(items))
        },
        PayloadShape::Struct(specs) => {
            proof {
                assert forall|p: Payload, t: Seq<u8>| #[trigger] payload_before(p, *ps, s, t) implies (s.len()
                    > 0 && s[0] == 0x7B && fields_before(p->Struct_0@, specs@, s.skip(1), t)) by {
                    assert(s.skip(1) =~= fields_wire(p->Struct_0@)->Ok_0 + seq![0x7Du8] + t);
                }
            }
            proof {
                assert forall|p: Payload| #[trigger] payload_cut(p, *ps, s) implies (s.len() == 0 || (s[0]
                    == 0x7Bu8 && fields_cut(p->Struct_0@, specs@, s.skip(1)))) by {
                    let body = fields_wire(p->Struct_0@)->Ok_0 + seq![0x7Du8];
                    assert(payload_wire(p)->Ok_0 =~= seq![0x7Bu8] + body);
                    lemma_prefix_split(s, seq![0x7Bu8], body);
                }
            }
            r.read_start_object()?;
            let fields = read_fields(r, specs)?;
            Ok(Payload::Struct(fields))
        },
    }
}

/// Where reading a union alternative stands on input cut short: inside the
/// name, inside the payload, or just before the closing `}`.
pub open spec fn union_cut(v: Value, variants: Seq<(String, PayloadShape)>, s: Seq<u8>) -> bool {
    let name = v->Union_0@;
    let p = v->Union_1;
    let wn = unmarked_string_wire(name);
    let pw = payload_wire(p)->Ok_0;
    let u = s.skip(1);
    let b2 = u.skip(wn.len() as int);
    &&& v is Union
    &&& string_fits(name) && fits_here(name)
    &&& s.len() > 0 ==> s[0] == 0x7Bu8
    &&& (s.len() > 0 && u.len() < wn.len()) ==> proper_prefix(u, wn)
    &&& (s.len() > 0 && u.len() >= wn.len()) ==> ({
        &&& name_at_head(u, name, b2)
        &&& lookup_variant(variants, name) is Some
        &&& b2.len() < pw.len() ==> payload_cut(p, lookup_variant(variants, name)->Some_0, b2)
        &&& b2.len() >= pw.len() ==> (b2.skip(pw.len() as int).len() == 0 && payload_before(
            p,
            lookup_variant(variants, name)->Some_0,
            b2,
            b2.skip(pw.len() as int),
        ))
    })
}

proof fn lemma_union_cut(v: Value, variants: Vec<(String, PayloadShape)>, s: Seq<u8>)
    requires
        truncates(v, Shape::Union(variants), s),
    ensures
        union_cut(v, variants@, s),
{
    let name = v->Union_0@;
    let p = v->Union_1;
    let wn = unmarked_string_wire(name);
    let pw = payload_wire(p)->Ok_0;
    let body = wn + (pw + seq![0x7Du8]);
    assert(value_wire(v)->Ok_0 =~= seq![0x7Bu8] + body);
    lemma_prefix_split(s, seq![0x7Bu8], body);
    if s.len() > 0 {
        let u = s.skip(1);
        assert(u =~= s.skip(seq![0x7Bu8].len() as int));
        lemma_prefix_split(u, wn, pw + seq![0x7Du8]);
        if u.len() >= wn.len() {
            let b2 = u.skip(wn.len() as int);
            lemma_name_head(name, b2);
            lemma_prefix_split(b2, pw, seq![0x7Du8]);
            if b2.len() >= pw.len() {
                assert(b2 =~= pw + b2.skip(pw.len() as int));
            }
        }
    }
}

/// Reads a union alternative: a one-entry object whose key names the
/// alternative and whose value is its payload.
fn read_union(r: &mut UbjReader, variants: &Vec<(String, PayloadShape)>) -> (res: UbjResult<Value>)
    requires
        old(r).wf(),
    ensures
        final(r).wf(),
        res is Ok ==> final(r).rest().len() < old(r).rest().len(),
        res is Ok ==> shaped(res->Ok_0, Shape::Union(*variants)),
        forall|v: Value, t: Seq<u8>|
            #[trigger] encodes_as(v, Shape::Union(*variants), old(r).rest(), t) ==> (res is Ok
                && same(res->Ok_0, v) && final(r).rest() == t),
        forall|v: Value|
            #[trigger] truncates(v, Shape::Union(*variants), old(r).rest()) ==> res == Err::<
                Value,
                UbjError,
            >(UbjError::UnexpectedEof),
    decreases variants, 0nat,
{
    let ghost s = old(r).rest();
    proof {
        assert forall|v: Value, t: Seq<u8>| #[trigger] encodes_as(v, Shape::Union(*variants), s, t) implies union_head(
            v,
            variants@,
            s,
            t,
        ) by {
            lemma_union_head(v, *variants, s, t);
        }
    }
    proof {
        assert forall|v: Value| #[trigger] truncates(v, Shape::Union(*variants), s) implies union_cut(
            v,
            variants@,
            s,
        ) by {
            lemma_union_cut(v, *variants, s);
        }
    }
    r.read_start_object()?;
    let ghost u = r.rest();
    let name_res = r.read_unmarked_string();
    let ghost after_name = r.rest();
    proof {
        assert forall|v: Value| #[trigger] truncates(v, Shape::Union(*variants), s) implies ({
            let wn = unmarked_string_wire(v->Union_0@);
            &&& u.len() < wn.len() ==> name_res == Err::<String, UbjError>(UbjError::UnexpectedEof)
            &&& u.len() >= wn.len() ==> (name_res is Ok && name_res->Ok_0@ == v->Union_0@
                && after_name == u.skip(wn.len() as int))
        }) by {
            let wn = unmarked_string_wire(v->Union_0@);
            assert(u == s.skip(1));
            if u.len() < wn.len() {
                lemma_name_cut(v->Union_0@, u, name_res);
            } else {
                lemma_read_name(u, v->Union_0@, u.skip(wn.len() as int), name_res, after_name);
            }
        }
    }
    let name = match name_res {
        Ok(n) => n,
        Err(e) => {
            return Err(e);
        },
    };
    let idx = match find_variant(variants, &name) {
        Some(idx) => idx,
        None => {
            return Err(UbjError::Unsupported("unknown union alternative"));
        },
    };
    let payload = read_payload(r, &variants[idx].1)?;
    let ghost before_end = r.rest();
    proof {
        assert forall|v: Value, t: Seq<u8>| #[trigger] encodes_as(v, Shape::Union(*variants), s, t) implies (
        before_end.len() > 0 && before_end[0] == 0x7D && before_end.skip(1) == t) by {
            assert((seq![0x7Du8] + t).skip(1) =~= t);
        }
    }
    r.read_end_object()?;
    Ok(Value::Union(name, payload))
}

/// `a` is a proper prefix of `b`: what is left of `b` when its input is cut short.
pub open spec fn proper_prefix(a: Seq<u8>, b: Seq<u8>) -> bool {
    a.len() < b.len() && b.take(a.len() as int) == a
}

/// `s` is a proper prefix of the bytes of `v`, which has shape `sh`.
pub open spec fn truncates(v: Value, sh: Shape, s: Seq<u8>) -> bool {
    conforms(v, sh) && value_wire(v) is Ok && proper_prefix(s, value_wire(v)->Ok_0)
}

/// A proper prefix is shorter and, unless empty, opens with the same byte.
proof fn lemma_fixed_cut(a: Seq<u8>, b: Seq<u8>)
    requires
        proper_prefix(a, b),
    ensures
        a.len() < b.len(),
        a.len() > 0 ==> a[0] == b[0],
{
    if a.len() > 0 {
        assert(a[0] == b.take(a.len() as int)[0]);
    }
}

/// A narrowed integer cut short is not a complete one, and reads as
/// `UnexpectedEof`.
proof fn lemma_int_cut(a: Seq<u8>, b: Seq<u8>)
    requires
        proper_prefix(a, b),
        has_narrowed_int(b),
        narrowed_len(b) == b.len(),
    ensures
        !has_narrowed_int(a),
        narrowed_failure(a) == UbjError::UnexpectedEof,
{
    lemma_fixed_cut(a, b);
}

/// A proper prefix of `x + y` ends inside `x`, or holds `x` and ends inside `y`.
proof fn lemma_prefix_split(a: Seq<u8>, x: Seq<u8>, y: Seq<u8>)
    requires
        proper_prefix(a, x + y),
    ensures
        a.len() < x.len() ==> proper_prefix(a, x),
        a.len() >= x.len() ==> (a == x + a.skip(x.len() as int) && proper_prefix(
            a.skip(x.len() as int),
            y,
        )),
        a.len() > 0 ==> a[0] == (x + y)[0],
{
    if a.len() < x.len() {
        assert(x.take(a.len() as int) =~= (x + y).take(a.len() as int));
    } else {
        assert(a =~= x + a.skip(x.len() as int));
        assert(y.take(a.skip(x.len() as int).len() as int) =~= a.skip(x.len() as int));
    }
    if a.len() > 0 {
        assert(a[0] == (x + y).take(a.len() as int)[0]);
    }
}

/// A string without marker cut short reads as `UnexpectedEof`.
proof fn lemma_name_cut(x: Seq<char>, a: Seq<u8>, r: UbjResult<String>)
    requires
        string_fits(x),
        fits_here(x),
        proper_prefix(a, unmarked_string_wire(x)),
        crate::reader::unmarked_string_outcome(a, r),
    ensures
        r == Err::<String, UbjError>(UbjError::UnexpectedEof),
{
    let b = encode_utf8(x);
    let n = b.len() as int;
    let w = int_wire(n);
    lemma_int_wire(n, Seq::<u8>::empty());
    assert(w + Seq::<u8>::empty() =~= w);
    lemma_prefix_split(a, w, b);
    if a.len() < w.len() {
        if a.len() > 0 {
            assert(a[0] == w[0]);
        }
    } else {
        let rest = a.skip(w.len() as int);
        lemma_int_wire(n, rest);
        encode_utf8_valid_utf8(x);
        assert(b.take(rest.len() as int) =~= rest.take(rest.len() as int));
        assert(crate::reader::text_witness(b, rest, n as nat));
    }
}

/// `s` is a proper prefix of the bytes of the elements `items`, each of shape
/// `e`, then `]`.
pub open spec fn items_cut(items: Seq<Value>, e: Shape, s: Seq<u8>) -> bool {
    conforms_all(items, e) && items_wire(items) is Ok && proper_prefix(
        s,
        items_wire(items)->Ok_0 + seq![0x5Du8],
    )
}

/// `s` is a proper prefix of the bytes of the elements `items`, one per shape,
/// then `]`.
pub open spec fn each_cut(items: Seq<Value>, shapes: Seq<Shape>, s: Seq<u8>) -> bool {
    conforms_each(items, shapes) && items_wire(items) is Ok && proper_prefix(
        s,
        items_wire(items)->Ok_0 + seq![0x5Du8],
    )
}

/// `s` is a proper prefix of the bytes of the record fields `fields`, then `}`.
pub open spec fn fields_cut(fields: Seq<(String, Value)>, specs: Seq<(String, Shape)>, s: Seq<u8>) -> bool {
    conforms_fields(fields, specs) && fields_wire(fields) is Ok && proper_prefix(
        s,
        fields_wire(fields)->Ok_0 + seq![0x7Du8],
    )
}

/// `s` is a proper prefix of the bytes of the map entries `entries`, then `}`.
pub open spec fn entries_cut(entries: Seq<(Value, Value)>, e: Shape, s: Seq<u8>) -> bool {
    conforms_entries(entries, e) && entries_wire(entries) is Ok && proper_prefix(
        s,
        entries_wire(entries)->Ok_0 + seq![0x7Du8],
    )
}

/// `s` is a proper prefix of the bytes of the union payload `p`.
pub open spec fn payload_cut(p: Payload, ps: PayloadShape, s: Seq<u8>) -> bool {
    conforms_payload(p, ps) && payload_wire(p) is Ok && proper_prefix(s, payload_wire(p)->Ok_0)
}

/// Where the `i`-th element step stands on input cut short: nothing left when
/// all elements were read; else the element is cut, or complete and followed
/// by the rest cut short.
pub open spec fn elem_cut_step(items: Seq<Value>, i: int, e: Shape, before: Seq<u8>) -> bool {
    &&& items.len() == i ==> before.len() == 0
    &&& items.len() > i ==> ({
        let wx = value_wire(items[i])->Ok_0;
        let after = before.skip(wx.len() as int);
        &&& before.len() > 0 ==> before[0] != 0x5Du8
        &&& before.len() < wx.len() ==> truncates(items[i], e, before)
        &&& before.len() >= wx.len() ==> (encodes_as(items[i], e, before, after) && items_cut(
            items.skip(i + 1),
            e,
            after,
        ))
    })
}

proof fn lemma_elem_cut_step(items: Seq<Value>, i: int, e: Shape, before: Seq<u8>)
    requires
        0 <= i <= items.len(),
        items_cut(items.skip(i), e, before),
    ensures
        elem_cut_step(items, i, e, before),
{
    let rest = items.skip(i);
    if items.len() == i {
        assert(rest =~= Seq::<Value>::empty());
        lemma_fixed_cut(before, items_wire(rest)->Ok_0 + seq![0x5Du8]);
    } else {
        assert(rest[0] == items[i]);
        assert(rest.drop_first() =~= items.skip(i + 1));
        let wx = value_wire(items[i])->Ok_0;
        let y = items_wire(items.skip(i + 1))->Ok_0 + seq![0x5Du8];
        assert(items_wire(rest)->Ok_0 + seq![0x5Du8] =~= wx + y);
        lemma_prefix_split(before, wx, y);
        lemma_first_byte(items[i]);
        if before.len() >= wx.len() {
            assert(before =~= wx + before.skip(wx.len() as int));
        }
    }
}

/// As `elem_cut_step`, for an element of its own shape.
pub open spec fn each_cut_step(items: Seq<Value>, shapes: Seq<Shape>, i: int, before: Seq<u8>) -> bool {
    &&& items.len() == shapes.len()
    &&& items.len() == i ==> before.len() == 0
    &&& items.len() > i ==> ({
        let wx = value_wire(items[i])->Ok_0;
        let after = before.skip(wx.len() as int);
        &&& before.len() > 0 ==> before[0] != 0x5Du8
        &&& before.len() < wx.len() ==> truncates(items[i], shapes[i], before)
        &&& before.len() >= wx.len() ==> (encodes_as(items[i], shapes[i], before, after) && each_cut(
            items.skip(i + 1),
            shapes.skip(i + 1),
            after,
        ))
    })
}

proof fn lemma_each_cut_step(items: Seq<Value>, shapes: Seq<Shape>, i: int, before: Seq<u8>)
    requires
        0 <= i <= items.len(),
        items.len() == shapes.len(),
        each_cut(items.skip(i), shapes.skip(i), before),
    ensures
        each_cut_step(items, shapes, i, before),
{
    let rest = items.skip(i);
    if items.len() == i {
        assert(rest =~= Seq::<Value>::empty());
        lemma_fixed_cut(before, items_wire(rest)->Ok_0 + seq![0x5Du8]);
    } else {
        assert(rest[0] == items[i]);
        assert(rest.drop_first() =~= items.skip(i + 1));
        assert(shapes.skip(i)[0] == shapes[i]);
        assert(shapes.skip(i).drop_first() =~= shapes.skip(i + 1));
        let wx = value_wire(items[i])->Ok_0;
        let y = items_wire(items.skip(i + 1))->Ok_0 + seq![0x5Du8];
        assert(items_wire(rest)->Ok_0 + seq![0x5Du8] =~= wx + y);
        lemma_prefix_split(before, wx, y);
        lemma_first_byte(items[i]);
        if before.len() >= wx.len() {
            assert(before =~= wx + before.skip(wx.len() as int));
        }
    }
}

/// Where the `i`-th field step stands on input cut short: nothing left when
/// all fields were read; else the name is cut, or the value is, or both are
/// complete and followed by the rest cut short.
pub open spec fn field_cut_step(
    fields: Seq<(String, Value)>,
    i: int,
    specs: Seq<(String, Shape)>,
    before: Seq<u8>,
) -> bool {
    &&& fields.len() == i ==> before.len() == 0
    &&& fields.len() > i ==> ({
        let name = fields[i].0@;
        let val = fields[i].1;
        let wn = unmarked_string_wire(name);
        let b1 = before.skip(wn.len() as int);
        let wx = value_wire(val)->Ok_0;
        let b2 = b1.skip(wx.len() as int);
        &&& string_fits(name) && fits_here(name)
        &&& before.len() > 0 ==> before[0] != 0x7Du8
        &&& before.len() < wn.len() ==> proper_prefix(before, wn)
        &&& before.len() >= wn.len() ==> ({
            &&& name_at_head(before, name, b1)
            &&& lookup_field(specs, name) is Some
            &&& b1.len() < wx.len() ==> truncates(val, lookup_field(specs, name)->Some_0, b1)
            &&& b1.len() >= wx.len() ==> (encodes_as(val, lookup_field(specs, name)->Some_0, b1, b2)
                && fields_cut(fields.skip(i + 1), specs, b2))
        })
    })
}

proof fn lemma_field_cut_step(
    fields: Seq<(String, Value)>,
    i: int,
    specs: Seq<(String, Shape)>,
    before: Seq<u8>,
)
    requires
        0 <= i <= fields.len(),
        fields_cut(fields.skip(i), specs, before),
    ensures
        field_cut_step(fields, i, specs, before),
{
    let rest = fields.skip(i);
    if fields.len() == i {
        assert(rest =~= Seq::<(String, Value)>::empty());
        lemma_fixed_cut(before, fields_wire(rest)->Ok_0 + seq![0x7Du8]);
    } else {
        assert(rest[0] == fields[i]);
        assert(rest.drop_first() =~= fields.skip(i + 1));
        let name = fields[i].0@;
        let val = fields[i].1;
        let wn = unmarked_string_wire(name);
        let wx = value_wire(val)->Ok_0;
        let y = fields_wire(fields.skip(i + 1))->Ok_0 + seq![0x7Du8];
        assert(fields_wire(rest)->Ok_0 + seq![0x7Du8] =~= wn + (wx + y));
        lemma_prefix_split(before, wn, wx + y);
        lemma_name_head(name, Seq::<u8>::empty());
        assert(wn + Seq::<u8>::empty() =~= wn);
        if before.len() > 0 {
            assert(before[0] == wn[0]);
        }
        if before.len() >= wn.len() {
            let b1 = before.skip(wn.len() as int);
            lemma_name_head(name, b1);
            lemma_prefix_split(b1, wx, y);
            if b1.len() >= wx.len() {
                assert(b1 =~= wx + b1.skip(wx.len() as int));
            }
        }
    }
}

/// As `field_cut_step`, for map entries.
pub open spec fn entry_cut_step(entries: Seq<(Value, Value)>, i: int, e: Shape, before: Seq<u8>) -> bool {
    &&& entries.len() == i ==> before.len() == 0
    &&& entries.len() > i ==> ({
        let name = entries[i].0->Str_0@;
        let val = entries[i].1;
        let wn = unmarked_string_wire(name);
        let b1 = before.skip(wn.len() as int);
        let wx = value_wire(val)->Ok_0;
        let b2 = b1.skip(wx.len() as int);
        &&& entries[i].0 is Str
        &&& string_fits(name) && fits_here(name)
        &&& before.len() > 0 ==> before[0] != 0x7Du8
        &&& before.len() < wn.len() ==> proper_prefix(before, wn)
        &&& before.len() >= wn.len() ==> ({
            &&& name_at_head(before, name, b1)
            &&& b1.len() < wx.len() ==> truncates(val, e, b1)
            &&& b1.len() >= wx.len() ==> (encodes_as(val, e, b1, b2) && entries_cut(
                entries.skip(i + 1),
                e,
                b2,
            ))
        })
    })
}

proof fn lemma_entry_cut_step(entries: Seq<(Value, Value)>, i: int, e: Shape, before: Seq<u8>)
    requires
        0 <= i <= entries.len(),
        entries_cut(entries.skip(i), e, before),
    ensures
        entry_cut_step(entries, i, e, before),
{
    let rest = entries.skip(i);
    if entries.len() == i {
        assert(rest =~= Seq::<(Value, Value)>::empty());
        lemma_fixed_cut(before, entries_wire(rest)->Ok_0 + seq![0x7Du8]);
    } else {
        assert(rest[0] == entries[i]);
        assert(rest.drop_first() =~= entries.skip(i + 1));
        let name = entries[i].0->Str_0@;
        let val = entries[i].1;
        let wn = unmarked_string_wire(name);
        let wx = value_wire(val)->Ok_0;
        let y = entries_wire(entries.skip(i + 1))->Ok_0 + seq![0x7Du8];
        assert(entries_wire(rest)->Ok_0 + seq![0x7Du8] =~= wn + (wx + y));
        lemma_prefix_split(before, wn, wx + y);
        lemma_name_head(name, Seq::<u8>::empty());
        assert(wn + Seq::<u8>::empty() =~= wn);
        if before.len() > 0 {
            assert(before[0] == wn[0]);
        }
        if before.len() >= wn.len() {
            let b1 = before.skip(wn.len() as int);
            lemma_name_head(name, b1);
            lemma_prefix_split(b1, wx, y);
            if b1.len() >= wx.len() {
                assert(b1 =~= wx + b1.skip(wx.len() as int));
            }
        }
    }
}

/// Decodes one value of the expected shape from a byte vector. Whatever value
/// of that shape `to_vec` wrote, this reads the same value back; from any
/// proper prefix of those bytes it fails with `UnexpectedEof`; from bytes that
/// open with no marker at all it fails with `UnexpectedMarker`, for every shape
/// that the format can represent.
pub fn from_vec(bytes: Vec<u8>, sh: &Shape) -> (res: UbjResult<Value>)
    ensures
        res is Ok ==> shaped(res->Ok_0, *sh),
        forall|v: Value|
            conforms(v, *sh) && #[trigger] value_wire(v) == Ok::<Seq<u8>, UbjError>(bytes@) ==> (res is Ok
                && same(res->Ok_0, v)),
        forall|v: Value| #[trigger] truncates(v, *sh, bytes@) ==> res == Err::<Value, UbjError>(
            UbjError::UnexpectedEof,
        ),
        (bytes@.len() == 0 && representable_shape(*sh)) ==> res == Err::<Value, UbjError>(
            UbjError::UnexpectedEof,
        ),
        (bytes@.len() > 0 && UbjMarker::spec_from_byte(bytes@[0]) is None && representable_shape(*sh))
            ==> res == Err::<
            Value,
            UbjError,
        >(UbjError::UnexpectedMarker(bytes@[0])),
{
    let ghost b = bytes@;
    let input = crate::input::ChunkedInput::from_bytes(bytes);
    let mut r = UbjReader::new(input);
    proof {
        assert forall|v: Value| conforms(v, *sh) && #[trigger] value_wire(v) == Ok::<Seq<u8>, UbjError>(b) implies encodes_as(
            v,
            *sh,
            r.rest(),
            Seq::<u8>::empty(),
        ) by {
            assert(b + Seq::<u8>::empty() =~= b);
        }
    }
    read_value(&mut r, sh)
}

/// Round trip: the bytes of any value of a shape, followed by anything, are
/// what `read_value` reads that value back from, so that `from_vec` of what
/// `to_vec` wrote is the same value.
pub proof fn lemma_round_trip(v: Value, sh: Shape, t: Seq<u8>)
    requires
        conforms(v, sh),
        value_wire(v) is Ok,
    ensures
        encodes_as(v, sh, value_wire(v)->Ok_0 + t, t),
        value_wire(v)->Ok_0.len() > 0,
{
    lemma_first_byte(v);
}

} // verus!
