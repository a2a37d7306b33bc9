//! The structured values that the codec writes and reads: the shapes of the
//! serde data model, each with the bytes that stand for it on the wire.
use vstd::prelude::*;

use crate::error::{UbjError, UbjResult};
use crate::wire::{be32, be64, int_wire, long_string_error, marked_string_wire, name_wire, string_fits};
use crate::writer::UbjWriter;

verus! {

/// A structured value. Floats are held as their IEEE-754 bits.
#[derive(Debug, PartialEq)]
pub enum Value {
    Unit,
    Bool(bool),
    I8(i8),
    I16(i16),
    I32(i32),
    I64(i64),
    I128(i128),
    U8(u8),
    U16(u16),
    U32(u32),
    U64(u64),
    U128(u128),
    F32(u32),
    F64(u64),
    Char(char),
    Str(String),
    Bytes(Vec<u8>),
    /// An absent optional value.
    Absent,
    /// A present optional value.
    Present(Box<Value>),
    UnitStruct,
    NewtypeStruct(Box<Value>),
    /// A sequence of any length.
    Sequence(Vec<Value>),
    /// A sequence of fixed length.
    Tuple(Vec<Value>),
    TupleStruct(Vec<Value>),
    /// A record with named fields.
    Record(Vec<(String, Value)>),
    /// An associative map; only keys that reduce to strings can be written.
    Mapping(Vec<(Value, Value)>),
    /// One named alternative of a tagged union, with its payload.
    Union(String, Payload),
}

/// The payload of a union alternative.
#[derive(Debug, PartialEq)]
pub enum Payload {
    Unit,
    Newtype(Box<Value>),
    Tuple(Vec<Value>),
    Struct(Vec<(String, Value)>),
}

/// Two results of writing, one after the other: the first failure, or both
/// byte sequences.
pub open spec fn chain(a: Result<Seq<u8>, UbjError>, b: Result<Seq<u8>, UbjError>) -> Result<
    Seq<u8>,
    UbjError,
> {
    match a {
        Err(e) => Err(e),
        Ok(x) => match b {
            Err(e) => Err(e),
            Ok(y) => Ok(x + y),
        },
    }
}

/// A container: its opening marker, its contents, its closing marker.
pub open spec fn wrap(open: u8, inner: Result<Seq<u8>, UbjError>, close: u8) -> Result<
    Seq<u8>,
    UbjError,
> {
    chain(chain(Ok(seq![open]), inner), Ok(seq![close]))
}

/// The bytes that a value is written as, or the first failure in the order of
/// traversal.
pub open spec fn value_wire(v: Value) -> Result<Seq<u8>, UbjError>
    decreases v,
{
    match v {
        Value::Unit => Ok(seq![0x5Au8]),
        Value::Bool(b) => Ok(seq![if b { 0x54u8 } else { 0x46u8 }]),
        Value::I8(x) => Ok(seq![0x69u8, x as u8]),
        Value::I16(x) => Ok(int_wire(x as int)),
        Value::I32(x) => Ok(int_wire(x as int)),
        Value::I64(x) => Ok(int_wire(x as int)),
        Value::I128(_) => Err(UbjError::Unsupported("Rust i128 values")),
        Value::U8(x) => Ok(seq![0x55u8, x]),
        Value::U16(x) => Ok(int_wire(x as int)),
        Value::U32(x) => Ok(int_wire(x as int)),
        Value::U64(x) => if x <= i64::MAX {
            Ok(int_wire(x as int))
        } else {
            Err(UbjError::Unsupported("Rust u64 values greater than i64::MAX"))
        },
        Value::U128(_) => Err(UbjError::Unsupported("Rust u128 values")),
        Value::F32(bits) => Ok(seq![0x64u8] + be32(bits)),
        Value::F64(bits) => Ok(seq![0x44u8] + be64(bits)),
        Value::Char(c) => if c as u32 <= 127 {
            Ok(seq![0x43u8, c as u8])
        } else {
            Err(UbjError::CharNotAscii(c as u32))
        },
        Value::Str(s) => if string_fits(s@) {
            Ok(marked_string_wire(s@))
        } else {
            Err(long_string_error())
        },
        Value::Bytes(_) => Err(UbjError::Unsupported("byte sequences")),
        Value::Absent => Ok(seq![0x5Au8]),
        Value::Present(inner) => value_wire(*inner),
        Value::UnitStruct => Ok(seq![0x5Au8]),
        Value::NewtypeStruct(inner) => value_wire(*inner),
        Value::Sequence(items) => wrap(0x5B, items_wire(items@), 0x5D),
        Value::Tuple(items) => wrap(0x5B, items_wire(items@), 0x5D),
        Value::TupleStruct(items) => wrap(0x5B, items_wire(items@), 0x5D),
        Value::Record(fields) => wrap(0x7B, fields_wire(fields@), 0x7D),
        Value::Mapping(entries) => wrap(0x7B, entries_wire(entries@), 0x7D),
        Value::Union(name, payload) => wrap(
            0x7B,
            chain(name_wire(name@), payload_wire(payload)),
            0x7D,
        ),
    }
}

/// The bytes of a union payload: `Z` for none, the value for one, an array
/// for several, an object for named fields.
pub open spec fn payload_wire(p: Payload) -> Result<Seq<u8>, UbjError>
    decreases p,
{
    match p {
        Payload::Unit => Ok(seq![0x5Au8]),
        Payload::Newtype(inner) => value_wire(*inner),
        Payload::Tuple(items) => wrap(0x5B, items_wire(items@), 0x5D),
        Payload::Struct(fields) => wrap(0x7B, fields_wire(fields@), 0x7D),
    }
}

/// The elements of a sequence, one after the other.
pub open spec fn items_wire(items: Seq<Value>) -> Result<Seq<u8>, UbjError>
    decreases items,
{
    if items.len() == 0 {
        Ok(Seq::empty())
    } else {
        chain(value_wire(items[0]), items_wire(items.drop_first()))
    }
}

/// The fields of a record: each name as a string without marker, then its value.
pub open spec fn fields_wire(fields: Seq<(String, Value)>) -> Result<Seq<u8>, UbjError>
    decreases fields,
{
    if fields.len() == 0 {
        Ok(Seq::empty())
    } else {
        chain(
            chain(name_wire(fields[0].0@), value_wire(fields[0].1)),
            fields_wire(fields.drop_first()),
        )
    }
}

/// The entries of a map: each key as a string without marker, then its value.
pub open spec fn entries_wire(entries: Seq<(Value, Value)>) -> Result<Seq<u8>, UbjError>
    decreases entries,
{
    if entries.len() == 0 {
        Ok(Seq::empty())
    } else {
        chain(
            chain(key_wire(entries[0].0), value_wire(entries[0].1)),
            entries_wire(entries.drop_first()),
        )
    }
}

/// A map key: a string, written without marker, or a present optional that
/// holds a key; anything else is refused, by its kind.
pub open spec fn key_wire(k: Value) -> Result<Seq<u8>, UbjError>
    decreases k,
{
    match k {
        Value::Str(s) => name_wire(s@),
        Value::Present(inner) => key_wire(*inner),
        _ => Err(UbjError::IllegalKeyType(key_kind(k))),
    }
}

/// The kind by which a key that is not a string is refused.
pub open spec fn key_kind(k: Value) -> &'static str {
    match k {
        Value::Unit => "()",
        Value::Bool(_) => "bool",
        Value::I8(_) => "i8",
        Value::I16(_) => "i16",
        Value::I32(_) => "i32",
        Value::I64(_) => "i64",
        Value::I128(_) => "i128",
        Value::U8(_) => "u8",
        Value::U16(_) => "u16",
        Value::U32(_) => "u32",
        Value::U64(_) => "u64",
        Value::U128(_) => "u128",
        Value::F32(_) => "f32",
        Value::F64(_) => "f64",
        Value::Char(_) => "char",
        Value::Bytes(_) => "&[u8]",
        Value::Absent => "None",
        Value::Sequence(_) => "seq",
        Value::Tuple(_) => "tuple",
        Value::UnitStruct => "struct",
        Value::NewtypeStruct(_) => "struct",
        Value::TupleStruct(_) => "struct",
        Value::Record(_) => "struct",
        Value::Mapping(_) => "map",
        Value::Union(_, _) => "enum",
        Value::Str(_) => "str",
        Value::Present(_) => "Some",
    }
}

/// What a write promises: on success exactly the expected bytes were
/// appended; on failure the expected failure was returned.
pub open spec fn wrote(before: Seq<u8>, after: Seq<u8>, expected: Result<Seq<u8>, UbjError>, r: UbjResult<()>) -> bool {
    match expected {
        Ok(b) => r is Ok && after == before + b,
        Err(e) => r == Err::<(), UbjError>(e),
    }
}

proof fn lemma_chain_assoc(a: Seq<u8>, b: Seq<u8>, x: Result<Seq<u8>, UbjError>)
    ensures
        chain(Ok(a), chain(Ok(b), x)) == chain(Ok(a + b), x),
{
    if let Ok(y) = x {
        assert(a + (b + y) =~= (a + b) + y);
    }
}

/// Writes a value: scalars as one marked scalar, optionals as their content or
/// `Z`, sequences as arrays, records and maps as objects, unions as one-entry
/// objects keyed by the alternative's name.
pub fn write_value(w: &mut UbjWriter, v: &Value) -> (r: UbjResult<()>)
    ensures
        wrote(old(w).written(), final(w).written(), value_wire(*v), r),
    decreases v, 0nat,
{
    match v {
        Value::Unit => w.write_null(),
        Value::Bool(b) => w.write_bool(*b),
        Value::I8(x) => w.write_int8(*x),
        Value::I16(x) => w.write_int16(*x),
        Value::I32(x) => w.write_int32(*x),
        Value::I64(x) => w.write_int64(*x),
        Value::I128(_) => Err(UbjError::Unsupported("Rust i128 values")),
        Value::U8(x) => w.write_uint8(*x),
        Value::U16(x) => w.write_int32(*x as i32),
        Value::U32(x) => w.write_int64(*x as i64),
        Value::U64(x) => {
            if *x <= i64::MAX as u64 {
                w.write_int64(*x as i64)
            } else {
                Err(UbjError::Unsupported("Rust u64 values greater than i64::MAX"))
            }
        },
        Value::U128(_) => Err(UbjError::Unsupported("Rust u128 values")),
        Value::F32(bits) => {
            let r = w.write_float32(*bits);
            assert(old(w).written() + seq![0x64u8] + be32(*bits) =~= old(w).written() + (seq![0x64u8] + be32(*bits)));
            r
        },
        Value::F64(bits) => {
            let r = w.write_float64(*bits);
            assert(old(w).written() + seq![0x44u8] + be64(*bits) =~= old(w).written() + (seq![0x44u8] + be64(*bits)));
            r
        },
        Value::Char(c) => w.write_char(*c),
        Value::Str(s) => w.write_marked_string(s.as_str()),
        Value::Bytes(_) => Err(UbjError::Unsupported("byte sequences")),
        Value::Absent => w.write_null(),
        Value::Present(inner) => write_value(w, inner),
        Value::UnitStruct => w.write_null(),
        Value::NewtypeStruct(inner) => write_value(w, inner),
        Value::Sequence(items) => write_array(w, items),
        Value::Tuple(items) => write_array(w, items),
        Value::TupleStruct(items) => write_array(w, items),
        Value::Record(fields) => write_record(w, fields),
        Value::Mapping(entries) => write_mapping(w, entries),
        Value::Union(name, payload) => write_union(w, name, payload),
    }
}

/// The elements of a sequence, each as a value.
fn write_items(w: &mut UbjWriter, items: &Vec<Value>) -> (r: UbjResult<()>)
    ensures
        wrote(old(w).written(), final(w).written(), items_wire(items@), r),
    decreases items, 0nat,
{
    let ghost start = w.written();
    let mut i: usize = 0;
    assert(items@.skip(0) =~= items@);
    assert(w.written().subrange(start.len() as int, w.written().len() as int) =~= Seq::<u8>::empty());
    assert(chain(Ok(Seq::<u8>::empty()), items_wire(items@)) == items_wire(items@)) by {
        if let Ok(y) = items_wire(items@) {
            assert(Seq::<u8>::empty() + y =~= y);
        }
    }
    while i < items.len()
        invariant
            0 <= i <= items@.len(),
            start.len() <= w.written().len(),
            w.written().subrange(0, start.len() as int) == start,
            items_wire(items@) == chain(
                Ok(w.written().subrange(start.len() as int, w.written().len() as int)),
                items_wire(items@.skip(i as int)),
            ),
        decreases items@.len() - i,
    {
        let ghost before = w.written();
        let ghost acc = before.subrange(start.len() as int, before.len() as int);
        assert(items@.skip(i as int).drop_first() =~= items@.skip(i + 1));
        assert(items@.skip(i as int)[0] == items@[i as int]);
        match write_value(w, &items[i]) {
            Ok(()) => {},
            Err(e) => {
                return Err(e);
            },
        }
        proof {
            let b = value_wire(items@[i as int])->Ok_0;
            lemma_chain_assoc(acc, b, items_wire(items@.skip(i + 1)));
            assert(w.written().subrange(start.len() as int, w.written().len() as int) =~= acc + b);
            assert(w.written().subrange(0, start.len() as int) =~= start);
        }
        i = i + 1;
    }
    proof {
        assert(items@.skip(i as int) =~= Seq::<Value>::empty());
        let acc = w.written().subrange(start.len() as int, w.written().len() as int);
        assert(acc + Seq::<u8>::empty() =~= acc);
        assert(w.written() =~= start + acc);
    }
    Ok(())
}

/// The fields of a record, each as its name without marker and its value.
fn write_fields(w: &mut UbjWriter, fields: &Vec<(String, Value)>) -> (r: UbjResult<()>)
    ensures
        wrote(old(w).written(), final(w).written(), fields_wire(fields@), r),
    decreases fields, 0nat,
{
    let ghost start = w.written();
    let mut i: usize = 0;
    assert(fields@.skip(0) =~= fields@);
    assert(w.written().subrange(start.len() as int, w.written().len() as int) =~= Seq::<u8>::empty());
    assert(chain(Ok(Seq::<u8>::empty()), fields_wire(fields@)) == fields_wire(fields@)) by {
        if let Ok(y) = fields_wire(fields@) {
            assert(Seq::<u8>::empty() + y =~= y);
        }
    }
    while i < fields.len()
        invariant
            0 <= i <= fields@.len(),
            start.len() <= w.written().len(),
            w.written().subrange(0, start.len() as int) == start,
            fields_wire(fields@) == chain(
                Ok(w.written().subrange(start.len() as int, w.written().len() as int)),
                fields_wire(fields@.skip(i as int)),
            ),
        decreases fields@.len() - i,
    {
        let ghost before = w.written();
        let ghost acc = before.subrange(start.len() as int, before.len() as int);
        assert(fields@.skip(i as int).drop_first() =~= fields@.skip(i + 1));
        assert(fields@.skip(i as int)[0] == fields@[i as int]);
        let (name, value) = &fields[i];
        match w.write_unmarked_string(name.as_str()) {
            Ok(()) => {},
            Err(e) => {
                return Err(e);
            },
        }
        let ghost mid = w.written();
        match write_value(w, value) {
            Ok(()) => {},
            Err(e) => {
                return Err(e);
            },
        }
        proof {
            let a = name_wire(name@)->Ok_0;
            let b = value_wire(*value)->Ok_0;
            lemma_chain_assoc(acc, a + b, fields_wire(fields@.skip(i + 1)));
            assert(w.written().subrange(start.len() as int, w.written().len() as int) =~= acc + (a + b));
            assert(w.written().subrange(0, start.len() as int) =~= start);
        }
        i = i + 1;
    }
    proof {
        assert(fields@.skip(i as int) =~= Seq::<(String, Value)>::empty());
        let acc = w.written().subrange(start.len() as int, w.written().len() as int);
        assert(acc + Seq::<u8>::empty() =~= acc);
        assert(w.written() =~= start + acc);
    }
    Ok(())
}

/// The entries of a map, each as its key without marker and its value.
fn write_entries(w: &mut UbjWriter, entries: &Vec<(Value, Value)>) -> (r: UbjResult<()>)
    ensures
        wrote(old(w).written(), final(w).written(), entries_wire(entries@), r),
    decreases entries, 0nat,
{
    let ghost start = w.written();
    let mut i: usize = 0;
    assert(entries@.skip(0) =~= entries@);
    assert(w.written().subrange(start.len() as int, w.written().len() as int) =~= Seq::<u8>::empty());
    assert(chain(Ok(Seq::<u8>::empty()), entries_wire(entries@)) == entries_wire(entries@)) by {
        if let Ok(y) = entries_wire(entries@) {
            assert(Seq::<u8>::empty() + y =~= y);
        }
    }
    while i < entries.len()
        invariant
            0 <= i <= entries@.len(),
            start.len() <= w.written().len(),
            w.written().subrange(0, start.len() as int) == start,
            entries_wire(entries@) == chain(
                Ok(w.written().subrange(start.len() as int, w.written().len() as int)),
                entries_wire(entries@.skip(i as int)),
            ),
        decreases entries@.len() - i,
    {
        let ghost before = w.written();
        let ghost acc = before.subrange(start.len() as int, before.len() as int);
        assert(entries@.skip(i as int).drop_first() =~= entries@.skip(i + 1));
        assert(entries@.skip(i as int)[0] == entries@[i as int]);
        let (key, value) = &entries[i];
        match write_key(w, key) {
            Ok(()) => {},
            Err(e) => {
                return Err(e);
            },
        }
        match write_value(w, value) {
            Ok(()) => {},
            Err(e) => {
                return Err(e);
            },
        }
        proof {
            let a = key_wire(*key)->Ok_0;
            let b = value_wire(*value)->Ok_0;
            lemma_chain_assoc(acc, a + b, entries_wire(entries@.skip(i + 1)));
            assert(w.written().subrange(start.len() as int, w.written().len() as int) =~= acc + (a + b));
            assert(w.written().subrange(0, start.len() as int) =~= start);
        }
        i = i + 1;
    }
    proof {
        assert(entries@.skip(i as int) =~= Seq::<(Value, Value)>::empty());
        let acc = w.written().subrange(start.len() as int, w.written().len() as int);
        assert(acc + Seq::<u8>::empty() =~= acc);
        assert(w.written() =~= start + acc);
    }
    Ok(())
}

/// Writes a map key: a string without marker; a present optional is looked
/// through; every other kind is refused as an `IllegalKeyType` naming it.
pub fn write_key(w: &mut UbjWriter, k: &Value) -> (r: UbjResult<()>)
    ensures
        wrote(old(w).written(), final(w).written(), key_wire(*k), r),
    decreases k, 0nat,
{
    match k {
        Value::Str(s) => w.write_unmarked_string(s.as_str()),
        Value::Present(inner) => write_key(w, inner),
        Value::Unit => Err(UbjError::IllegalKeyType("()")),
        Value::Bool(_) => Err(UbjError::IllegalKeyType("bool")),
        Value::I8(_) => Err(UbjError::IllegalKeyType("i8")),
        Value::I16(_) => Err(UbjError::IllegalKeyType("i16")),
        Value::I32(_) => Err(UbjError::IllegalKeyType("i32")),
        Value::I64(_) => Err(UbjError::IllegalKeyType("i64")),
        Value::I128(_) => Err(UbjError::IllegalKeyType("i128")),
        Value::U8(_) => Err(UbjError::IllegalKeyType("u8")),
        Value::U16(_) => Err(UbjError::IllegalKeyType("u16")),
        Value::U32(_) => Err(UbjError::IllegalKeyType("u32")),
        Value::U64(_) => Err(UbjError::IllegalKeyType("u64")),
        Value::U128(_) => Err(UbjError::IllegalKeyType("u128")),
        Value::F32(_) => Err(UbjError::IllegalKeyType("f32")),
        Value::F64(_) => Err(UbjError::IllegalKeyType("f64")),
        Value::Char(_) => Err(UbjError::IllegalKeyType("char")),
        Value::Bytes(_) => Err(UbjError::IllegalKeyType("&[u8]")),
        Value::Absent => Err(UbjError::IllegalKeyType("None")),
        Value::Sequence(_) => Err(UbjError::IllegalKeyType("seq")),
        Value::Tuple(_) => Err(UbjError::IllegalKeyType("tuple")),
        Value::UnitStruct => Err(UbjError::IllegalKeyType("struct")),
        Value::NewtypeStruct(_) => Err(UbjError::IllegalKeyType("struct")),
        Value::TupleStruct(_) => Err(UbjError::IllegalKeyType("struct")),
        Value::Record(_) => Err(UbjError::IllegalKeyType("struct")),
        Value::Mapping(_) => Err(UbjError::IllegalKeyType("map")),
        Value::Union(_, _) => Err(UbjError::IllegalKeyType("enum")),
    }
}

/// Writes `open`, then what `body` stands for, then `close`.
proof fn lemma_wrap(before: Seq<u8>, open: u8, body: Seq<u8>, close: u8)
    ensures
        wrap(open, Ok(body), close) == Ok::<Seq<u8>, UbjError>(seq![open] + body + seq![close]),
        before.push(open) + body == before + seq![open] + body,
{
    assert(before.push(open) + body =~= before + seq![open] + body);
}

fn write_array(w: &mut UbjWriter, items: &Vec<Value>) -> (r: UbjResult<()>)
    ensures
        wrote(old(w).written(), final(w).written(), wrap(0x5B, items_wire(items@), 0x5D), r),
    decreases items, 1nat,
{
    let ghost start = w.written();
    w.write_start_array();
    let ghost mid = w.written();
    match write_items(w, items) {
        Ok(()) => {},
        Err(e) => {
            return Err(e);
        },
    }
    let ghost body = items_wire(items@)->Ok_0;
    w.write_end_array();
    proof {
        lemma_wrap(start, 0x5B, body, 0x5D);
        assert(w.written() =~= start + (seq![0x5Bu8] + body + seq![0x5Du8]));
    }
    Ok(())
}

fn write_record(w: &mut UbjWriter, fields: &Vec<(String, Value)>) -> (r: UbjResult<()>)
    ensures
        wrote(old(w).written(), final(w).written(), wrap(0x7B, fields_wire(fields@), 0x7D), r),
    decreases fields, 1nat,
{
    let ghost start = w.written();
    w.write_start_object();
    match write_fields(w, fields) {
        Ok(()) => {},
        Err(e) => {
            return Err(e);
        },
    }
    let ghost body = fields_wire(fields@)->Ok_0;
    w.write_end_object();
    proof {
        lemma_wrap(start, 0x7B, body, 0x7D);
        assert(w.written() =~= start + (seq![0x7Bu8] + body + seq![0x7Du8]));
    }
    Ok(())
}

fn write_mapping(w: &mut UbjWriter, entries: &Vec<(Value, Value)>) -> (r: UbjResult<()>)
    ensures
        wrote(old(w).written(), final(w).written(), wrap(0x7B, entries_wire(entries@), 0x7D), r),
    decreases entries, 1nat,
{
    let ghost start = w.written();
    w.write_start_object();
    match write_entries(w, entries) {
        Ok(()) => {},
        Err(e) => {
            return Err(e);
        },
    }
    let ghost body = entries_wire(entries@)->Ok_0;
    w.write_end_object();
    proof {
        lemma_wrap(start, 0x7B, body, 0x7D);
        assert(w.written() =~= start + (seq![0x7Bu8] + body + seq![0x7Du8]));
    }
    Ok(())
}

fn write_payload(w: &mut UbjWriter, p: &Payload) -> (r: UbjResult<()>)
    ensures
        wrote(old(w).written(), final(w).written(), payload_wire(*p), r),
    decreases p, 0nat,
{
    match p {
        Payload::Unit => w.write_null(),
        Payload::Newtype(inner) => write_value(w, inner),
        Payload::Tuple(items) => write_array(w, items),
        Payload::Struct(fields) => write_record(w, fields),
    }
}

/// A union alternative: a one-entry object keyed by its name.
fn write_union(w: &mut UbjWriter, name: &String, p: &Payload) -> (r: UbjResult<()>)
    ensures
        wrote(
            old(w).written(),
            final(w).written(),
            wrap(0x7B, chain(name_wire(name@), payload_wire(*p)), 0x7D),
            r,
        ),
    decreases p, 1nat,
{
    let ghost start = w.written();
    w.write_start_object();
    match w.write_unmarked_string(name.as_str()) {
        Ok(()) => {},
        Err(e) => {
            return Err(e);
        },
    }
    match write_payload(w, p) {
        Ok(()) => {},
        Err(e) => {
            return Err(e);
        },
    }
    let ghost body = chain(name_wire(name@), payload_wire(*p))->Ok_0;
    w.write_end_object();
    proof {
        lemma_wrap(start, 0x7B, body, 0x7D);
        assert(w.written() =~= start + (seq![0x7Bu8] + body + seq![0x7Du8]));
    }
    Ok(())
}

/// Encodes a value into a fresh byte vector: its bytes, or the first failure
/// met in the order of traversal.
pub fn to_vec(v: &Value) -> (r: UbjResult<Vec<u8>>)
    ensures
        match value_wire(*v) {
            Ok(b) => r is Ok && r->Ok_0@ == b,
            Err(e) => r == Err::<Vec<u8>, UbjError>(e),
        },
{
    let mut w = UbjWriter::new();
    match write_value(&mut w, v) {
        Ok(()) => {},
        Err(e) => {
            return Err(e);
        },
    }
    let _ = w.flush();
    assert(w.written() =~= value_wire(*v)->Ok_0);
    Ok(w.into_bytes())
}

/// A map whose first key does not reduce to a string cannot be written: the
/// encoding fails with `IllegalKeyType`, naming the kind of that key.
pub proof fn lemma_illegal_key(entries: Vec<(Value, Value)>)
    requires
        entries@.len() > 0,
        !(entries@[0].0 is Str),
        !(entries@[0].0 is Present),
    ensures
        value_wire(Value::Mapping(entries)) == Err::<Seq<u8>, UbjError>(
            UbjError::IllegalKeyType(key_kind(entries@[0].0)),
        ),
{
    let k = entries@[0].0;
    let e = UbjError::IllegalKeyType(key_kind(k));
    assert(key_wire(k) == Err::<Seq<u8>, UbjError>(e));
    assert(entries_wire(entries@) == Err::<Seq<u8>, UbjError>(e));
}

} // verus!
