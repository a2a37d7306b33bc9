//! What a reader expects to find: the shape of a value, as the caller's type
//! gives it. The format does not describe containers ahead of time, so the
//! shape decides how each element is read.
use vstd::prelude::*;
use vstd::utf8::encode_utf8;

use crate::value::{Payload, Value};

verus! {

/// The expected shape of a value.
#[derive(Debug)]
pub enum Shape {
    Unit,
    Bool,
    I8,
    I16,
    I32,
    I64,
    I128,
    U8,
    U16,
    U32,
    U64,
    U128,
    F32,
    F64,
    Char,
    Str,
    Bytes,
    Optional(Box<Shape>),
    UnitStruct,
    NewtypeStruct(Box<Shape>),
    /// A sequence of any length, of elements of one shape.
    Sequence(Box<Shape>),
    /// A sequence of fixed length, one shape per element.
    Tuple(Vec<Shape>),
    TupleStruct(Vec<Shape>),
    /// A record: the shape of each named field.
    Record(Vec<(String, Shape)>),
    /// A map with string keys, of values of one shape.
    Mapping(Box<Shape>),
    /// A tagged union: the payload shape of each named alternative.
    Union(Vec<(String, PayloadShape)>),
}

/// The expected payload of a union alternative.
#[derive(Debug)]
pub enum PayloadShape {
    Unit,
    Newtype(Box<Shape>),
    Tuple(Vec<Shape>),
    Struct(Vec<(String, Shape)>),
}

/// A string whose byte length this machine's `usize` can hold.
pub open spec fn fits_here(x: Seq<char>) -> bool {
    encode_utf8(x).len() <= usize::MAX
}

/// Shapes whose values may be written as a bare `Z`: a present optional of
/// such a shape could not be told from an absent one.
pub open spec fn null_like(sh: Shape) -> bool
    decreases sh,
{
    match sh {
        Shape::Unit => true,
        Shape::UnitStruct => true,
        Shape::Optional(_) => true,
        Shape::NewtypeStruct(inner) => null_like(*inner),
        _ => false,
    }
}

/// The shape of the first field so named.
pub open spec fn lookup_field(specs: Seq<(String, Shape)>, name: Seq<char>) -> Option<Shape>
    decreases specs.len(),
{
    if specs.len() == 0 {
        None
    } else if specs[0].0@ == name {
        Some(specs[0].1)
    } else {
        lookup_field(specs.drop_first(), name)
    }
}

/// The payload shape of the first alternative so named.
pub open spec fn lookup_variant(variants: Seq<(String, PayloadShape)>, name: Seq<char>) -> Option<
    PayloadShape,
>
    decreases variants.len(),
{
    if variants.len() == 0 {
        None
    } else if variants[0].0@ == name {
        Some(variants[0].1)
    } else {
        lookup_variant(variants.drop_first(), name)
    }
}

/// Whether a value has the given shape.
pub open spec fn conforms(v: Value, sh: Shape) -> bool
    decreases v,
{
    match sh {
        Shape::Unit => v is Unit,
        Shape::Bool => v is Bool,
        Shape::I8 => v is I8,
        Shape::I16 => v is I16,
        Shape::I32 => v is I32,
        Shape::I64 => v is I64,
        Shape::I128 => v is I128,
        Shape::U8 => v is U8,
        Shape::U16 => v is U16,
        Shape::U32 => v is U32,
        Shape::U64 => v is U64,
        Shape::U128 => v is U128,
        Shape::F32 => v is F32,
        Shape::F64 => v is F64,
        Shape::Char => v is Char,
        Shape::Str => v is Str && fits_here(v->Str_0@),
        Shape::Bytes => v is Bytes,
        Shape::Optional(inner) => match v {
            Value::Absent => true,
            Value::Present(x) => !null_like(*inner) && conforms(*x, *inner),
            _ => false,
        },
        Shape::UnitStruct => v is UnitStruct,
        Shape::NewtypeStruct(inner) => match v {
            Value::NewtypeStruct(x) => conforms(*x, *inner),
            _ => false,
        },
        Shape::Sequence(e) => match v {
            Value::Sequence(items) => conforms_all(items@, *e),
            _ => false,
        },
        Shape::Tuple(shapes) => match v {
            Value::Tuple(items) => conforms_each(items@, shapes@),
            _ => false,
        },
        Shape::TupleStruct(shapes) => match v {
            Value::TupleStruct(items) => conforms_each(items@, shapes@),
            _ => false,
        },
        Shape::Record(specs) => match v {
            Value::Record(fields) => conforms_fields(fields@, specs@),
            _ => false,
        },
        Shape::Mapping(e) => match v {
            Value::Mapping(entries) => conforms_entries(entries@, *e),
            _ => false,
        },
        Shape::Union(variants) => match v {
            Value::Union(name, p) => fits_here(name@) && match lookup_variant(variants@, name@) {
                Some(ps) => conforms_payload(p, ps),
                None => false,
            },
            _ => false,
        },
    }
}

pub open spec fn conforms_payload(p: Payload, ps: PayloadShape) -> bool
    decreases p,
{
    match (p, ps) {
        (Payload::Unit, PayloadShape::Unit) => true,
        (Payload::Newtype(x), PayloadShape::Newtype(sh)) => conforms(*x, *sh),
        (Payload::Tuple(items), PayloadShape::Tuple(shapes)) => conforms_each(items@, shapes@),
        (Payload::Struct(fields), PayloadShape::Struct(specs)) => conforms_fields(fields@, specs@),
        _ => false,
    }
}

/// Every element has shape `e`.
pub open spec fn conforms_all(items: Seq<Value>, e: Shape) -> bool
    decreases items,
{
    items.len() == 0 || (conforms(items[0], e) && conforms_all(items.drop_first(), e))
}

/// As many elements as shapes, each of its own shape.
pub open spec fn conforms_each(items: Seq<Value>, shapes: Seq<Shape>) -> bool
    decreases items,
{
    items.len() == shapes.len() && (items.len() == 0 || (conforms(items[0], shapes[0])
        && conforms_each(items.drop_first(), shapes.drop_first())))
}

/// Every field is named in `specs` and has the shape given there.
pub open spec fn conforms_fields(fields: Seq<(String, Value)>, specs: Seq<(String, Shape)>) -> bool
    decreases fields,
{
    fields.len() == 0 || (fits_here(fields[0].0@) && match lookup_field(specs, fields[0].0@) {
        Some(sh) => conforms(fields[0].1, sh),
        None => false,
    } && conforms_fields(fields.drop_first(), specs))
}

/// Every key is a string and every value has shape `e`.
pub open spec fn conforms_entries(entries: Seq<(Value, Value)>, e: Shape) -> bool
    decreases entries,
{
    entries.len() == 0 || (entries[0].0 is Str && fits_here(entries[0].0->Str_0@) && conforms(entries[0].1, e) && conforms_entries(
        entries.drop_first(),
        e,
    ))
}

/// Two values are the same: equal scalars, strings and byte sequences with
/// equal contents, containers with the same elements in the same order.
pub open spec fn same(a: Value, b: Value) -> bool
    decreases a,
{
    match (a, b) {
        (Value::Str(x), Value::Str(y)) => x@ == y@,
        (Value::Bytes(x), Value::Bytes(y)) => x@ == y@,
        (Value::Present(x), Value::Present(y)) => same(*x, *y),
        (Value::NewtypeStruct(x), Value::NewtypeStruct(y)) => same(*x, *y),
        (Value::Sequence(x), Value::Sequence(y)) => same_items(x@, y@),
        (Value::Tuple(x), Value::Tuple(y)) => same_items(x@, y@),
        (Value::TupleStruct(x), Value::TupleStruct(y)) => same_items(x@, y@),
        (Value::Record(x), Value::Record(y)) => same_fields(x@, y@),
        (Value::Mapping(x), Value::Mapping(y)) => same_entries(x@, y@),
        (Value::Union(n, p), Value::Union(m, q)) => n@ == m@ && same_payload(p, q),
        (Value::Str(_), _) => false,
        (Value::Bytes(_), _) => false,
        (Value::Present(_), _) => false,
        (Value::NewtypeStruct(_), _) => false,
        (Value::Sequence(_), _) => false,
        (Value::Tuple(_), _) => false,
        (Value::TupleStruct(_), _) => false,
        (Value::Record(_), _) => false,
        (Value::Mapping(_), _) => false,
        (Value::Union(_, _), _) => false,
        _ => a == b,
    }
}

pub open spec fn same_payload(p: Payload, q: Payload) -> bool
    decreases p,
{
    match (p, q) {
        (Payload::Unit, Payload::Unit) => true,
        (Payload::Newtype(x), Payload::Newtype(y)) => same(*x, *y),
        (Payload::Tuple(x), Payload::Tuple(y)) => same_items(x@, y@),
        (Payload::Struct(x), Payload::Struct(y)) => same_fields(x@, y@),
        _ => false,
    }
}

pub open spec fn same_items(a: Seq<Value>, b: Seq<Value>) -> bool
    decreases a,
{
    a.len() == b.len() && (a.len() == 0 || (same_items(a.drop_last(), b.drop_last()) && same(
        a.last(),
        b.last(),
    )))
}

pub open spec fn same_fields(a: Seq<(String, Value)>, b: Seq<(String, Value)>) -> bool
    decreases a,
{
    a.len() == b.len() && (a.len() == 0 || (same_fields(a.drop_last(), b.drop_last())
        && a.last().0@ == b.last().0@ && same(a.last().1, b.last().1)))
}

pub open spec fn same_entries(a: Seq<(Value, Value)>, b: Seq<(Value, Value)>) -> bool
    decreases a,
{
    a.len() == b.len() && (a.len() == 0 || (same_entries(a.drop_last(), b.drop_last()) && same(
        a.last().0,
        b.last().0,
    ) && same(a.last().1, b.last().1)))
}

/// Whether a value has the form that a shape describes, element by element:
/// what a reader may return for that shape.
pub open spec fn shaped(v: Value, sh: Shape) -> bool
    decreases v,
{
    match sh {
        Shape::Unit => v is Unit,
        Shape::Bool => v is Bool,
        Shape::I8 => v is I8,
        Shape::I16 => v is I16,
        Shape::I32 => v is I32,
        Shape::I64 => v is I64,
        Shape::I128 => v is I128,
        Shape::U8 => v is U8,
        Shape::U16 => v is U16,
        Shape::U32 => v is U32,
        Shape::U64 => v is U64,
        Shape::U128 => v is U128,
        Shape::F32 => v is F32,
        Shape::F64 => v is F64,
        Shape::Char => v is Char,
        Shape::Str => v is Str,
        Shape::Bytes => v is Bytes,
        Shape::Optional(inner) => match v {
            Value::Absent => true,
            Value::Present(x) => shaped(*x, *inner),
            _ => false,
        },
        Shape::UnitStruct => v is UnitStruct,
        Shape::NewtypeStruct(inner) => match v {
            Value::NewtypeStruct(x) => shaped(*x, *inner),
            _ => false,
        },
        Shape::Sequence(e) => match v {
            Value::Sequence(items) => shaped_all(items@, *e),
            _ => false,
        },
        Shape::Tuple(shapes) => match v {
            Value::Tuple(items) => shaped_each(items@, shapes@),
            _ => false,
        },
        Shape::TupleStruct(shapes) => match v {
            Value::TupleStruct(items) => shaped_each(items@, shapes@),
            _ => false,
        },
        Shape::Record(specs) => match v {
            Value::Record(fields) => shaped_fields(fields@, specs@),
            _ => false,
        },
        Shape::Mapping(e) => match v {
            Value::Mapping(entries) => shaped_entries(entries@, *e),
            _ => false,
        },
        Shape::Union(variants) => match v {
            Value::Union(name, p) => match lookup_variant(variants@, name@) {
                Some(ps) => shaped_payload(p, ps),
                None => false,
            },
            _ => false,
        },
    }
}

pub open spec fn shaped_payload(p: Payload, ps: PayloadShape) -> bool
    decreases p,
{
    match (p, ps) {
        (Payload::Unit, PayloadShape::Unit) => true,
        (Payload::Newtype(x), PayloadShape::Newtype(sh)) => shaped(*x, *sh),
        (Payload::Tuple(items), PayloadShape::Tuple(shapes)) => shaped_each(items@, shapes@),
        (Payload::Struct(fields), PayloadShape::Struct(specs)) => shaped_fields(fields@, specs@),
        _ => false,
    }
}

pub open spec fn shaped_all(items: Seq<Value>, e: Shape) -> bool
    decreases items,
{
    items.len() == 0 || (shaped_all(items.drop_last(), e) && shaped(items.last(), e))
}

pub open spec fn shaped_each(items: Seq<Value>, shapes: Seq<Shape>) -> bool
    decreases items,
{
    items.len() == shapes.len() && (items.len() == 0 || (shaped_each(
        items.drop_last(),
        shapes.drop_last(),
    ) && shaped(items.last(), shapes.last())))
}

pub open spec fn shaped_fields(fields: Seq<(String, Value)>, specs: Seq<(String, Shape)>) -> bool
    decreases fields,
{
    fields.len() == 0 || (shaped_fields(fields.drop_last(), specs) && match lookup_field(
        specs,
        fields.last().0@,
    ) {
        Some(sh) => shaped(fields.last().1, sh),
        None => false,
    })
}

pub open spec fn shaped_entries(entries: Seq<(Value, Value)>, e: Shape) -> bool
    decreases entries,
{
    entries.len() == 0 || (shaped_entries(entries.drop_last(), e) && entries.last().0 is Str
        && shaped(entries.last().1, e))
}

} // verus!
