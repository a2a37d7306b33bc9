//! Facts about UTF-8 that the reader needs to reassemble text that arrives in
//! pieces.
use vstd::prelude::*;
use vstd::utf8::*;

verus! {

/// Encoding distributes over concatenation.
pub proof fn lemma_encode_concat(x: Seq<char>, y: Seq<char>)
    ensures
        encode_utf8(x + y) == encode_utf8(x) + encode_utf8(y),
    decreases x.len(),
{
    if x.len() == 0 {
        assert(x + y =~= y);
        assert(encode_utf8(x) =~= Seq::<u8>::empty());
        assert(encode_utf8(x) + encode_utf8(y) =~= encode_utf8(y));
    } else {
        assert((x + y).drop_first() =~= x.drop_first() + y);
        assert((x + y)[0] == x[0]);
        lemma_encode_concat(x.drop_first(), y);
        assert(encode_utf8(x + y) =~= encode_utf8(x) + encode_utf8(y));
    }
}

/// Two well-formed pieces make a well-formed whole, whose text is theirs in turn.
pub proof fn lemma_valid_concat(a: Seq<u8>, b: Seq<u8>)
    requires
        valid_utf8(a),
        valid_utf8(b),
    ensures
        valid_utf8(a + b),
        decode_utf8(a + b) == decode_utf8(a) + decode_utf8(b),
{
    decode_utf8_encode_utf8(a);
    decode_utf8_encode_utf8(b);
    let x = decode_utf8(a);
    let y = decode_utf8(b);
    lemma_encode_concat(x, y);
    encode_utf8_valid_utf8(x + y);
    encode_utf8_decode_utf8(x + y);
}

/// A well-formed prefix of well-formed bytes ends on a character boundary: what
/// follows it is well-formed too.
pub proof fn lemma_valid_boundary(t: Seq<u8>, p: int)
    requires
        valid_utf8(t),
        0 <= p <= t.len(),
        valid_utf8(t.subrange(0, p)),
    ensures
        valid_utf8(t.subrange(p, t.len() as int)),
    decreases p,
{
    if p == 0 {
        assert(t.subrange(0, t.len() as int) =~= t);
    } else {
        let q = t.subrange(0, p);
        assert(q[0] == t[0]);
        let l = length_of_first_scalar(t);
        assert(length_of_first_scalar(q) == l);
        assert(pop_first_scalar(q) =~= pop_first_scalar(t).subrange(0, p - l));
        lemma_valid_boundary(pop_first_scalar(t), p - l);
        assert(pop_first_scalar(t).subrange(p - l, pop_first_scalar(t).len() as int)
            =~= t.subrange(p, t.len() as int));
    }
}

/// The bytes of one well-formed first character are well-formed on their own.
pub proof fn lemma_first_scalar_alone(v: Seq<u8>)
    requires
        valid_first_scalar(v),
    ensures
        valid_utf8(v.subrange(0, length_of_first_scalar(v))),
        length_of_first_scalar(v) == utf8_width_spec(v[0]),
{
    let l = length_of_first_scalar(v);
    assert(1 <= l <= v.len());
    let w = v.subrange(0, l);
    assert(forall|i: int| 0 <= i < l ==> w[i] == v[i]);
    assert(valid_leading_and_continuation_bytes_first_codepoint(w));
    assert(decode_first_codepoint(w) == decode_first_codepoint(v));
    assert(valid_first_scalar(w));
    assert(pop_first_scalar(w) =~= Seq::<u8>::empty());
    assert(valid_utf8(Seq::<u8>::empty()));
    assert(valid_utf8(w));
}

/// The length of the character that a leading byte opens; 0 for a byte that
/// opens none.
pub open spec fn utf8_width_spec(b: u8) -> nat {
    if is_leading_byte_width_1(b) {
        1
    } else if is_leading_byte_width_2(b) {
        2
    } else if is_leading_byte_width_3(b) {
        3
    } else if is_leading_byte_width_4(b) {
        4
    } else {
        0
    }
}

/// The length of a UTF-8 character from its leading byte alone: the number of
/// ones before the first zero, 0xxxxxxx, 110xxxxx, 1110xxxx or 11110xxx.
pub fn utf8_width(b: u8) -> (n: usize)
    ensures
        n == utf8_width_spec(b),
{
    assert(b & 0x80 == 0 <==> b <= 0x7f) by (bit_vector);
    assert(b & 0xe0 == 0xc0 <==> 0xc0 <= b <= 0xdf) by (bit_vector);
    assert(b & 0xf0 == 0xe0 <==> 0xe0 <= b <= 0xef) by (bit_vector);
    assert(b & 0xf8 == 0xf0 <==> 0xf0 <= b <= 0xf7) by (bit_vector);
    if b & 0b1000_0000 == 0 {
        1
    } else if b & 0b1110_0000 == 0b1100_0000 {
        2
    } else if b & 0b1111_0000 == 0b1110_0000 {
        3
    } else if b & 0b1111_1000 == 0b1111_0000 {
        4
    } else {
        0
    }
}

} // verus!
