use vstd::prelude::*;
use vstd::utf8::*;

use crate::error::{UbjError, UbjResult};
use crate::input::{utf8_outcome, utf8_text, ChunkedInput};
use crate::markers::UbjMarker;
use crate::text::{
    lemma_first_scalar_alone, lemma_valid_boundary, lemma_valid_concat, utf8_width, utf8_width_spec,
};
use crate::wire::{
    from_be16, from_be32, from_be32_bits, from_be64_bits, has_narrowed_int,
    is_int_marker, narrowed_failure, narrowed_len, narrowed_value,
};

verus! {

/// What reading marker `m` and a payload of `w` bytes gives on the pending bytes
/// `s`, where `v` is the value the payload stands for.
pub open spec fn fixed_outcome<T>(s: Seq<u8>, m: u8, w: nat, v: T) -> UbjResult<T> {
    if s.len() == 0 {
        Err(UbjError::UnexpectedEof)
    } else if s[0] != m {
        Err(UbjError::UnexpectedMarker(s[0]))
    } else if s.len() < w + 1 {
        Err(UbjError::UnexpectedEof)
    } else {
        Ok(v)
    }
}

/// Whether a read of marker `m` found another byte, or nothing, where the
/// marker should be; such a read leaves the input as it was.
pub open spec fn marker_absent(s: Seq<u8>, m: u8) -> bool {
    s.len() == 0 || s[0] != m
}

/// Why a marker was not found at the head of `s`.
pub open spec fn marker_failure(s: Seq<u8>) -> UbjError {
    if s.len() == 0 {
        UbjError::UnexpectedEof
    } else {
        UbjError::UnexpectedMarker(s[0])
    }
}

/// `u` is well-formed text of `n` bytes that agrees with `t` as far as `t` goes.
pub open spec fn text_witness(u: Seq<u8>, t: Seq<u8>, n: nat) -> bool {
    let k = if t.len() < n { t.len() as int } else { n as int };
    u.len() == n && valid_utf8(u) && u.take(k) == t.take(k)
}

/// What reading `n` bytes of text from `t` may give: the characters exactly
/// when the bytes are there and well-formed; `Utf8Error` when they are there
/// and are not; when they are not all there, `UnexpectedEof` if what is there
/// begins some well-formed text of that length, else that or `Utf8Error`.
pub open spec fn text_outcome(t: Seq<u8>, n: nat, r: UbjResult<String>) -> bool {
    &&& (t.len() >= n && valid_utf8(t.take(n as int))) ==> (r is Ok && r->Ok_0@ == decode_utf8(
        t.take(n as int),
    ))
    &&& r is Ok ==> (t.len() >= n && valid_utf8(t.take(n as int)))
    &&& (t.len() >= n && !valid_utf8(t.take(n as int))) ==> (r is Err && r->Err_0 is Utf8Error)
    &&& t.len() < n ==> (r is Err && (r->Err_0 is UnexpectedEof || r->Err_0 is Utf8Error))
    &&& (t.len() < n && exists|u: Seq<u8>| #[trigger] text_witness(u, t, n)) ==> r
        == Err::<String, UbjError>(UbjError::UnexpectedEof)
}

/// Where decoding a piece `c` of well-formed text `t` stops short at `k`, what
/// stands at `k` is a character that the piece cuts: it starts in the piece,
/// ends after it and inside `t`, and is well-formed on its own.
proof fn lemma_cut_character(t: Seq<u8>, done: int, m: int, k: int)
    requires
        valid_utf8(t),
        0 <= done,
        0 <= k < m,
        done + m <= t.len(),
        valid_utf8(t.take(done)),
        valid_utf8(t.subrange(done, done + m).take(k)),
        forall|j: int|
            k < j <= m ==> !valid_utf8(#[trigger] t.subrange(done, done + m).subrange(0, j)),
    ensures
        ({
            let w = utf8_width_spec(t[done + k]) as int;
            &&& 0 < w
            &&& m < k + w
            &&& done + k + w <= t.len()
            &&& valid_utf8(t.subrange(done + k, done + k + w))
        }),
{
    let c = t.subrange(done, done + m);
    lemma_valid_boundary(t, done);
    let u = t.subrange(done, t.len() as int);
    assert(u.subrange(0, k) =~= c.take(k));
    lemma_valid_boundary(u, k);
    let v = u.subrange(k, u.len() as int);
    assert(v =~= t.subrange(done + k, t.len() as int));
    assert(v.len() > 0);
    assert(valid_first_scalar(v));
    lemma_first_scalar_alone(v);
    let l = length_of_first_scalar(v);
    assert(v[0] == t[done + k]);
    assert(v.subrange(0, l) =~= t.subrange(done + k, done + k + l));
    if k + l <= m {
        lemma_valid_concat(c.take(k), v.subrange(0, l));
        assert(c.take(k) + v.subrange(0, l) =~= c.subrange(0, k + l));
        assert(!valid_utf8(c.subrange(0, k + l)));
    }
}

/// What reading a string without marker gives on the pending bytes `s`.
pub open spec fn unmarked_string_outcome(s: Seq<u8>, r: UbjResult<String>) -> bool {
    if !has_narrowed_int(s) {
        r == Err::<String, UbjError>(narrowed_failure(s))
    } else if !(0 <= narrowed_value(s) <= usize::MAX) {
        r is Err && r->Err_0 is Unsupported
    } else {
        text_outcome(s.skip(narrowed_len(s) as int), narrowed_value(s) as nat, r)
    }
}

/// Reads markers and payloads from a chunked input. It never needs a payload to
/// arrive in one piece, and a probe for a marker that is not there consumes
/// nothing.
pub struct UbjReader {
    input: ChunkedInput,
}

impl UbjReader {
    /// The bytes not read yet.
    pub closed spec fn rest(&self) -> Seq<u8> {
        self.input.pending()
    }

    pub closed spec fn wf(&self) -> bool {
        self.input.wf()
    }

    /// A reader over the given input.
    pub fn new(input: ChunkedInput) -> (r: UbjReader)
        requires
            input.wf(),
        ensures
            r.wf(),
            r.rest() == input.pending(),
    {
        UbjReader { input }
    }

    /// Whether every byte has been read.
    pub fn is_at_end(&self) -> (b: bool)
        requires
            self.wf(),
        ensures
            b == (self.rest().len() == 0),
    {
        proof {
            self.input.lemma_window();
        }
        self.input.available() == 0
    }

    /// The next byte, without consuming it.
    pub fn peek_byte(&self) -> (b: Option<u8>)
        requires
            self.wf(),
        ensures
            self.rest().len() == 0 ==> b is None,
            self.rest().len() > 0 ==> b == Some(self.rest()[0]),
    {
        proof {
            self.input.lemma_window();
        }
        if self.input.available() == 0 {
            None
        } else {
            Some(self.input.peek(0))
        }
    }

    fn consume_marker(&mut self, m: UbjMarker) -> (r: UbjResult<()>)
        requires
            old(self).wf(),
        ensures
            final(self).wf(),
            r == fixed_outcome(old(self).rest(), m.spec_byte(), 0, ()),
            r is Ok ==> final(self).rest() == old(self).rest().skip(1),
            r is Err ==> final(self).rest() == old(self).rest(),
    {
        proof {
            self.input.lemma_window();
        }
        if self.input.available() == 0 {
            return Err(UbjError::UnexpectedEof);
        }
        let b = self.input.peek(0);
        if b == m.byte() {
            self.input.consume(1);
            Ok(())
        } else {
            Err(UbjError::UnexpectedMarker(b))
        }
    }

    /// Reads exactly `n` bytes, from as many pieces as they span.
    fn consume_bytes(&mut self, n: usize) -> (r: UbjResult<Vec<u8>>)
        requires
            old(self).wf(),
        ensures
            final(self).wf(),
            old(self).rest().len() >= n ==> (r is Ok && r->Ok_0@ == old(self).rest().take(n as int)
                && final(self).rest() == old(self).rest().skip(n as int)),
            old(self).rest().len() < n ==> r matches Err(UbjError::UnexpectedEof),
    {
        let ghost s = old(self).rest();
        let mut out: Vec<u8> = Vec::new();
        let mut copied: usize = 0;
        assert(s.skip(0) =~= s);
        while copied < n
            invariant
                s == old(self).rest(),
                self.wf(),
                copied <= n,
                copied <= s.len(),
                self.rest() == s.skip(copied as int),
                out@ == s.take(copied as int),
            decreases n - copied,
        {
            proof {
                self.input.lemma_window();
            }
            let avail = self.input.available();
            if avail == 0 {
                assert(self.input.window().len() == 0);
                assert(self.input.pending().len() == 0);
                assert(s.skip(copied as int).len() == s.len() - copied);
                return Err(UbjError::UnexpectedEof);
            }
            let chunk = if avail < n - copied {
                avail
            } else {
                n - copied
            };
            let mut i: usize = 0;
            while i < chunk
                invariant
                    self.wf(),
                    i <= chunk,
                    chunk <= self.input.window().len(),
                    copied + chunk <= n,
                    copied + chunk <= s.len(),
                    self.rest() == s.skip(copied as int),
                    out@ == s.take(copied + i),
                decreases chunk - i,
            {
                let b = self.input.peek(i);
                out.push(b);
                i = i + 1;
                assert(out@ =~= s.take(copied + i));
            }
            self.input.consume(chunk);
            copied = copied + chunk;
            assert(self.rest() =~= s.skip(copied as int));
        }
        Ok(out)
    }

    pub fn read_null(&mut self) -> (r: UbjResult<()>)
        requires
            old(self).wf(),
        ensures
            final(self).wf(),
            r == fixed_outcome(old(self).rest(), 0x5A, 0, ()),
            r is Ok ==> final(self).rest() == old(self).rest().skip(1),
            r is Err ==> final(self).rest() == old(self).rest(),
    {
        self.consume_marker(UbjMarker::Null)
    }

    /// Reads `T` as true and `F` as false.
    pub fn read_bool(&mut self) -> (r: UbjResult<bool>)
        requires
            old(self).wf(),
        ensures
            final(self).wf(),
            ({
                let s = old(self).rest();
                &&& s.len() == 0 ==> r == Err::<bool, UbjError>(UbjError::UnexpectedEof)
                &&& s.len() > 0 && s[0] == 0x54 ==> r == Ok::<bool, UbjError>(true)
                &&& s.len() > 0 && s[0] == 0x46 ==> r == Ok::<bool, UbjError>(false)
                &&& s.len() > 0 && s[0] != 0x54 && s[0] != 0x46 ==> r == Err::<bool, UbjError>(
                    UbjError::UnexpectedMarker(s[0]),
                )
                &&& r is Ok ==> final(self).rest() == s.skip(1)
                &&& r is Err ==> final(self).rest() == s
            }),
    {
        proof {
            self.input.lemma_window();
        }
        if self.input.available() == 0 {
            return Err(UbjError::UnexpectedEof);
        }
        let b = self.input.peek(0);
        if b == UbjMarker::True.byte() {
            self.input.consume(1);
            Ok(true)
        } else if b == UbjMarker::False.byte() {
            self.input.consume(1);
            Ok(false)
        } else {
            Err(UbjError::UnexpectedMarker(b))
        }
    }

    pub fn read_uint8(&mut self) -> (r: UbjResult<u8>)
        requires
            old(self).wf(),
        ensures
            final(self).wf(),
            r == fixed_outcome(old(self).rest(), 0x55, 1, old(self).rest()[1]),
            r is Ok ==> final(self).rest() == old(self).rest().skip(2),
            marker_absent(old(self).rest(), 0x55) ==> final(self).rest() == old(self).rest(),
    {
        let ghost s = old(self).rest();
        self.consume_marker(UbjMarker::Uint8)?;
        let b = self.consume_bytes(1)?;
        assert(self.rest() =~= s.skip(2));
        Ok(b[0])
    }

    pub fn read_int8(&mut self) -> (r: UbjResult<i8>)
        requires
            old(self).wf(),
        ensures
            final(self).wf(),
            r == fixed_outcome(old(self).rest(), 0x69, 1, old(self).rest()[1] as i8),
            r is Ok ==> final(self).rest() == old(self).rest().skip(2),
            marker_absent(old(self).rest(), 0x69) ==> final(self).rest() == old(self).rest(),
    {
        let ghost s = old(self).rest();
        self.consume_marker(UbjMarker::Int8)?;
        let b = self.consume_bytes(1)?;
        assert(self.rest() =~= s.skip(2));
        Ok(b[0] as i8)
    }

    pub fn read_int16(&mut self) -> (r: UbjResult<i16>)
        requires
            old(self).wf(),
        ensures
            final(self).wf(),
            r == fixed_outcome(
                old(self).rest(),
                0x49,
                2,
                from_be16(old(self).rest()[1], old(self).rest()[2]),
            ),
            r is Ok ==> final(self).rest() == old(self).rest().skip(3),
            marker_absent(old(self).rest(), 0x49) ==> final(self).rest() == old(self).rest(),
    {
        let ghost s = old(self).rest();
        self.consume_marker(UbjMarker::Int16)?;
        let b = self.consume_bytes(2)?;
        assert(self.rest() =~= s.skip(3));
        Ok((((b[0] as u16) << 8) | (b[1] as u16)) as i16)
    }

    pub fn read_int32(&mut self) -> (r: UbjResult<i32>)
        requires
            old(self).wf(),
        ensures
            final(self).wf(),
            r == fixed_outcome(old(self).rest(), 0x6C, 4, from_be32(old(self).rest().subrange(1, 5))),
            r is Ok ==> final(self).rest() == old(self).rest().skip(5),
            marker_absent(old(self).rest(), 0x6C) ==> final(self).rest() == old(self).rest(),
    {
        let ghost s = old(self).rest();
        self.consume_marker(UbjMarker::Int32)?;
        let b = self.consume_bytes(4)?;
        assert(self.rest() =~= s.skip(5));
        assert(b@ =~= s.subrange(1, 5));
        Ok((((b[0] as u32) << 24) | ((b[1] as u32) << 16) | ((b[2] as u32) << 8) | (b[3] as u32)) as i32)
    }

    fn read_u64_bits(&mut self, m: UbjMarker) -> (r: UbjResult<u64>)
        requires
            old(self).wf(),
        ensures
            final(self).wf(),
            r == fixed_outcome(
                old(self).rest(),
                m.spec_byte(),
                8,
                from_be64_bits(old(self).rest().subrange(1, 9)),
            ),
            r is Ok ==> final(self).rest() == old(self).rest().skip(9),
            marker_absent(old(self).rest(), m.spec_byte()) ==> final(self).rest() == old(self).rest(),
    {
        let ghost s = old(self).rest();
        self.consume_marker(m)?;
        let b = self.consume_bytes(8)?;
        assert(self.rest() =~= s.skip(9));
        assert(b@ =~= s.subrange(1, 9));
        Ok(((b[0] as u64) << 56) | ((b[1] as u64) << 48) | ((b[2] as u64) << 40) | ((b[3] as u64) << 32)
            | ((b[4] as u64) << 24) | ((b[5] as u64) << 16) | ((b[6] as u64) << 8) | (b[7] as u64))
    }

    pub fn read_int64(&mut self) -> (r: UbjResult<i64>)
        requires
            old(self).wf(),
        ensures
            final(self).wf(),
            r == fixed_outcome(
                old(self).rest(),
                0x4C,
                8,
                from_be64_bits(old(self).rest().subrange(1, 9)) as i64,
            ),
            r is Ok ==> final(self).rest() == old(self).rest().skip(9),
            marker_absent(old(self).rest(), 0x4C) ==> final(self).rest() == old(self).rest(),
    {
        let bits = self.read_u64_bits(UbjMarker::Int64)?;
        Ok(bits as i64)
    }

    /// Reads a single-precision float as its IEEE-754 bits.
    pub fn read_float32(&mut self) -> (r: UbjResult<u32>)
        requires
            old(self).wf(),
        ensures
            final(self).wf(),
            r == fixed_outcome(
                old(self).rest(),
                0x64,
                4,
                from_be32_bits(old(self).rest().subrange(1, 5)),
            ),
            r is Ok ==> final(self).rest() == old(self).rest().skip(5),
            marker_absent(old(self).rest(), 0x64) ==> final(self).rest() == old(self).rest(),
    {
        let ghost s = old(self).rest();
        self.consume_marker(UbjMarker::Float32)?;
        let b = self.consume_bytes(4)?;
        assert(self.rest() =~= s.skip(5));
        assert(b@ =~= s.subrange(1, 5));
        Ok(((b[0] as u32) << 24) | ((b[1] as u32) << 16) | ((b[2] as u32) << 8) | (b[3] as u32))
    }

    /// Reads a double-precision float as its IEEE-754 bits.
    pub fn read_float64(&mut self) -> (r: UbjResult<u64>)
        requires
            old(self).wf(),
        ensures
            final(self).wf(),
            r == fixed_outcome(
                old(self).rest(),
                0x44,
                8,
                from_be64_bits(old(self).rest().subrange(1, 9)),
            ),
            r is Ok ==> final(self).rest() == old(self).rest().skip(9),
            marker_absent(old(self).rest(), 0x44) ==> final(self).rest() == old(self).rest(),
    {
        self.read_u64_bits(UbjMarker::Float64)
    }

    /// Reads an ASCII character; a payload above 127 is refused.
    pub fn read_char(&mut self) -> (r: UbjResult<char>)
        requires
            old(self).wf(),
        ensures
            final(self).wf(),
            ({
                let s = old(self).rest();
                &&& (marker_absent(s, 0x43) || s.len() < 2) ==> r == fixed_outcome(s, 0x43, 1, 'a')
                &&& (s.len() >= 2 && s[0] == 0x43 && s[1] <= 127) ==> r == Ok::<char, UbjError>(
                    s[1] as char,
                )
                &&& (s.len() >= 2 && s[0] == 0x43 && s[1] > 127) ==> r == Err::<char, UbjError>(
                    UbjError::CharNotAscii(s[1] as u32),
                )
                &&& r is Ok ==> final(self).rest() == s.skip(2)
                &&& marker_absent(s, 0x43) ==> final(self).rest() == s
            }),
    {
        let ghost s = old(self).rest();
        self.consume_marker(UbjMarker::Char)?;
        let b = self.consume_bytes(1)?;
        assert(self.rest() =~= s.skip(2));
        let c = b[0];
        if c <= 127 {
            Ok(c as char)
        } else {
            Err(UbjError::CharNotAscii(c as u32))
        }
    }

    /// Reads an integer under any integer marker, the narrowest first, as the
    /// writer's narrowing may have chosen any of them.
    pub fn read_integer(&mut self) -> (r: UbjResult<i64>)
        requires
            old(self).wf(),
        ensures
            final(self).wf(),
            ({
                let s = old(self).rest();
                &&& !has_narrowed_int(s) ==> r == Err::<i64, UbjError>(narrowed_failure(s))
                &&& has_narrowed_int(s) ==> (r == Ok::<i64, UbjError>(narrowed_value(s) as i64)
                    && final(self).rest() == s.skip(narrowed_len(s) as int))
                &&& (s.len() == 0 || !is_int_marker(s[0])) ==> final(self).rest() == s
            }),
    {
        proof {
            self.input.lemma_window();
        }
        if self.input.available() == 0 {
            return Err(UbjError::UnexpectedEof);
        }
        let b = self.input.peek(0);
        if b == UbjMarker::Uint8.byte() {
            Ok(self.read_uint8()? as i64)
        } else if b == UbjMarker::Int8.byte() {
            Ok(self.read_int8()? as i64)
        } else if b == UbjMarker::Int16.byte() {
            Ok(self.read_int16()? as i64)
        } else if b == UbjMarker::Int32.byte() {
            Ok(self.read_int32()? as i64)
        } else if b == UbjMarker::Int64.byte() {
            self.read_int64()
        } else {
            Err(UbjError::UnexpectedMarker(b))
        }
    }

    /// Reads a byte length: a narrowed integer that must not be negative.
    fn read_length(&mut self) -> (r: UbjResult<usize>)
        requires
            old(self).wf(),
        ensures
            final(self).wf(),
            ({
                let s = old(self).rest();
                &&& !has_narrowed_int(s) ==> r == Err::<usize, UbjError>(narrowed_failure(s))
                &&& (has_narrowed_int(s) && 0 <= narrowed_value(s) <= usize::MAX) ==> (r
                    == Ok::<usize, UbjError>(narrowed_value(s) as usize) && final(self).rest()
                    == s.skip(narrowed_len(s) as int))
                &&& (has_narrowed_int(s) && !(0 <= narrowed_value(s) <= usize::MAX)) ==> (r is Err
                    && r->Err_0 is Unsupported)
            }),
    {
        let v = self.read_integer()?;
        if v < 0 || v as u64 > usize::MAX as u64 {
            Err(UbjError::Unsupported("negative or oversized length"))
        } else {
            Ok(v as usize)
        }
    }

    /// Reads `len` bytes of UTF-8 text, one piece at a time. A character whose
    /// bytes a piece boundary cuts is read whole, as a fixed window that spans
    /// the boundary; bytes that are ill-formed in full view are an error.
    fn consume_text(&mut self, len: usize) -> (r: UbjResult<String>)
        requires
            old(self).wf(),
        ensures
            final(self).wf(),
            text_outcome(old(self).rest(), len as nat, r),
            r is Ok ==> final(self).rest() == old(self).rest().skip(len as int),
    {
        let ghost s = old(self).rest();
        let mut text = String::new();
        let mut done: usize = 0;
        proof {
            assert(s.take(0) =~= Seq::<u8>::empty());
            assert(s.skip(0) =~= s);
            assert(text@ =~= decode_utf8(s.take(0)));
        }
        while done < len
            invariant
                s == old(self).rest(),
                self.wf(),
                done <= len,
                done <= s.len(),
                self.rest() == s.skip(done as int),
                valid_utf8(s.take(done as int)),
                text@ == decode_utf8(s.take(done as int)),
            decreases len - done,
        {
            match self.text_step(len, done, &mut text, Ghost(s)) {
                Ok(next) => {
                    done = next;
                },
                Err(e) => {
                    proof {
                        if s.len() >= len && valid_utf8(s.take(len as int)) {
                            assert(s.take(len as int).take(len as int) =~= s.take(len as int));
                            assert(text_witness(s.take(len as int), s, len as nat));
                        }
                    }
                    return Err(e);
                },
            }
        }
        Ok(text)
    }

    /// One piece of `consume_text`: decodes what the current piece holds of the
    /// text, or reads the character that the piece's end cuts.
    fn text_step(&mut self, len: usize, done: usize, text: &mut String, Ghost(s): Ghost<Seq<u8>>) -> (r:
        UbjResult<usize>)
        requires
            old(self).wf(),
            done < len,
            done <= s.len(),
            old(self).rest() == s.skip(done as int),
            valid_utf8(s.take(done as int)),
            old(text)@ == decode_utf8(s.take(done as int)),
        ensures
            final(self).wf(),
            r is Ok ==> ({
                let next = r->Ok_0;
                &&& done < next <= len
                &&& next <= s.len()
                &&& final(self).rest() == s.skip(next as int)
                &&& valid_utf8(s.take(next as int))
                &&& final(text)@ == decode_utf8(s.take(next as int))
            }),
            r is Err ==> (r->Err_0 is Utf8Error || (r->Err_0 is UnexpectedEof && s.len() < len)),
            r is Err ==> forall|u: Seq<u8>|
                #[trigger] text_witness(u, s, len as nat) ==> (r->Err_0 is UnexpectedEof && s.len()
                    < len),
    {
        proof {
            self.input.lemma_window();
        }
        let avail = self.input.available();
        if avail == 0 {
            assert(s.skip(done as int).len() == s.len() - done);
            return Err(UbjError::UnexpectedEof);
        }
        let pending = len - done;
        let m = if avail < pending {
            avail
        } else {
            pending
        };
        let ghost c = s.subrange(done as int, done + m);
        assert(self.input.window().subrange(0, m as int) =~= c);
        match self.input.window_text(m) {
            Ok(piece) => {
                proof {
                    lemma_valid_concat(s.take(done as int), c);
                    assert(s.take(done as int) + c =~= s.take(done + m));
                }
                text.append(piece.as_str());
                self.input.consume(m);
                assert(self.rest() =~= s.skip(done + m));
                Ok(done + m)
            },
            Err(k) => self.cut_step(len, done, m, k, text, Ghost(s)),
        }
    }

    /// The rest of `text_step` where decoding the `m` bytes of the current piece
    /// stopped at `k`: keeps the well-formed bytes before `k`, then reads the
    /// character at `k` across the boundary if the boundary is what cut it.
    #[verifier::rlimit(60)]
    #[verifier::spinoff_prover]
    fn cut_step(
        &mut self,
        len: usize,
        done: usize,
        m: usize,
        k: usize,
        text: &mut String,
        Ghost(s): Ghost<Seq<u8>>,
    ) -> (r: UbjResult<usize>)
        requires
            old(self).wf(),
            done < len,
            done + m <= len,
            m <= old(self).input.window().len(),
            done <= s.len(),
            old(self).rest() == s.skip(done as int),
            valid_utf8(s.take(done as int)),
            old(text)@ == decode_utf8(s.take(done as int)),
            utf8_outcome(s.subrange(done as int, done + m), Err(k)),
            m == len - done || m == old(self).input.window().len(),
        ensures
            final(self).wf(),
            r is Ok ==> ({
                let next = r->Ok_0;
                &&& done < next <= len
                &&& next <= s.len()
                &&& final(self).rest() == s.skip(next as int)
                &&& valid_utf8(s.take(next as int))
                &&& final(text)@ == decode_utf8(s.take(next as int))
            }),
            r is Err ==> (r->Err_0 is Utf8Error || (r->Err_0 is UnexpectedEof && s.len() < len)),
            r is Err ==> forall|u: Seq<u8>|
                #[trigger] text_witness(u, s, len as nat) ==> (r->Err_0 is UnexpectedEof && s.len()
                    < len),
    {
        let ghost c = s.subrange(done as int, done + m);
        proof {
            self.input.lemma_window();
        }
        let lead = self.input.peek(k);
        let w = utf8_width(lead);
        proof {
            assert forall|u: Seq<u8>| #[trigger] text_witness(u, s, len as nat) implies ({
                let w = utf8_width_spec(u[done + k]) as int;
                &&& u[done + k] == lead
                &&& 0 < w
                &&& m < k + w
                &&& done + k + w <= len
                &&& valid_utf8(u.subrange(done + k, done + k + w))
            }) by {
                let kk = if s.len() < len { s.len() as int } else { len as int };
                assert(done + m <= kk);
                assert(u.take(done as int) =~= u.take(kk).take(done as int));
                assert(s.take(done as int) =~= s.take(kk).take(done as int));
                assert(u.subrange(done as int, done + m) =~= u.take(kk).subrange(done as int, done + m));
                assert(c =~= s.take(kk).subrange(done as int, done + m));
                assert(u[done + k] == u.take(kk)[done + k]);
                assert(s[done + k] == s.take(kk)[done + k]);
                lemma_cut_character(u, done as int, m as int, k as int);
            }
        }
        if m - k >= w || w > len - done - k {
            return Err(UbjError::Utf8Error(done + k));
        }
        assert(self.input.window().subrange(0, k as int) =~= c.subrange(0, k as int));
        let head = match self.input.window_text(k) {
            Ok(p) => p,
            Err(_) => {
                return Err(UbjError::Utf8Error(done + k));
            },
        };
        proof {
            lemma_valid_concat(s.take(done as int), c.subrange(0, k as int));
            assert(s.take(done as int) + c.subrange(0, k as int) =~= s.take(done + k));
        }
        text.append(head.as_str());
        self.input.consume(k);
        let at = done + k;
        assert(self.rest() =~= s.skip(at as int));
        let bytes = self.consume_bytes(w)?;
        assert(bytes@ =~= s.subrange(at as int, at + w));
        proof {
            assert forall|u: Seq<u8>| #[trigger] text_witness(u, s, len as nat) implies valid_utf8(bytes@) by {
                let kk = if s.len() < len { s.len() as int } else { len as int };
                assert(at + w <= kk);
                assert(u.subrange(at as int, at + w) =~= u.take(kk).subrange(at as int, at + w));
                assert(bytes@ =~= s.take(kk).subrange(at as int, at + w));
            }
        }
        let ch = match utf8_text(&bytes, 0, w) {
            Ok(ch) => ch,
            Err(_) => {
                assert(bytes@.subrange(0, w as int) =~= bytes@);
                return Err(UbjError::Utf8Error(at));
            },
        };
        proof {
            assert(bytes@.subrange(0, w as int) =~= bytes@);
            lemma_valid_concat(s.take(at as int), bytes@);
            assert(s.take(at as int) + bytes@ =~= s.take(at + w));
        }
        text.append(ch.as_str());
        assert(self.rest() =~= s.skip(at + w));
        Ok(at + w)
    }

    /// Reads a string without marker: a narrowed, non-negative byte length,
    /// then that many bytes of UTF-8 text.
    pub fn read_unmarked_string(&mut self) -> (r: UbjResult<String>)
        requires
            old(self).wf(),
        ensures
            final(self).wf(),
            unmarked_string_outcome(old(self).rest(), r),
            r is Ok ==> final(self).rest() == old(self).rest().skip(
                narrowed_len(old(self).rest()) + narrowed_value(old(self).rest()),
            ),
    {
        let ghost s = old(self).rest();
        let len = self.read_length()?;
        let ghost after = self.rest();
        let r = self.consume_text(len);
        proof {
            if r is Ok {
                assert(after.skip(len as int) =~= s.skip(narrowed_len(s) + narrowed_value(s)));
            }
        }
        r
    }

    /// Reads a string value: the `S` marker, then the string without marker.
    pub fn read_marked_string(&mut self) -> (r: UbjResult<String>)
        requires
            old(self).wf(),
        ensures
            final(self).wf(),
            marker_absent(old(self).rest(), 0x53) ==> (r == Err::<String, UbjError>(
                marker_failure(old(self).rest()),
            ) && final(self).rest() == old(self).rest()),
            !marker_absent(old(self).rest(), 0x53) ==> unmarked_string_outcome(
                old(self).rest().skip(1),
                r,
            ),
            r is Ok ==> final(self).rest() == old(self).rest().skip(
                1 + narrowed_len(old(self).rest().skip(1)) + narrowed_value(old(self).rest().skip(1)),
            ),
    {
        let ghost s = old(self).rest();
        self.consume_marker(UbjMarker::Str)?;
        let r = self.read_unmarked_string();
        proof {
            let s1 = s.skip(1);
            if r is Ok {
                assert(s1.skip(narrowed_len(s1) + narrowed_value(s1)) =~= s.skip(
                    1 + narrowed_len(s1) + narrowed_value(s1),
                ));
            }
        }
        r
    }

    /// Consumes the `[` that opens an array.
    pub fn read_start_array(&mut self) -> (r: UbjResult<()>)
        requires
            old(self).wf(),
        ensures
            final(self).wf(),
            r == fixed_outcome(old(self).rest(), 0x5B, 0, ()),
            r is Ok ==> final(self).rest() == old(self).rest().skip(1),
            r is Err ==> final(self).rest() == old(self).rest(),
    {
        self.consume_marker(UbjMarker::StartArray)
    }

    /// Probes for the `]` that closes an array: consumes it if it is there, and
    /// consumes nothing if it is not.
    pub fn read_end_array(&mut self) -> (r: UbjResult<()>)
        requires
            old(self).wf(),
        ensures
            final(self).wf(),
            r == fixed_outcome(old(self).rest(), 0x5D, 0, ()),
            r is Ok ==> final(self).rest() == old(self).rest().skip(1),
            r is Err ==> final(self).rest() == old(self).rest(),
    {
        self.consume_marker(UbjMarker::EndArray)
    }

    /// Consumes the `{` that opens an object.
    pub fn read_start_object(&mut self) -> (r: UbjResult<()>)
        requires
            old(self).wf(),
        ensures
            final(self).wf(),
            r == fixed_outcome(old(self).rest(), 0x7B, 0, ()),
            r is Ok ==> final(self).rest() == old(self).rest().skip(1),
            r is Err ==> final(self).rest() == old(self).rest(),
    {
        self.consume_marker(UbjMarker::StartObject)
    }

    /// Probes for the `}` that closes an object: consumes it if it is there,
    /// and consumes nothing if it is not.
    pub fn read_end_object(&mut self) -> (r: UbjResult<()>)
        requires
            old(self).wf(),
        ensures
            final(self).wf(),
            r == fixed_outcome(old(self).rest(), 0x7D, 0, ()),
            r is Ok ==> final(self).rest() == old(self).rest().skip(1),
            r is Err ==> final(self).rest() == old(self).rest(),
    {
        self.consume_marker(UbjMarker::EndObject)
    }
}

} // verus!
