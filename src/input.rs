use vstd::prelude::*;
use vstd::utf8::*;

verus! {

/// The bytes of a sequence of pieces, one after the other.
pub open spec fn flatten(pieces: Seq<Seq<u8>>) -> Seq<u8>
    decreases pieces.len(),
{
    if pieces.len() == 0 {
        Seq::empty()
    } else {
        pieces[0] + flatten(pieces.drop_first())
    }
}

/// Appending a piece appends its bytes.
pub proof fn lemma_flatten_push(pieces: Seq<Seq<u8>>, last: Seq<u8>)
    ensures
        flatten(pieces.push(last)) == flatten(pieces) + last,
    decreases pieces.len(),
{
    let p = pieces.push(last);
    if pieces.len() == 0 {
        assert(p.drop_first() =~= Seq::<Seq<u8>>::empty());
        assert(flatten(p.drop_first()) == Seq::<u8>::empty());
        assert(flatten(p) == p[0] + flatten(p.drop_first()));
        assert(flatten(p) =~= last);
        assert(flatten(pieces) == Seq::<u8>::empty());
        assert(flatten(p) =~= flatten(pieces) + last);
    } else {
        assert(pieces.push(last).drop_first() =~= pieces.drop_first().push(last));
        lemma_flatten_push(pieces.drop_first(), last);
        assert(flatten(pieces.push(last)) =~= flatten(pieces) + last);
    }
}

/// A byte source that hands its bytes over in the pieces in which they
/// arrived, as a buffered reader refills: a reader sees one piece at a time and
/// consumes from its front.
pub struct ChunkedInput {
    chunks: Vec<Vec<u8>>,
    index: usize,
    offset: usize,
}

impl ChunkedInput {
    pub closed spec fn views(&self) -> Seq<Seq<u8>> {
        self.chunks@.map_values(|c: Vec<u8>| c@)
    }

    /// The current piece is never exhausted while one remains.
    pub closed spec fn wf(&self) -> bool {
        &&& self.index <= self.chunks@.len()
        &&& self.index < self.chunks@.len() ==> self.offset < self.chunks@[self.index as int]@.len()
        &&& self.index == self.chunks@.len() ==> self.offset == 0
    }

    /// The bytes not consumed yet.
    pub closed spec fn pending(&self) -> Seq<u8> {
        if self.index < self.chunks@.len() {
            self.chunks@[self.index as int]@.subrange(
                self.offset as int,
                self.chunks@[self.index as int]@.len() as int,
            ) + flatten(self.views().subrange(self.index + 1, self.chunks@.len() as int))
        } else {
            Seq::empty()
        }
    }

    /// What one refill shows: the unconsumed rest of the current piece.
    pub closed spec fn window(&self) -> Seq<u8> {
        if self.index < self.chunks@.len() {
            self.chunks@[self.index as int]@.subrange(
                self.offset as int,
                self.chunks@[self.index as int]@.len() as int,
            )
        } else {
            Seq::empty()
        }
    }

    /// The window is where the pending bytes start, and is empty only at the end.
    pub proof fn lemma_window(&self)
        requires
            self.wf(),
        ensures
            self.window().len() <= self.pending().len(),
            self.window() == self.pending().subrange(0, self.window().len() as int),
            self.window().len() == 0 <==> self.pending().len() == 0,
    {
        if self.index < self.chunks@.len() {
            assert(self.window() =~= self.pending().subrange(0, self.window().len() as int));
        }
    }

    proof fn lemma_pending_from_start(&self)
        requires
            self.index < self.chunks@.len(),
            self.offset == 0,
        ensures
            self.pending() == flatten(self.views().subrange(self.index as int, self.chunks@.len() as int)),
    {
        let v = self.views();
        let i = self.index as int;
        let n = self.chunks@.len() as int;
        assert(v.subrange(i, n).drop_first() =~= v.subrange(i + 1, n));
        assert(self.chunks@[i]@.subrange(0, self.chunks@[i]@.len() as int) =~= v[i]);
    }

    /// Moves past empty pieces; the pending bytes do not change.
    fn skip_empty(&mut self)
        requires
            old(self).index <= old(self).chunks@.len(),
            old(self).index < old(self).chunks@.len() ==> old(self).offset
                <= old(self).chunks@[old(self).index as int]@.len(),
            old(self).index == old(self).chunks@.len() ==> old(self).offset == 0,
        ensures
            final(self).wf(),
            final(self).pending() == old(self).pending(),
            final(self).chunks@ == old(self).chunks@,
    {
        let n = self.chunks.len();
        if self.index < n && self.offset == self.chunks[self.index].len() {
            proof {
                let v = self.views();
                let i = self.index as int;
                assert(v.subrange(i, n as int).drop_first() =~= v.subrange(i + 1, n as int));
                assert(self.pending() =~= flatten(v.subrange(i + 1, n as int)));
            }
            self.index = self.index + 1;
            self.offset = 0;
            proof {
                if self.index < n {
                    self.lemma_pending_from_start();
                } else {
                    assert(self.views().subrange(self.index as int, n as int) =~= Seq::<Seq<u8>>::empty());
                    assert(flatten(Seq::<Seq<u8>>::empty()) == Seq::<u8>::empty());
                }
            }
            while self.index < n && self.chunks[self.index].len() == 0
                invariant
                    n == self.chunks@.len(),
                    self.chunks@ == old(self).chunks@,
                    self.index <= n,
                    self.offset == 0,
                    self.pending() == old(self).pending(),
                    self.index < n ==> self.pending() == flatten(
                        self.views().subrange(self.index as int, n as int),
                    ),
                decreases n - self.index,
            {
                proof {
                    let v = self.views();
                    let i = self.index as int;
                    assert(v.subrange(i, n as int).drop_first() =~= v.subrange(i + 1, n as int));
                    assert(v[i] =~= Seq::<u8>::empty());
                }
                self.index = self.index + 1;
                proof {
                    if self.index < n {
                        self.lemma_pending_from_start();
                    } else {
                        assert(self.views().subrange(self.index as int, n as int) =~= Seq::<Seq<u8>>::empty());
                        assert(flatten(Seq::<Seq<u8>>::empty()) == Seq::<u8>::empty());
                    }
                }
            }
            proof {
                let v = self.views();
                let i = self.index as int;
                if i < n {
                    assert(v.subrange(i, n as int).drop_first() =~= v.subrange(i + 1, n as int));
                    assert(self.chunks@[i]@.subrange(0, self.chunks@[i]@.len() as int) =~= v[i]);
                }
            }
        }
    }

    /// An input that arrives in the given pieces, in order. Empty pieces are
    /// allowed and skipped.
    pub fn from_chunks(chunks: Vec<Vec<u8>>) -> (r: ChunkedInput)
        ensures
            r.wf(),
            r.pending() == flatten(chunks@.map_values(|c: Vec<u8>| c@)),
    {
        let mut r = ChunkedInput { chunks, index: 0, offset: 0 };
        proof {
            let v = r.views();
            if v.len() > 0 {
                assert(v.subrange(1, v.len() as int) =~= v.drop_first());
                assert(r.chunks@[0]@.subrange(0, r.chunks@[0]@.len() as int) =~= v[0]);
            } else {
                assert(v =~= Seq::<Seq<u8>>::empty());
            }
        }
        r.skip_empty();
        r
    }

    /// An input that arrives in one piece.
    pub fn from_bytes(bytes: Vec<u8>) -> (r: ChunkedInput)
        ensures
            r.wf(),
            r.pending() == bytes@,
    {
        let ghost b = bytes@;
        let mut chunks: Vec<Vec<u8>> = Vec::new();
        chunks.push(bytes);
        let r = ChunkedInput::from_chunks(chunks);
        proof {
            let v = chunks@.map_values(|c: Vec<u8>| c@);
            assert(v =~= Seq::<Seq<u8>>::empty().push(b));
            lemma_flatten_push(Seq::<Seq<u8>>::empty(), b);
            assert(flatten(Seq::<Seq<u8>>::empty()) == Seq::<u8>::empty());
            assert(flatten(v) =~= b);
        }
        r
    }

    /// The length of the window: what one refill makes available.
    pub fn available(&self) -> (n: usize)
        requires
            self.wf(),
        ensures
            n == self.window().len(),
    {
        if self.index < self.chunks.len() {
            self.chunks[self.index].len() - self.offset
        } else {
            0
        }
    }

    /// The byte at position `i` of the window, without consuming it.
    pub fn peek(&self, i: usize) -> (b: u8)
        requires
            self.wf(),
            i < self.window().len(),
        ensures
            b == self.window()[i as int],
            b == self.pending()[i as int],
    {
        proof {
            self.lemma_window();
        }
        let c = &self.chunks[self.index];
        let l = c.len();
        assert(self.offset + i < l);
        c[self.offset + i]
    }

    /// Consumes `n` bytes of the window.
    pub fn consume(&mut self, n: usize)
        requires
            old(self).wf(),
            n <= old(self).window().len(),
        ensures
            final(self).wf(),
            final(self).pending() == old(self).pending().subrange(
                n as int,
                old(self).pending().len() as int,
            ),
    {
        if n == 0 {
            assert(self.pending() =~= self.pending().subrange(0, self.pending().len() as int));
            return;
        }
        proof {
            assert(old(self).pending().subrange(n as int, old(self).pending().len() as int)
                =~= old(self).chunks@[old(self).index as int]@.subrange(
                old(self).offset + n,
                old(self).chunks@[old(self).index as int]@.len() as int,
            ) + flatten(
                old(self).views().subrange(old(self).index + 1, old(self).chunks@.len() as int),
            ));
        }
        let l = self.chunks[self.index].len();
        assert(self.offset + n <= l);
        self.offset = self.offset + n;
        self.skip_empty();
    }

    /// The text of the first `n` bytes of the window, when they are well-formed
    /// UTF-8; otherwise the length of their longest well-formed prefix.
    pub fn window_text(&self, n: usize) -> (r: Result<String, usize>)
        requires
            self.wf(),
            n <= self.window().len(),
        ensures
            utf8_outcome(self.window().subrange(0, n as int), r),
    {
        let ghost w = self.window();
        if n == 0 {
            let r = String::new();
            assert(w.subrange(0, 0) =~= Seq::<u8>::empty());
            assert(r@ =~= decode_utf8(w.subrange(0, 0)));
            return Ok(r);
        }
        let c = &self.chunks[self.index];
        let l = c.len();
        let start = self.offset;
        assert(start + n <= l);
        let r = utf8_text(c, start, start + n);
        assert(c@.subrange(start as int, start + n) =~= w.subrange(0, n as int));
        r
    }
}

/// What decoding `b` as UTF-8 gives: its characters exactly when it is
/// well-formed, else the length of its longest well-formed prefix, which is
/// shorter than `b`.
pub open spec fn utf8_outcome(b: Seq<u8>, r: Result<String, usize>) -> bool {
    match r {
        Ok(s) => valid_utf8(b) && s@ == decode_utf8(b),
        Err(k) => {
            &&& !valid_utf8(b)
            &&& k < b.len()
            &&& valid_utf8(b.subrange(0, k as int))
            &&& forall|j: int| k < j <= b.len() ==> !valid_utf8(#[trigger] b.subrange(0, j))
        },
    }
}

/// Relies on core::str::from_utf8: it accepts exactly the well-formed UTF-8
/// byte sequences and then holds the characters they encode; on refusal,
/// Utf8Error::valid_up_to is the largest index up to which the bytes are
/// well-formed.
#[verifier::external_body]
pub(crate) fn utf8_text(bytes: &Vec<u8>, start: usize, end: usize) -> (r: Result<String, usize>)
    requires
        start <= end <= bytes@.len(),
    ensures
        utf8_outcome(bytes@.subrange(start as int, end as int), r),
{
    match core::str::from_utf8(&bytes[start..end]) {
        Ok(s) => Ok(s.to_string()),
        Err(e) => Err(e.valid_up_to()),
    }
}

} // verus!
