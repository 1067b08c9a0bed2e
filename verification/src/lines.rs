//! Line framing: a byte stream, delivered in chunks of arbitrary size,
//! is cut into newline-terminated text lines.
//!
//! A [`Lines`] value buffers the bytes that have arrived but not yet been
//! consumed. The caller feeds it chunks with [`Lines::push_chunk`] and pulls
//! complete lines with [`Lines::next_line`]; at end of stream a final
//! unterminated fragment, if any, is taken with [`Lines::drain_to_end`].
//! The framer knows nothing of the protocol spoken over the lines: it is a
//! pure byte-to-line transducer.
use vstd::prelude::*;

verus! {

use vstd::utf8::{valid_utf8, decode_utf8};

/// A line boundary failure: the bytes of a finished line were not valid text.
#[derive(Debug, Clone, Copy, PartialEq, Eq)]
pub enum FramingError {
    /// The bytes between two line boundaries are not valid UTF-8.
    InvalidUtf8,
}

/// The line terminator, as a byte.
pub open spec fn nl() -> u8 {
    10u8
}

/// Index of the first line terminator in `b`, or `b.len()` if there is none.
pub open spec fn first_nl(b: Seq<u8>) -> nat
    decreases b.len(),
{
    if b.len() == 0 {
        0
    } else if b[0] == nl() {
        0
    } else {
        1 + first_nl(b.drop_first())
    }
}

/// `first_nl` points at the first terminator: it is in bounds exactly when a
/// terminator exists, the byte there is a terminator, and no earlier byte is.
pub proof fn lemma_first_nl(b: Seq<u8>)
    ensures
        first_nl(b) <= b.len(),
        first_nl(b) < b.len() ==> b[first_nl(b) as int] == nl(),
        forall|j: int| 0 <= j < first_nl(b) ==> b[j] != nl(),
    decreases b.len(),
{
    if b.len() > 0 && b[0] != nl() {
        lemma_first_nl(b.drop_first());
        assert forall|j: int| 0 <= j < first_nl(b) implies b[j] != nl() by {
            if j > 0 {
                assert(b.drop_first()[j - 1] == b[j]);
            }
        }
    }
}

/// The complete (terminator-delimited) lines of `b`, terminators stripped.
pub open spec fn complete_lines(b: Seq<u8>) -> Seq<Seq<u8>>
    decreases b.len(),
{
    let i = first_nl(b);
    if i < b.len() {
        seq![b.take(i as int)] + complete_lines(b.skip(i + 1int))
    } else {
        Seq::empty()
    }
}

/// What is left of `b` after its last terminator: the unterminated tail.
pub open spec fn remainder(b: Seq<u8>) -> Seq<u8>
    decreases b.len(),
{
    let i = first_nl(b);
    if i < b.len() {
        remainder(b.skip(i + 1int))
    } else {
        b
    }
}

/// Every line a framer yields for the whole stream `b`, in order: the
/// complete lines, then — when the stream does not end in a terminator —
/// the final fragment.
pub open spec fn framed_lines(b: Seq<u8>) -> Seq<Seq<u8>> {
    if remainder(b).len() > 0 {
        complete_lines(b).push(remainder(b))
    } else {
        complete_lines(b)
    }
}

/// Cuts a byte stream into newline-terminated lines.
///
/// Holds the bytes received so far that no yielded line has consumed.
/// One `Lines` value serves one connection, single-use: bytes go in at the
/// back, lines come off the front.
pub struct Lines {
    buf: Vec<u8>,
}

impl View for Lines {
    type V = Seq<u8>;

    closed spec fn view(&self) -> Seq<u8> {
        self.buf@
    }
}

impl Lines {
    /// A framer with nothing buffered.
    pub fn new() -> (r: Lines)
        ensures
            r@ == Seq::<u8>::empty(),
    {
        Lines { buf: Vec::new() }
    }

    /// Appends one chunk of the stream, of any size, to the buffer.
    /// No byte is lost or duplicated, whatever the chunk boundaries.
    pub fn push_chunk(&mut self, chunk: &[u8])
        ensures
            final(self)@ == old(self)@ + chunk@,
    {
        let mut k: usize = 0;
        while k < chunk.len()
            invariant
                k <= chunk@.len(),
                self@ == old(self)@ + chunk@.take(k as int),
            decreases chunk@.len() - k,
        {
            self.buf.push(chunk[k]);
            k = k + 1;
            proof {
                assert(old(self)@ + chunk@.take(k as int) =~= (old(self)@ + chunk@.take(
                    k as int - 1,
                )).push(chunk@[k - 1]));
            }
        }
        proof {
            assert(chunk@.take(chunk@.len() as int) =~= chunk@);
        }
    }

    /// Whether nothing is buffered.
    pub fn is_empty(&self) -> (r: bool)
        ensures
            r == (self@.len() == 0),
    {
        self.buf.len() == 0
    }

    /// Position of the first line terminator in the buffer, if one is there.
    pub fn find_newline(&self) -> (r: Option<usize>)
        ensures
            first_nl(self@) < self@.len() ==> r == Some(first_nl(self@) as usize),
            first_nl(self@) == self@.len() ==> r is None,
    {
        proof {
            lemma_first_nl(self@);
        }
        let n = self.buf.len();
        let mut k: usize = 0;
        while k < n
            invariant
                n == self@.len(),
                k <= n,
                forall|j: int| 0 <= j < k ==> self@[j] != nl(),
            decreases n - k,
        {
            if self.buf[k] == 10u8 {
                proof {
                    lemma_first_nl_found(self@, k as int);
                }
                return Some(k);
            }
            k = k + 1;
        }
        proof {
            if first_nl(self@) < self@.len() {
                assert(self@[first_nl(self@) as int] == nl());
            }
        }
        None
    }

    /// Yields the next complete line, terminator stripped, consuming it from
    /// the buffer; `None` while no terminator has arrived yet. The line is
    /// `Err` exactly when its bytes are not valid text.
    pub fn next_line(&mut self) -> (r: Option<Result<String, FramingError>>)
        ensures
            first_nl(old(self)@) == old(self)@.len() ==> r is None && final(self)@ == old(self)@
                && complete_lines(old(self)@) == Seq::<Seq<u8>>::empty(),
            first_nl(old(self)@) < old(self)@.len() ==> {
                let line = old(self)@.take(first_nl(old(self)@) as int);
                &&& final(self)@ == old(self)@.skip(first_nl(old(self)@) + 1int)
                &&& r matches Some(one) && line_decodes_to(line, one)
                &&& complete_lines(old(self)@) == seq![line] + complete_lines(final(self)@)
                &&& remainder(old(self)@) == remainder(final(self)@)
            },
    {
        match self.find_newline() {
            None => None,
            Some(i) => {
                proof {
                    lemma_first_nl(self@);
                }
                let n = self.buf.len();
                let mut line: Vec<u8> = Vec::new();
                let mut k: usize = 0;
                while k < i
                    invariant
                        k <= i < n == self@.len(),
                        self@ == old(self)@,
                        line@ == self@.take(i as int).take(k as int),
                    decreases i - k,
                {
                    line.push(self.buf[k]);
                    k = k + 1;
                    proof {
                        assert(self@.take(i as int).take(k as int) =~= self@.take(i as int).take(
                            k as int - 1,
                        ).push(self@[k - 1]));
                    }
                }
                proof {
                    assert(self@.take(i as int).take(i as int) =~= self@.take(i as int));
                }
                let tail = self.buf.split_off(i + 1);
                self.buf = tail;
                Some(bytes_to_string(line))
            },
        }
    }

    /// At end of stream: takes everything still buffered as one final
    /// unterminated line, leaving the framer empty. On an empty buffer the
    /// final line is the empty string; callers that must not yield one check
    /// [`Lines::is_empty`] first.
    pub fn drain_to_end(&mut self) -> (r: Result<String, FramingError>)
        ensures
            final(self)@ == Seq::<u8>::empty(),
            line_decodes_to(old(self)@, r),
    {
        let rest = self.buf.split_off(0);
        proof {
            assert(old(self)@.subrange(0, old(self)@.len() as int) =~= old(self)@);
            assert(old(self)@.subrange(0, 0) =~= Seq::<u8>::empty());
        }
        bytes_to_string(rest)
    }
}

/// How a yielded line relates to the bytes it was cut from: decoding
/// succeeds exactly on valid UTF-8 and then carries the decoded characters.
pub open spec fn line_decodes_to(bytes: Seq<u8>, r: Result<String, FramingError>) -> bool {
    &&& r is Ok <==> valid_utf8(bytes)
    &&& r matches Ok(s) ==> s@ == decode_utf8(bytes)
    &&& r matches Err(e) ==> e == FramingError::InvalidUtf8
}

/// Relies on `String::from_utf8`: it returns `Ok` exactly when the bytes are
/// valid UTF-8, and the string it returns decodes those bytes.
#[verifier::external_body]
fn bytes_to_string(bytes: Vec<u8>) -> (r: Result<String, FramingError>)
    ensures
        line_decodes_to(bytes@, r),
{
    String::from_utf8(bytes).map_err(|_| FramingError::InvalidUtf8)
}

/// All the chunks of a stream, in order, as one byte sequence.
pub open spec fn concat_chunks(chunks: Seq<Seq<u8>>) -> Seq<u8>
    decreases chunks.len(),
{
    if chunks.len() == 0 {
        Seq::empty()
    } else {
        chunks[0] + concat_chunks(chunks.drop_first())
    }
}

/// The lines a framer yields when, holding `pending` (which contains no
/// terminator), it receives `chunks` one by one, drains every complete line
/// after each chunk, and at end of stream yields the leftover fragment if
/// one is there. This is the framer's behaviour as its contracts state it:
/// [`Lines::push_chunk`] appends a chunk, [`Lines::next_line`] cuts the
/// complete lines, [`Lines::drain_to_end`] takes the fragment.
pub open spec fn emitted_lines(pending: Seq<u8>, chunks: Seq<Seq<u8>>) -> Seq<Seq<u8>>
    decreases chunks.len(),
{
    if chunks.len() == 0 {
        if pending.len() > 0 {
            seq![pending]
        } else {
            Seq::empty()
        }
    } else {
        complete_lines(pending + chunks[0]) + emitted_lines(
            remainder(pending + chunks[0]),
            chunks.drop_first(),
        )
    }
}

/// Appending bytes does not move an existing first terminator.
proof fn lemma_first_nl_append(a: Seq<u8>, b: Seq<u8>)
    ensures
        first_nl(a) < a.len() ==> first_nl(a + b) == first_nl(a),
    decreases a.len(),
{
    if a.len() > 0 && first_nl(a) < a.len() {
        assert((a + b)[0] == a[0]);
        if a[0] != nl() {
            assert((a + b).drop_first() =~= a.drop_first() + b);
            lemma_first_nl(a.drop_first());
            lemma_first_nl_append(a.drop_first(), b);
        }
    }
}

/// The unterminated tail holds no terminator.
proof fn lemma_remainder_no_nl(b: Seq<u8>)
    ensures
        first_nl(remainder(b)) == remainder(b).len(),
    decreases b.len(),
{
    lemma_first_nl(b);
    let i = first_nl(b);
    if i < b.len() {
        lemma_remainder_no_nl(b.skip(i + 1int));
    }
}

/// Cutting lines commutes with appending input: the complete lines of
/// `a + b` are those of `a` followed by those of `a`'s tail joined to `b`,
/// and the tails agree likewise.
proof fn lemma_lines_append(a: Seq<u8>, b: Seq<u8>)
    ensures
        complete_lines(a + b) == complete_lines(a) + complete_lines(remainder(a) + b),
        remainder(a + b) == remainder(remainder(a) + b),
    decreases a.len(),
{
    lemma_first_nl(a);
    let i = first_nl(a);
    if i < a.len() {
        lemma_first_nl_append(a, b);
        assert((a + b).take(i as int) =~= a.take(i as int));
        assert((a + b).skip(i + 1int) =~= a.skip(i + 1int) + b);
        lemma_lines_append(a.skip(i + 1int), b);
        assert(complete_lines(a + b) =~= complete_lines(a) + complete_lines(remainder(a) + b));
    } else {
        assert(remainder(a) + b =~= a + b);
        assert(complete_lines(a) + complete_lines(remainder(a) + b) =~= complete_lines(
            remainder(a) + b,
        ));
    }
}

/// A framer run over `chunks`, starting from a terminator-free buffer
/// `pending`, yields exactly the framed lines of the concatenated stream.
proof fn lemma_run(pending: Seq<u8>, chunks: Seq<Seq<u8>>)
    requires
        first_nl(pending) == pending.len(),
    ensures
        emitted_lines(pending, chunks) == framed_lines(pending + concat_chunks(chunks)),
    decreases chunks.len(),
{
    if chunks.len() == 0 {
        assert(pending + concat_chunks(chunks) =~= pending);
        if pending.len() > 0 {
            assert(framed_lines(pending) =~= seq![pending]);
        } else {
            assert(framed_lines(pending) =~= Seq::<Seq<u8>>::empty());
        }
    } else {
        let c0 = chunks[0];
        let rest = chunks.drop_first();
        let p1 = pending + c0;
        let tail = remainder(p1);
        lemma_remainder_no_nl(p1);
        lemma_run(tail, rest);
        lemma_lines_append(p1, concat_chunks(rest));
        assert(pending + concat_chunks(chunks) =~= p1 + concat_chunks(rest));
        assert(emitted_lines(pending, chunks) =~= framed_lines(pending + concat_chunks(chunks)));
    }
}

/// Framing is independent of chunk boundaries: however a byte stream is
/// split into chunks, the lines the framer yields — each complete line as
/// its terminator arrives, and the unterminated fragment at end of stream —
/// are exactly the framed lines of the stream as a whole.
pub proof fn lemma_chunking_invariance(chunks: Seq<Seq<u8>>)
    ensures
        emitted_lines(Seq::empty(), chunks) == framed_lines(concat_chunks(chunks)),
{
    lemma_run(Seq::empty(), chunks);
    assert(Seq::<u8>::empty() + concat_chunks(chunks) =~= concat_chunks(chunks));
}

/// If `b[i]` is a terminator and nothing before it is, it is the first one.
proof fn lemma_first_nl_found(b: Seq<u8>, i: int)
    requires
        0 <= i < b.len(),
        b[i] == nl(),
        forall|j: int| 0 <= j < i ==> b[j] != nl(),
    ensures
        first_nl(b) == i,
    decreases b.len(),
{
    if i > 0 {
        assert forall|j: int| 0 <= j < i - 1 implies b.drop_first()[j] != nl() by {
            assert(b.drop_first()[j] == b[j + 1]);
        }
        assert(b.drop_first()[i - 1] == b[i]);
        lemma_first_nl_found(b.drop_first(), i - 1);
    }
}

} // verus!
