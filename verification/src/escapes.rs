//! The escape table abstraction and the byte-by-byte escaping routine.
use vstd::prelude::*;

use crate::replace::{
    lemma_replace_concat, lemma_replace_identity, lemma_replace_range, lemma_replace_take,
    lemma_replace_text, lemma_replace_valid_utf8, replace_bytes, replace_chars,
};
use crate::writer::{write_slice, CallLog, Writer};

verus! {

/// A table of escaped bytes, together with a lane-wise mask that over-approximates it.
///
/// A byte `c` is escaped when [`Escapes::byte_byte_compare`] holds of it; it is then
/// replaced by `escape(position(c))`. The block-wise routine first selects the bytes
/// on which [`Escapes::masking`] holds and, when the mask may hold of bytes that are
/// not escaped (`FALSE_POSITIVE`), keeps only those whose position is below
/// `ESCAPE_LEN`.
pub trait Escapes: Sized {
    /// The number of escape sequences.
    spec fn spec_escape_len(&self) -> int;

    /// Whether the mask may select bytes that are not escaped.
    spec fn spec_false_positive(&self) -> bool;

    /// Whether the mask selects byte `c`.
    spec fn spec_masking(&self, c: u8) -> bool;

    /// The escape sequence at position `i`.
    spec fn spec_escape(&self, i: int) -> Seq<char>;

    /// The position of byte `c` in the table.
    spec fn spec_position(&self, c: u8) -> int;

    /// Whether byte `c` is escaped.
    spec fn spec_compare(&self, c: u8) -> bool;

    /// The number of escape sequences.
    fn escape_len(&self) -> (r: usize)
        ensures
            r == self.spec_escape_len(),
    ;

    /// Whether the mask may select bytes that are not escaped.
    fn false_positive(&self) -> (r: bool)
        ensures
            r == self.spec_false_positive(),
    ;

    /// Applies the mask to one byte lane.
    fn masking(&self, c: u8) -> (r: bool)
        ensures
            r == self.spec_masking(c),
    ;

    /// Returns the escape sequence for a given position in the escaped array.
    fn escape(&self, c: usize) -> (r: &str)
        requires
            c < self.spec_escape_len(),
        ensures
            r@ == self.spec_escape(c as int),
    ;

    /// Returns the position of a character in the escaped array.
    fn position(&self, c: u8) -> (r: usize)
        ensures
            r == self.spec_position(c),
    ;

    /// Compares a byte to determine if it should be escaped.
    fn byte_byte_compare(&self, c: u8) -> (r: bool)
        ensures
            r == self.spec_compare(c),
    ;
}

/// Escapes a string by applying escape sequences and writing the result using a writer.
pub fn byte_byte_escape<E: Escapes, W: Writer>(escapes: &E, haystack: &str, writer: &mut W) -> (r: Result<(), W::Error>)
    requires
        table_wf(*escapes),
    ensures
        r is Ok ==> final(writer).written() == old(writer).written() + escape_spec(*escapes,
            vstd::utf8::encode_utf8(haystack@),
        ),
        r is Ok ==> final(writer).calls() == old(writer).calls() + oks(
            write_pieces(*escapes, vstd::utf8::encode_utf8(haystack@)),
        ),
        r matches Err(x) ==> failed(*escapes, vstd::utf8::encode_utf8(haystack@), old(writer).calls(), final(writer).calls(), x),
        haystack@.len() == 0 ==> r is Ok && final(writer).calls() == old(writer).calls(),
        W::infallible() ==> r is Ok,
{
    proof {
        if haystack@.len() == 0 {
            assert(vstd::utf8::encode_utf8(haystack@) =~= Seq::<u8>::empty());
        }
    }
    byte_byte_escape_raw(escapes, haystack.as_bytes(), writer)
}

/// Escapes a range of bytes by applying escape sequences and writing the result using a writer.
pub fn byte_byte_escape_raw<E: Escapes, W: Writer>(escapes: &E, haystack: &[u8], writer: &mut W) -> (r: Result<
    (),
    W::Error,
>)
    requires
        table_wf(*escapes),
    ensures
        r is Ok ==> final(writer).written() == old(writer).written() + escape_spec(*escapes,
            haystack@,
        ),
        r is Ok ==> final(writer).calls() == old(writer).calls() + oks(write_pieces(*escapes, haystack@)),
        r matches Err(x) ==> failed(*escapes, haystack@, old(writer).calls(), final(writer).calls(), x),
        haystack@.len() == 0 ==> r is Ok && final(writer).calls() == old(writer).calls(),
        W::infallible() ==> r is Ok,
{
    proof {
        if haystack@.len() == 0 {
            lemma_pieces_empty(*escapes, haystack@);
        }
    }
    let ghost base = writer.written();
    let ghost log = writer.calls();
    proof {
        assert(haystack@.take(0) =~= Seq::<u8>::empty());
        assert(write_pieces(*escapes, Seq::<u8>::empty()) =~= Seq::<Seq<u8>>::empty());
        assert(log + oks::<W::Error>(Seq::<Seq<u8>>::empty()) =~= log);
    }
    let end = haystack.len();
    let mut written: usize = 0;
    let mut cur: usize = 0;
    while cur < end
        invariant
            end == haystack.len(),
            table_wf(*escapes),
            emitted(*escapes, haystack@, written as int, cur as int, base, writer.written()),
            logged(*escapes, haystack@, written as int, log, writer.calls()),
            log == old(writer).calls(),
        decreases end - cur,
    {
        let c = haystack[cur];
        if escapes.byte_byte_compare(c) {
            emit(escapes, haystack, written, cur, escapes.position(c), writer, Ghost(base), Ghost(log))?;
            written = cur + 1;
        }
        cur = cur + 1;
    }
    finish(escapes, haystack, written, writer, Ghost(base), Ghost(log))
}

/// A builder that creates the escapes used by the block-wise routines.
pub trait EscapesBuilder {
    /// The `Escapes` type built.
    type Escapes: Escapes;

    /// The escapes that [`EscapesBuilder::new`] returns.
    spec fn spec_new() -> Self::Escapes;

    /// Creates a new instance of the `Escapes` type.
    fn new() -> (r: Self::Escapes)
        ensures
            r == Self::spec_new(),
    ;
}

/// Every escaped byte is ASCII and has a position inside the table.
pub open spec fn table_wf<E: Escapes>(e: E) -> bool {
    forall|c: u8|
        #[trigger] e.spec_compare(c) ==> c < 128 && 0 <= e.spec_position(c) < e.spec_escape_len()
}

/// The mask, filtered by position when it may have false positives, selects exactly
/// the escaped bytes.
pub open spec fn masking_wf<E: Escapes>(e: E) -> bool {
    &&& table_wf(e)
    &&& forall|c: u8|
        #[trigger] e.spec_compare(c) == (e.spec_masking(c) && (!e.spec_false_positive()
            || e.spec_position(c) < e.spec_escape_len()))
}

/// What byte `c` becomes.
pub open spec fn escaped_byte<E: Escapes>(e: E, c: u8) -> Seq<u8> {
    if e.spec_compare(c) {
        vstd::utf8::encode_utf8(e.spec_escape(e.spec_position(c)))
    } else {
        seq![c]
    }
}

/// The escaping of `s`: every escaped byte replaced by its escape sequence.
pub open spec fn escape_spec<E: Escapes>(e: E, s: Seq<u8>) -> Seq<u8> {
    replace_bytes(s, |c: u8| escaped_byte(e, c))
}

/// Law: escaping distributes over concatenation.
pub proof fn lemma_escape_concat<E: Escapes>(e: E, a: Seq<u8>, b: Seq<u8>)
    ensures
        escape_spec(e, a + b) == escape_spec(e, a) + escape_spec(e, b),
{
    lemma_replace_concat(a, b, |c: u8| escaped_byte(e, c));
}

/// Law: input without escaped bytes is forwarded unchanged.
pub proof fn lemma_escape_unchanged<E: Escapes>(e: E, s: Seq<u8>)
    requires
        forall|i: int| 0 <= i < s.len() ==> !e.spec_compare(#[trigger] s[i]),
    ensures
        escape_spec(e, s) == s,
{
    let f = |c: u8| escaped_byte(e, c);
    assert forall|i: int| 0 <= i < s.len() implies f(#[trigger] s[i]) == seq![s[i]] by {}
    lemma_replace_identity(s, f);
}

/// The text that escaping `cs` gives: every ASCII character that the table escapes
/// becomes its escape sequence, every other character is kept.
pub open spec fn escape_chars<E: Escapes>(e: E, cs: Seq<char>) -> Seq<char>
    decreases cs.len(),
{
    if cs.len() == 0 {
        seq![]
    } else {
        (if (cs[0] as u32) < 128 && e.spec_compare(cs[0] as u8) {
            e.spec_escape(e.spec_position(cs[0] as u8))
        } else {
            seq![cs[0]]
        }) + escape_chars(e, cs.drop_first())
    }
}

/// Law: escaping the UTF-8 encoding of text and decoding the result rewrites the
/// escaped characters into their escape sequences and keeps every other character.
pub proof fn lemma_escape_text<E: Escapes>(e: E, cs: Seq<char>)
    requires
        table_wf(e),
    ensures
        vstd::utf8::valid_utf8(escape_spec(e, vstd::utf8::encode_utf8(cs))),
        vstd::utf8::decode_utf8(escape_spec(e, vstd::utf8::encode_utf8(cs))) == escape_chars(e, cs),
    decreases cs.len(),
{
    let f = |c: u8| escaped_byte(e, c);
    lemma_escape_bytes_shape(e);
    lemma_replace_text(cs, f);
    vstd::utf8::encode_utf8_valid_utf8(cs);
    lemma_escape_valid_utf8(e, vstd::utf8::encode_utf8(cs));
    lemma_replace_chars_escape(e, cs);
}

/// Escaped bytes are ASCII, and every byte's escaping is text.
proof fn lemma_escape_bytes_shape<E: Escapes>(e: E)
    requires
        table_wf(e),
    ensures
        forall|b: u8| b >= 128 ==> #[trigger] escaped_byte(e, b) == seq![b],
        forall|b: u8| b < 128 ==> vstd::utf8::valid_utf8(#[trigger] escaped_byte(e, b)),
{
    assert forall|b: u8| b >= 128 implies #[trigger] escaped_byte(e, b) == seq![b] by {
        if e.spec_compare(b) {
            assert(b < 128);
        }
    }
    assert forall|b: u8| b < 128 implies vstd::utf8::valid_utf8(#[trigger] escaped_byte(e, b)) by {
        if e.spec_compare(b) {
            vstd::utf8::encode_utf8_valid_utf8(e.spec_escape(e.spec_position(b)));
        } else {
            lemma_ascii_byte_valid_utf8(b);
        }
    }
}

/// The character-level replacement that escaping performs.
proof fn lemma_replace_chars_escape<E: Escapes>(e: E, cs: Seq<char>)
    ensures
        replace_chars(cs, |c: u8| escaped_byte(e, c)) == escape_chars(e, cs),
    decreases cs.len(),
{
    if cs.len() > 0 {
        lemma_replace_chars_escape(e, cs.drop_first());
        let c = cs[0];
        if (c as u32) < 128 {
            if e.spec_compare(c as u8) {
                vstd::utf8::encode_utf8_decode_utf8(e.spec_escape(e.spec_position(c as u8)));
            } else {
                crate::replace::lemma_encode_single(c);
                assert(seq![(c as u8) as char] == seq![c]);
            }
        }
    }
}

/// Extending the escaped prefix by one byte appends that byte's escaping, and a
/// prefix's escaping is no longer than the whole escaping.
pub proof fn lemma_escape_take<E: Escapes>(e: E, s: Seq<u8>, i: int)
    requires
        0 <= i < s.len(),
    ensures
        escape_spec(e, s.take(i + 1)) == escape_spec(e, s.take(i)) + escaped_byte(e, s[i]),
        escape_spec(e, s.take(i + 1)).len() <= escape_spec(e, s).len(),
{
    let f = |c: u8| escaped_byte(e, c);
    lemma_replace_take(s, i, f);
    lemma_replace_range(s, i + 1, s.len() as int, f);
    assert(s.take(s.len() as int) =~= s);
}

/// A single ASCII byte is valid UTF-8.
pub proof fn lemma_ascii_byte_valid_utf8(b: u8)
    requires
        b < 128,
    ensures
        vstd::utf8::valid_utf8(seq![b]),
{
    let s = seq![b];
    assert(vstd::utf8::pop_first_scalar(s) =~= Seq::<u8>::empty());
    assert(vstd::utf8::valid_utf8(Seq::<u8>::empty()));
}

/// ASCII bytes are valid UTF-8.
pub proof fn lemma_ascii_valid_utf8(s: Seq<u8>)
    requires
        forall|i: int| 0 <= i < s.len() ==> #[trigger] s[i] < 128,
    ensures
        vstd::utf8::valid_utf8(s),
    decreases s.len(),
{
    if s.len() > 0 {
        assert(vstd::utf8::pop_first_scalar(s) =~= s.drop_first());
        lemma_ascii_valid_utf8(s.drop_first());
    }
}

/// Escaping keeps UTF-8 text valid: escaped bytes are ASCII and their escape
/// sequences are text.
pub proof fn lemma_escape_valid_utf8<E: Escapes>(e: E, s: Seq<u8>)
    requires
        table_wf(e),
        vstd::utf8::valid_utf8(s),
    ensures
        vstd::utf8::valid_utf8(escape_spec(e, s)),
{
    let f = |c: u8| escaped_byte(e, c);
    assert forall|b: u8| b >= 128 implies #[trigger] f(b) == seq![b] by {
        if e.spec_compare(b) {
            assert(b < 128);
        }
    }
    assert forall|b: u8| b < 128 implies vstd::utf8::valid_utf8(#[trigger] f(b)) by {
        if e.spec_compare(b) {
            vstd::utf8::encode_utf8_valid_utf8(e.spec_escape(e.spec_position(b)));
        } else {
            lemma_ascii_byte_valid_utf8(b);
        }
    }
    lemma_replace_valid_utf8(s, f);
}

/// Progress of an escaping routine over `s`: the sink holds `base` followed by the
/// escaping of `s[..written]`, and no byte in `s[written..pos]` is escaped.
pub open spec fn emitted<E: Escapes>(
    e: E,
    s: Seq<u8>,
    written: int,
    pos: int,
    base: Seq<u8>,
    out: Seq<u8>,
) -> bool {
    &&& 0 <= written <= pos <= s.len()
    &&& out == base + escape_spec(e, s.take(written))
    &&& forall|k: int| written <= k < pos ==> !e.spec_compare(#[trigger] s[k])
}

/// Skipping over a run of bytes that are not escaped.
pub proof fn lemma_emitted_extend<E: Escapes>(
    e: E,
    s: Seq<u8>,
    written: int,
    pos: int,
    to: int,
    base: Seq<u8>,
    out: Seq<u8>,
)
    requires
        emitted(e, s, written, pos, base, out),
        pos <= to <= s.len(),
        forall|k: int| pos <= k < to ==> !e.spec_compare(#[trigger] s[k]),
    ensures
        emitted(e, s, written, to, base, out),
{
}

/// Writing the pending bytes and the escape sequence of the escaped byte at `at`.
pub proof fn lemma_emitted_step<E: Escapes>(
    e: E,
    s: Seq<u8>,
    written: int,
    at: int,
    base: Seq<u8>,
    out: Seq<u8>,
)
    requires
        emitted(e, s, written, at, base, out),
        at < s.len(),
        e.spec_compare(s[at]),
    ensures
        emitted(e,
            s,
            at + 1,
            at + 1,
            base,
            out + s.subrange(written, at) + vstd::utf8::encode_utf8(
                e.spec_escape(e.spec_position(s[at])),
            ),
        ),
{
    let f = |c: u8| escaped_byte(e, c);
    let mid = s.subrange(written, at);
    assert forall|i: int| 0 <= i < mid.len() implies f(#[trigger] mid[i]) == seq![mid[i]] by {
        assert(mid[i] == s[written + i]);
    }
    lemma_replace_identity(mid, f);
    lemma_replace_range(s, written, at, f);
    lemma_replace_take(s, at, f);
    assert(out + s.subrange(written, at) + vstd::utf8::encode_utf8(
        e.spec_escape(e.spec_position(s[at])),
    ) =~= base + escape_spec(e, s.take(at + 1)));
}

/// Writing the bytes left after the last escaped byte completes the escaping.
pub proof fn lemma_emitted_finish<E: Escapes>(
    e: E,
    s: Seq<u8>,
    written: int,
    base: Seq<u8>,
    out: Seq<u8>,
)
    requires
        emitted(e, s, written, s.len() as int, base, out),
    ensures
        out + s.subrange(written, s.len() as int) == base + escape_spec(e, s),
{
    let f = |c: u8| escaped_byte(e, c);
    let mid = s.subrange(written, s.len() as int);
    assert forall|i: int| 0 <= i < mid.len() implies f(#[trigger] mid[i]) == seq![mid[i]] by {
        assert(mid[i] == s[written + i]);
    }
    lemma_replace_identity(mid, f);
    lemma_replace_range(s, written, s.len() as int, f);
    assert(s.take(s.len() as int) =~= s);
    assert(out + mid =~= base + escape_spec(e, s));
}

/// The slices, each written without error.
pub open spec fn oks<Er>(ps: Seq<Seq<u8>>) -> CallLog<Er> {
    ps.map_values(|p: Seq<u8>| (p, None::<Er>))
}

/// A pending run of bytes as writes: none when it is empty.
pub open spec fn flush(pending: Seq<u8>) -> Seq<Seq<u8>> {
    if pending.len() == 0 {
        seq![]
    } else {
        seq![pending]
    }
}

/// The writes that escaping `s` makes after the bytes `pending`, which are not
/// escaped: each maximal run of bytes that are not escaped in one write, and each
/// escaped byte's escape sequence in a write of its own.
pub open spec fn pieces_from<E: Escapes>(e: E, s: Seq<u8>, pending: Seq<u8>) -> Seq<Seq<u8>>
    decreases s.len(),
{
    if s.len() == 0 {
        flush(pending)
    } else if e.spec_compare(s[0]) {
        flush(pending) + seq![escaped_byte(e, s[0])] + pieces_from(e, s.drop_first(), seq![])
    } else {
        pieces_from(e, s.drop_first(), pending.push(s[0]))
    }
}

/// The writes that escaping `s` makes, in order.
pub open spec fn write_pieces<E: Escapes>(e: E, s: Seq<u8>) -> Seq<Seq<u8>> {
    pieces_from(e, s, seq![])
}

/// Progress of an escaping routine over `s`, as the writes made: the sink has been
/// handed `base` followed by the writes of `s[..written]`, every one successful,
/// and `written` starts the input or follows an escaped byte.
pub open spec fn logged<E: Escapes, Er>(
    e: E,
    s: Seq<u8>,
    written: int,
    base: CallLog<Er>,
    log: CallLog<Er>,
) -> bool {
    &&& 0 <= written <= s.len()
    &&& written == 0 || e.spec_compare(s[written - 1])
    &&& log == base + oks(write_pieces(e, s.take(written)))
}

/// A failed escaping of `s`: the sink was handed `base`, then the first writes of
/// `s`, all successful, then the next write of `s`, which returned `x`; and nothing
/// after it.
pub open spec fn failed<E: Escapes, Er>(
    e: E,
    s: Seq<u8>,
    base: CallLog<Er>,
    log: CallLog<Er>,
    x: Er,
) -> bool {
    exists|k: int|
        0 <= k < write_pieces(e, s).len() && log == (base + oks(write_pieces(e, s).take(k))).push(
            (write_pieces(e, s)[k], Some(x)),
        )
}

/// The writes after the pending bytes `p`, put together, are `p` followed by the
/// escaping of `s`.
proof fn lemma_pieces_from_flatten<E: Escapes>(e: E, s: Seq<u8>, p: Seq<u8>)
    ensures
        pieces_from(e, s, p).flatten() == p + escape_spec(e, s),
    decreases s.len(),
{
    let f = |c: u8| escaped_byte(e, c);
    if s.len() == 0 {
        assert(escape_spec(e, s) =~= Seq::<u8>::empty());
        if p.len() == 0 {
            assert(flush(p).flatten() =~= Seq::<u8>::empty());
        } else {
            seq![p].lemma_flatten_one_element();
        }
        assert(p + Seq::<u8>::empty() =~= p);
    } else {
        let t = s.drop_first();
        assert(escape_spec(e, s) == f(s[0]) + escape_spec(e, t));
        if e.spec_compare(s[0]) {
            lemma_pieces_from_flatten(e, t, seq![]);
            let esc = escaped_byte(e, s[0]);
            vstd::seq_lib::lemma_flatten_concat(flush(p) + seq![esc], pieces_from(e, t, seq![]));
            vstd::seq_lib::lemma_flatten_concat(flush(p), seq![esc]);
            seq![esc].lemma_flatten_one_element();
            if p.len() == 0 {
                assert(flush(p).flatten() =~= Seq::<u8>::empty());
            } else {
                seq![p].lemma_flatten_one_element();
            }
            assert(Seq::<u8>::empty() + escape_spec(e, t) =~= escape_spec(e, t));
            assert(flush(p).flatten() =~= p);
            assert(p + esc + escape_spec(e, t) =~= p + (esc + escape_spec(e, t)));
        } else {
            lemma_pieces_from_flatten(e, t, p.push(s[0]));
            assert(f(s[0]) == seq![s[0]]);
            assert(p.push(s[0]) + escape_spec(e, t) =~= p + (seq![s[0]] + escape_spec(e, t)));
        }
    }
}

/// Law: the writes that escaping makes, put together, are the escaping.
pub proof fn lemma_write_pieces_flatten<E: Escapes>(e: E, s: Seq<u8>)
    ensures
        write_pieces(e, s).flatten() == escape_spec(e, s),
{
    lemma_pieces_from_flatten(e, s, seq![]);
    assert(Seq::<u8>::empty() + escape_spec(e, s) =~= escape_spec(e, s));
}

/// Empty input makes no write.
pub proof fn lemma_pieces_empty<E: Escapes>(e: E, s: Seq<u8>)
    requires
        s.len() == 0,
    ensures
        write_pieces(e, s) == Seq::<Seq<u8>>::empty(),
{
    assert(flush(Seq::<u8>::empty()) =~= Seq::<Seq<u8>>::empty());
}

/// Bytes that are not escaped join the pending run.
pub proof fn lemma_pieces_run<E: Escapes>(e: E, s: Seq<u8>, p: Seq<u8>, j: int)
    requires
        0 <= j <= s.len(),
        forall|k: int| 0 <= k < j ==> !e.spec_compare(#[trigger] s[k]),
    ensures
        pieces_from(e, s, p) == pieces_from(e, s.skip(j), p + s.take(j)),
    decreases j,
{
    if j == 0 {
        assert(s.skip(0) =~= s);
        assert(p + s.take(0) =~= p);
    } else {
        let t = s.drop_first();
        assert forall|k: int| 0 <= k < j - 1 implies !e.spec_compare(#[trigger] t[k]) by {
            assert(t[k] == s[k + 1]);
        }
        lemma_pieces_run(e, t, p.push(s[0]), j - 1);
        assert(t.skip(j - 1) =~= s.skip(j));
        assert(p.push(s[0]) + t.take(j - 1) =~= p + s.take(j));
    }
}

/// The writes of a concatenation whose first part ends with an escaped byte (or is
/// empty, with nothing pending) are those of the parts.
pub proof fn lemma_pieces_concat<E: Escapes>(e: E, a: Seq<u8>, b: Seq<u8>, p: Seq<u8>)
    requires
        (a.len() == 0 && p.len() == 0) || (a.len() > 0 && e.spec_compare(a.last())),
    ensures
        pieces_from(e, a + b, p) == pieces_from(e, a, p) + pieces_from(e, b, seq![]),
    decreases a.len(),
{
    if a.len() == 0 {
        assert(a + b =~= b);
        assert(p =~= Seq::<u8>::empty());
        assert(flush(p) =~= Seq::<Seq<u8>>::empty());
        assert(Seq::<Seq<u8>>::empty() + pieces_from(e, b, seq![]) =~= pieces_from(e, b, seq![]));
    } else {
        let t = a.drop_first();
        assert((a + b).drop_first() =~= t + b);
        assert((a + b)[0] == a[0]);
        if e.spec_compare(a[0]) {
            if t.len() > 0 {
                assert(t.last() == a.last());
            }
            lemma_pieces_concat(e, t, b, seq![]);
            assert(flush(p) + seq![escaped_byte(e, a[0])] + (pieces_from(e, t, seq![])
                + pieces_from(e, b, seq![])) =~= flush(p) + seq![escaped_byte(e, a[0])]
                + pieces_from(e, t, seq![]) + pieces_from(e, b, seq![]));
        } else {
            assert(t.len() > 0);
            assert(t.last() == a.last());
            lemma_pieces_concat(e, t, b, p.push(a[0]));
        }
    }
}

/// The writes of `s` split where `written` follows an escaped byte.
pub proof fn lemma_pieces_split<E: Escapes>(e: E, s: Seq<u8>, w: int)
    requires
        0 <= w <= s.len(),
        w == 0 || e.spec_compare(s[w - 1]),
    ensures
        write_pieces(e, s) == write_pieces(e, s.take(w)) + pieces_from(e, s.skip(w), seq![]),
{
    assert(s =~= s.take(w) + s.skip(w));
    if w > 0 {
        assert(s.take(w).last() == s[w - 1]);
    }
    lemma_pieces_concat(e, s.take(w), s.skip(w), seq![]);
}

/// Where the bytes from `w` up to the escaped byte at `at` are not escaped, the
/// next writes are the run before `at` and `at`'s escape sequence.
pub proof fn lemma_pieces_emit<E: Escapes>(e: E, s: Seq<u8>, w: int, at: int)
    requires
        0 <= w <= at < s.len(),
        w == 0 || e.spec_compare(s[w - 1]),
        forall|k: int| w <= k < at ==> !e.spec_compare(#[trigger] s[k]),
        e.spec_compare(s[at]),
    ensures
        pieces_from(e, s.skip(w), seq![]) == flush(s.subrange(w, at)) + seq![escaped_byte(e, s[at])]
            + pieces_from(e, s.skip(at + 1), seq![]),
        write_pieces(e, s.take(at + 1)) == write_pieces(e, s.take(w)) + flush(s.subrange(w, at))
            + seq![escaped_byte(e, s[at])],
{
    let u = s.skip(w);
    assert forall|k: int| 0 <= k < at - w implies !e.spec_compare(#[trigger] u[k]) by {
        assert(u[k] == s[w + k]);
    }
    lemma_pieces_run(e, u, seq![], at - w);
    let v = u.skip(at - w);
    assert(v =~= s.skip(at));
    assert(Seq::<u8>::empty() + u.take(at - w) =~= s.subrange(w, at));
    assert(v[0] == s[at]);
    assert(v.drop_first() =~= s.skip(at + 1));
    let t = s.take(at + 1);
    assert(t.take(w) =~= s.take(w));
    assert(t[at] == s[at]);
    lemma_pieces_split(e, t, w);
    let tu = t.skip(w);
    assert forall|k: int| 0 <= k < at - w implies !e.spec_compare(#[trigger] tu[k]) by {
        assert(tu[k] == s[w + k]);
    }
    lemma_pieces_run(e, tu, seq![], at - w);
    let tv = tu.skip(at - w);
    assert(tv =~= seq![s[at]]);
    assert(Seq::<u8>::empty() + tu.take(at - w) =~= s.subrange(w, at));
    assert(tv.drop_first() =~= Seq::<u8>::empty());
    assert(pieces_from(e, Seq::<u8>::empty(), seq![]) =~= Seq::<Seq<u8>>::empty());
    assert(flush(s.subrange(w, at)) + seq![escaped_byte(e, s[at])] + Seq::<Seq<u8>>::empty()
        =~= flush(s.subrange(w, at)) + seq![escaped_byte(e, s[at])]);
}

/// Where no byte from `w` on is escaped, the last write is the run from `w`.
pub proof fn lemma_pieces_finish<E: Escapes>(e: E, s: Seq<u8>, w: int)
    requires
        0 <= w <= s.len(),
        forall|k: int| w <= k < s.len() ==> !e.spec_compare(#[trigger] s[k]),
    ensures
        pieces_from(e, s.skip(w), seq![]) == flush(s.subrange(w, s.len() as int)),
{
    let u = s.skip(w);
    assert forall|k: int| 0 <= k < u.len() implies !e.spec_compare(#[trigger] u[k]) by {
        assert(u[k] == s[w + k]);
    }
    lemma_pieces_run(e, u, seq![], u.len() as int);
    assert(u.skip(u.len() as int) =~= Seq::<u8>::empty());
    assert(Seq::<u8>::empty() + u.take(u.len() as int) =~= s.subrange(w, s.len() as int));
}

/// Successful writes extend the log.
pub proof fn lemma_oks_concat<Er>(a: Seq<Seq<u8>>, b: Seq<Seq<u8>>)
    ensures
        oks::<Er>(a + b) == oks::<Er>(a) + oks::<Er>(b),
{
    assert(oks::<Er>(a + b) =~= oks::<Er>(a) + oks::<Er>(b));
}

/// A write that fails after the first writes of `s` makes a failed escaping.
pub proof fn lemma_failed_at<E: Escapes, Er>(
    e: E,
    s: Seq<u8>,
    base: CallLog<Er>,
    done: Seq<Seq<u8>>,
    piece: Seq<u8>,
    rest: Seq<Seq<u8>>,
    x: Er,
)
    requires
        write_pieces(e, s) == done + seq![piece] + rest,
    ensures
        failed(e, s, base, (base + oks(done)).push((piece, Some(x))), x),
{
    let ps = write_pieces(e, s);
    let k = done.len() as int;
    assert(ps.take(k) =~= done);
    assert(ps[k] == piece);
}

/// Writes the bytes pending before `at` and the escape sequence at position `c`.
pub(crate) fn emit<E: Escapes, W: Writer>(
    escapes: &E,
    haystack: &[u8],
    written: usize,
    at: usize,
    c: usize,
    writer: &mut W,
    Ghost(base): Ghost<Seq<u8>>,
    Ghost(log): Ghost<CallLog<W::Error>>,
) -> (r: Result<(), W::Error>)
    requires
        emitted(*escapes, haystack@, written as int, at as int, base, old(writer).written()),
        logged(*escapes, haystack@, written as int, log, old(writer).calls()),
        at < haystack.len(),
        escapes.spec_compare(haystack@[at as int]),
        c == escapes.spec_position(haystack@[at as int]),
        table_wf(*escapes),
    ensures
        r is Ok ==> emitted(*escapes,
            haystack@,
            at + 1,
            at + 1,
            base,
            final(writer).written(),
        ),
        r is Ok ==> logged(*escapes, haystack@, at + 1, log, final(writer).calls()),
        r matches Err(x) ==> failed(*escapes, haystack@, log, final(writer).calls(), x),
        W::infallible() ==> r is Ok,
{
    let ghost e = *escapes;
    let ghost s = haystack@;
    let ghost pend = s.subrange(written as int, at as int);
    let ghost esc = escaped_byte(e, s[at as int]);
    let ghost done = write_pieces(e, s.take(written as int));
    let ghost rest = pieces_from(e, s.skip(at + 1), seq![]);
    proof {
        lemma_emitted_step(*escapes, haystack@, written as int, at as int, base, writer.written());
        lemma_pieces_emit(e, s, written as int, at as int);
        lemma_pieces_split(e, s, written as int);
        assert(write_pieces(e, s) =~= done + flush(pend) + seq![esc] + rest);
    }
    if written < at {
        match write_slice(haystack, written, at, writer) {
            Ok(()) => {
                proof {
                    assert(flush(pend) =~= seq![pend]);
                    lemma_oks_concat::<W::Error>(done, seq![pend]);
                    assert(writer.calls() =~= log + oks(done + flush(pend)));
                }
            },
            Err(x) => {
                proof {
                    assert(write_pieces(e, s) =~= done + seq![pend] + (seq![esc] + rest));
                    lemma_failed_at(e, s, log, done, pend, seq![esc] + rest, x);
                }
                return Err(x);
            },
        }
    } else {
        assert(haystack@.subrange(written as int, at as int) =~= Seq::<u8>::empty());
        assert(writer.written() + haystack@.subrange(written as int, at as int) =~= writer.written());
        assert(flush(pend) =~= Seq::<Seq<u8>>::empty());
        assert(done + flush(pend) =~= done);
    }
    let r = crate::writer::write(escapes.escape(c), writer);
    proof {
        if r is Ok {
            lemma_oks_concat::<W::Error>(done + flush(pend), seq![esc]);
            assert(writer.calls() =~= log + oks(done + flush(pend) + seq![esc]));
        } else {
            lemma_failed_at(e, s, log, done + flush(pend), esc, rest, r->Err_0);
        }
    }
    r
}

/// Writes the bytes left after `written`, completing the escaping of `haystack`.
pub(crate) fn finish<E: Escapes, W: Writer>(
    escapes: &E,
    haystack: &[u8],
    written: usize,
    writer: &mut W,
    Ghost(base): Ghost<Seq<u8>>,
    Ghost(log): Ghost<CallLog<W::Error>>,
) -> (r: Result<(), W::Error>)
    requires
        emitted(*escapes, haystack@, written as int, haystack@.len() as int, base, old(writer).written()),
        logged(*escapes, haystack@, written as int, log, old(writer).calls()),
    ensures
        r is Ok ==> final(writer).written() == base + escape_spec(*escapes, haystack@),
        r is Ok ==> final(writer).calls() == log + oks(write_pieces(*escapes, haystack@)),
        r matches Err(x) ==> failed(*escapes, haystack@, log, final(writer).calls(), x),
        W::infallible() ==> r is Ok,
{
    let ghost e = *escapes;
    let ghost s = haystack@;
    let ghost done = write_pieces(e, s.take(written as int));
    let ghost tail = s.subrange(written as int, s.len() as int);
    proof {
        lemma_emitted_finish(*escapes, haystack@, written as int, base, writer.written());
        lemma_pieces_split(e, s, written as int);
        lemma_pieces_finish(e, s, written as int);
    }
    if written < haystack.len() {
        let r = write_slice(haystack, written, haystack.len(), writer);
        proof {
            assert(flush(tail) =~= seq![tail]);
            if r is Ok {
                lemma_oks_concat::<W::Error>(done, seq![tail]);
                assert(writer.calls() =~= log + oks(done + seq![tail]));
            } else {
                assert(write_pieces(e, s) =~= done + seq![tail] + Seq::<Seq<u8>>::empty());
                lemma_failed_at(e, s, log, done, tail, Seq::<Seq<u8>>::empty(), r->Err_0);
            }
        }
        r
    } else {
        assert(haystack@.subrange(written as int, haystack@.len() as int) =~= Seq::<u8>::empty());
        assert(writer.written() + Seq::<u8>::empty() =~= writer.written());
        assert(flush(tail) =~= Seq::<Seq<u8>>::empty());
        assert(s.take(written as int) =~= s);
        Ok(())
    }
}

} // verus!
