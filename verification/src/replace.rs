//! Byte-wise replacement: the mathematical model of every escaping routine
//! of this crate, with its algebraic and UTF-8 laws.
use vstd::prelude::*;

verus! {

/// The bytes obtained from `s` by replacing each byte `b`, in order, with `f(b)`.
pub open spec fn replace_bytes(s: Seq<u8>, f: spec_fn(u8) -> Seq<u8>) -> Seq<u8>
    decreases s.len(),
{
    if s.len() == 0 {
        seq![]
    } else {
        f(s[0]) + replace_bytes(s.drop_first(), f)
    }
}

/// Replacement distributes over concatenation.
pub proof fn lemma_replace_concat(a: Seq<u8>, b: Seq<u8>, f: spec_fn(u8) -> Seq<u8>)
    ensures
        replace_bytes(a + b, f) == replace_bytes(a, f) + replace_bytes(b, f),
    decreases a.len(),
{
    if a.len() == 0 {
        assert(a + b =~= b);
        assert(replace_bytes(a, f) + replace_bytes(b, f) =~= replace_bytes(b, f));
    } else {
        assert((a + b).drop_first() =~= a.drop_first() + b);
        lemma_replace_concat(a.drop_first(), b, f);
        assert(f(a[0]) + (replace_bytes(a.drop_first(), f) + replace_bytes(b, f)) =~= (f(a[0])
            + replace_bytes(a.drop_first(), f)) + replace_bytes(b, f));
    }
}

/// Replacing a single byte gives its image.
pub proof fn lemma_replace_single(c: u8, f: spec_fn(u8) -> Seq<u8>)
    ensures
        replace_bytes(seq![c], f) == f(c),
{
    assert(seq![c].drop_first() =~= Seq::<u8>::empty());
    assert(replace_bytes(Seq::<u8>::empty(), f) == Seq::<u8>::empty());
    assert(f(c) + Seq::<u8>::empty() =~= f(c));
}

/// Extending a prefix by one byte appends that byte's image.
pub proof fn lemma_replace_take(s: Seq<u8>, i: int, f: spec_fn(u8) -> Seq<u8>)
    requires
        0 <= i < s.len(),
    ensures
        replace_bytes(s.take(i + 1), f) == replace_bytes(s.take(i), f) + f(s[i]),
{
    assert(s.take(i + 1) =~= s.take(i) + seq![s[i]]);
    lemma_replace_concat(s.take(i), seq![s[i]], f);
    lemma_replace_single(s[i], f);
}

/// Bytes that are their own image are left in place.
pub proof fn lemma_replace_identity(s: Seq<u8>, f: spec_fn(u8) -> Seq<u8>)
    requires
        forall|i: int| 0 <= i < s.len() ==> f(#[trigger] s[i]) == seq![s[i]],
    ensures
        replace_bytes(s, f) == s,
    decreases s.len(),
{
    if s.len() > 0 {
        assert forall|i: int| 0 <= i < s.drop_first().len() implies f(
            #[trigger] s.drop_first()[i],
        ) == seq![s.drop_first()[i]] by {
            assert(s.drop_first()[i] == s[i + 1]);
        }
        lemma_replace_identity(s.drop_first(), f);
        assert(f(s[0]) == seq![s[0]]);
        assert(seq![s[0]] + s.drop_first() =~= s);
    }
}

/// A prefix of a prefix.
pub proof fn lemma_replace_range(s: Seq<u8>, a: int, b: int, f: spec_fn(u8) -> Seq<u8>)
    requires
        0 <= a <= b <= s.len(),
    ensures
        replace_bytes(s.take(b), f) == replace_bytes(s.take(a), f) + replace_bytes(
            s.subrange(a, b),
            f,
        ),
{
    assert(s.take(b) =~= s.take(a) + s.subrange(a, b));
    lemma_replace_concat(s.take(a), s.subrange(a, b), f);
}

/// A replacement that keeps every non-ASCII byte and maps every ASCII byte to
/// valid UTF-8 keeps UTF-8 text valid.
pub proof fn lemma_replace_valid_utf8(s: Seq<u8>, f: spec_fn(u8) -> Seq<u8>)
    requires
        vstd::utf8::valid_utf8(s),
        forall|b: u8| b >= 128 ==> #[trigger] f(b) == seq![b],
        forall|b: u8| b < 128 ==> vstd::utf8::valid_utf8(#[trigger] f(b)),
    ensures
        vstd::utf8::valid_utf8(replace_bytes(s, f)),
    decreases s.len(),
{
    if s.len() > 0 {
        let w = vstd::utf8::length_of_first_scalar(s);
        let head = s.take(w);
        let rest = vstd::utf8::pop_first_scalar(s);
        assert(s =~= head + rest);
        assert(rest.len() < s.len());
        lemma_replace_valid_utf8(rest, f);
        lemma_replace_concat(head, rest, f);
        let r = replace_bytes(rest, f);
        if w == 1 {
            lemma_replace_single(s[0], f);
            assert(head =~= seq![s[0]]);
            vstd::utf8::valid_utf8_concat(f(s[0]), r);
        } else {
            assert forall|i: int| 0 <= i < head.len() implies f(#[trigger] head[i]) == seq![
                head[i],
            ] by {
                assert(head[i] >= 128);
            }
            lemma_replace_identity(head, f);
            let t = head + r;
            assert(t[0] == s[0]);
            assert(t[1] == s[1]);
            assert(w >= 3 ==> t[2] == s[2]);
            assert(w >= 4 ==> t[3] == s[3]);
            assert(vstd::utf8::valid_first_scalar(t));
            assert(vstd::utf8::pop_first_scalar(t) =~= r);
        }
    }
}

/// Decoding distributes over the concatenation of valid UTF-8 sequences.
pub proof fn lemma_decode_concat(a: Seq<u8>, b: Seq<u8>)
    requires
        vstd::utf8::valid_utf8(a),
        vstd::utf8::valid_utf8(b),
    ensures
        vstd::utf8::valid_utf8(a + b),
        vstd::utf8::decode_utf8(a + b) == vstd::utf8::decode_utf8(a) + vstd::utf8::decode_utf8(b),
    decreases a.len(),
{
    vstd::utf8::valid_utf8_concat(a, b);
    if a.len() == 0 {
        assert(a + b =~= b);
        assert(vstd::utf8::decode_utf8(a) == Seq::<char>::empty());
        assert(Seq::<char>::empty() + vstd::utf8::decode_utf8(b) =~= vstd::utf8::decode_utf8(b));
    } else {
        let w = vstd::utf8::length_of_first_scalar(a);
        let rest = vstd::utf8::pop_first_scalar(a);
        let t = a + b;
        assert(t[0] == a[0]);
        assert(w >= 2 ==> t[1] == a[1]);
        assert(w >= 3 ==> t[2] == a[2]);
        assert(w >= 4 ==> t[3] == a[3]);
        assert(vstd::utf8::pop_first_scalar(t) =~= rest + b);
        lemma_decode_concat(rest, b);
        assert(vstd::utf8::decode_utf8(t) =~= vstd::utf8::decode_utf8(a) + vstd::utf8::decode_utf8(
            b,
        ));
    }
}

/// The characters obtained from `cs` by replacing each ASCII character `c` with the
/// text of `f(c)`; other characters are kept.
pub open spec fn replace_chars(cs: Seq<char>, f: spec_fn(u8) -> Seq<u8>) -> Seq<char>
    decreases cs.len(),
{
    if cs.len() == 0 {
        seq![]
    } else {
        (if (cs[0] as u32) < 128 {
            vstd::utf8::decode_utf8(f(cs[0] as u8))
        } else {
            seq![cs[0]]
        }) + replace_chars(cs.drop_first(), f)
    }
}

/// The UTF-8 encoding of a single character.
pub proof fn lemma_encode_single(c: char)
    ensures
        vstd::utf8::encode_utf8(seq![c]) == vstd::utf8::encode_scalar(c as u32),
        (c as u32) < 128 ==> vstd::utf8::encode_utf8(seq![c]) == seq![c as u8],
        (c as u32) >= 128 ==> forall|i: int|
            0 <= i < vstd::utf8::encode_utf8(seq![c]).len() ==> #[trigger] vstd::utf8::encode_utf8(
                seq![c],
            )[i] >= 128,
        vstd::utf8::decode_utf8(vstd::utf8::encode_utf8(seq![c])) == seq![c],
        vstd::utf8::valid_utf8(vstd::utf8::encode_utf8(seq![c])),
{
    let cs = seq![c];
    assert(cs.drop_first() =~= Seq::<char>::empty());
    assert(vstd::utf8::encode_utf8(Seq::<char>::empty()) == Seq::<u8>::empty());
    assert(vstd::utf8::encode_scalar(c as u32) + Seq::<u8>::empty() =~= vstd::utf8::encode_scalar(
        c as u32,
    ));
    vstd::utf8::encode_utf8_decode_utf8(cs);
    vstd::utf8::encode_utf8_valid_utf8(cs);
    if (c as u32) < 128 {
        assert(vstd::utf8::is_ascii_chars(cs));
        vstd::utf8::is_ascii_chars_encode_utf8(cs);
        assert(vstd::utf8::encode_utf8(cs) =~= seq![c as u8]);
    } else {
        let v = c as u32;
        vstd::utf8::char_is_scalar(c);
        assert(vstd::utf8::leading_byte_width_2(v) >= 128 && vstd::utf8::leading_byte_width_3(v)
            >= 128 && vstd::utf8::leading_byte_width_4(v) >= 128
            && vstd::utf8::last_continuation_byte(v) >= 128
            && vstd::utf8::second_last_continuation_byte(v) >= 128
            && vstd::utf8::third_last_continuation_byte(v) >= 128) by (bit_vector)
            requires
                v >= 128,
                v <= 0x10ffff,
        ;
    }
}

/// Law: on UTF-8 text, a byte replacement that keeps non-ASCII bytes and maps ASCII
/// bytes to text replaces ASCII characters and keeps every other character.
pub proof fn lemma_replace_text(cs: Seq<char>, f: spec_fn(u8) -> Seq<u8>)
    requires
        forall|b: u8| b >= 128 ==> #[trigger] f(b) == seq![b],
        forall|b: u8| b < 128 ==> vstd::utf8::valid_utf8(#[trigger] f(b)),
    ensures
        vstd::utf8::decode_utf8(replace_bytes(vstd::utf8::encode_utf8(cs), f)) == replace_chars(
            cs,
            f,
        ),
    decreases cs.len(),
{
    if cs.len() > 0 {
        let c = cs[0];
        let rest = cs.drop_first();
        let head = vstd::utf8::encode_utf8(seq![c]);
        let tail = vstd::utf8::encode_utf8(rest);
        lemma_encode_single(c);
        assert(vstd::utf8::encode_utf8(cs) == head + tail);
        lemma_replace_concat(head, tail, f);
        lemma_replace_text(rest, f);
        vstd::utf8::encode_utf8_valid_utf8(rest);
        lemma_replace_valid_utf8(tail, f);
        let rh = replace_bytes(head, f);
        if (c as u32) < 128 {
            lemma_replace_single(c as u8, f);
            assert(rh == f(c as u8));
        } else {
            assert forall|i: int| 0 <= i < head.len() implies f(#[trigger] head[i]) == seq![
                head[i],
            ] by {
                assert(head[i] >= 128);
            }
            lemma_replace_identity(head, f);
        }
        lemma_decode_concat(rh, replace_bytes(tail, f));
    }
}

} // verus!
