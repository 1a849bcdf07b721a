//! HTML escaping: `<`, `>`, `&`, `"`, `'` and `/` become character references.
use vstd::prelude::*;

use crate::builder::str_from_utf8;
use crate::codegen_base::switch::Switch;
use crate::escapes::{
    byte_byte_escape_raw, escape_spec, failed, lemma_escape_valid_utf8, masking_wf, oks, write_pieces,
    Escapes, EscapesBuilder,
};
use crate::writer::{Writer, WriterVec};

pub mod avx;
pub mod sse;

verus! {

/// The HTML escape table.
#[derive(Debug, Clone, Copy)]
pub struct HtmlEscapes;

/// The position of byte `c` in the HTML table, 6 when it is not escaped.
pub open spec fn html_position(c: u8) -> int {
    if c == 60 {
        0
    } else if c == 62 {
        1
    } else if c == 38 {
        2
    } else if c == 34 {
        3
    } else if c == 39 {
        4
    } else if c == 47 {
        5
    } else {
        6
    }
}

/// The mask of the HTML table: the ranges `"`..=`'` and `<`..=`>`, and `/`.
pub open spec fn html_switch() -> Switch {
    Switch::ArBrC { la: 34, ra: 39, lb: 60, rb: 62, c: 47 }
}

/// The position of byte `c` in the HTML table, 6 when it is not escaped.
pub fn table(c: u8) -> (r: u8)
    ensures
        r == html_position(c),
{
    if c == 60 {
        0
    } else if c == 62 {
        1
    } else if c == 38 {
        2
    } else if c == 34 {
        3
    } else if c == 39 {
        4
    } else if c == 47 {
        5
    } else {
        6
    }
}

/// The number of escape sequences of the HTML table.
pub const QUOTES_LEN: usize = 6;

impl Escapes for HtmlEscapes {
    open spec fn spec_escape_len(&self) -> int {
        6
    }

    open spec fn spec_false_positive(&self) -> bool {
        true
    }

    open spec fn spec_masking(&self, c: u8) -> bool {
        html_switch().contains(c as int)
    }

    open spec fn spec_escape(&self, i: int) -> Seq<char> {
        if i == 0 {
            "&lt;"@
        } else if i == 1 {
            "&gt;"@
        } else if i == 2 {
            "&amp;"@
        } else if i == 3 {
            "&quot;"@
        } else if i == 4 {
            "&#x27;"@
        } else {
            "&#x2f;"@
        }
    }

    open spec fn spec_position(&self, c: u8) -> int {
        html_position(c)
    }

    open spec fn spec_compare(&self, c: u8) -> bool {
        html_position(c) < 6
    }

    fn escape_len(&self) -> (r: usize) {
        QUOTES_LEN
    }

    fn false_positive(&self) -> (r: bool) {
        true
    }

    fn masking(&self, c: u8) -> (r: bool) {
        let switch = Switch::ArBrC { la: 34, ra: 39, lb: 60, rb: 62, c: 47 };
        switch.lane(c)
    }

    fn escape(&self, c: usize) -> (r: &str) {
        match c {
            0 => "&lt;",
            1 => "&gt;",
            2 => "&amp;",
            3 => "&quot;",
            4 => "&#x27;",
            _ => "&#x2f;",
        }
    }

    fn position(&self, c: u8) -> (r: usize) {
        table(c) as usize
    }

    fn byte_byte_compare(&self, c: u8) -> (r: bool) {
        (table(c) as usize) < QUOTES_LEN
    }
}

/// The HTML table's mask, filtered by position, selects exactly the escaped bytes.
pub proof fn lemma_html_wf()
    ensures
        masking_wf(HtmlEscapes),
{
}

/// Builds the HTML escapes.
pub struct HtmlBuilder;

impl EscapesBuilder for HtmlBuilder {
    type Escapes = HtmlEscapes;

    open spec fn spec_new() -> HtmlEscapes {
        HtmlEscapes
    }

    fn new() -> (r: HtmlEscapes) {
        HtmlEscapes
    }
}

/// The HTML escaping of `bytes`.
pub open spec fn html_escape(bytes: Seq<u8>) -> Seq<u8> {
    escape_spec(HtmlEscapes, bytes)
}

/// Scalar HTML escape.
pub fn escape<W: Writer>(bytes: &[u8], writer: &mut W) -> (r: Result<(), W::Error>)
    ensures
        r is Ok ==> final(writer).written() == old(writer).written() + html_escape(bytes@),
        r is Ok ==> final(writer).calls() == old(writer).calls() + oks(
            write_pieces(HtmlEscapes, bytes@),
        ),
        r matches Err(x) ==> failed(HtmlEscapes, bytes@, old(writer).calls(), final(writer).calls(), x),
        W::infallible() ==> r is Ok,
{
    let escapes = HtmlBuilder::new();
    byte_byte_escape_raw(&escapes, bytes, writer)
}

/// Length of slice after escape.
pub fn size(bytes: &[u8]) -> (r: usize)
    requires
        html_escape(bytes@).len() <= usize::MAX,
    ensures
        r == html_escape(bytes@).len(),
{
    let e = HtmlBuilder::new();
    let mut acc: usize = 0;
    let mut i: usize = 0;
    assert(bytes@.take(0) =~= Seq::<u8>::empty());
    while i < bytes.len()
        invariant
            i <= bytes@.len(),
            html_escape(bytes@).len() <= usize::MAX,
            acc == html_escape(bytes@.take(i as int)).len(),
        decreases bytes@.len() - i,
    {
        proof {
            crate::escapes::lemma_escape_take(HtmlEscapes, bytes@, i as int);
        }
        let b = bytes[i];
        let c = table(b) as usize;
        if c < QUOTES_LEN {
            acc = acc + e.escape(c).len();
        } else {
            acc = acc + 1;
        }
        i = i + 1;
    }
    assert(bytes@.take(i as int) =~= bytes@);
    acc
}

/// Html escape formatter.
pub struct Escape<'a> {
    bytes: &'a [u8],
}

impl<'a> Escape<'a> {
    /// The bytes to escape.
    pub closed spec fn bytes(&self) -> Seq<u8> {
        self.bytes@
    }

    /// A formatter that escapes `s`.
    pub fn new(s: &'a [u8]) -> (r: Escape<'a>)
        ensures
            r.bytes() == s@,
    {
        Escape { bytes: s }
    }

    /// Length of the escaped bytes.
    pub fn size(&self) -> (r: usize)
        requires
            html_escape(self.bytes()).len() <= usize::MAX,
        ensures
            r == html_escape(self.bytes()).len(),
    {
        avx::size(self.bytes)
    }

    /// The escaped text.
    pub fn to_string(&self) -> (r: String)
        requires
            vstd::utf8::valid_utf8(self.bytes()),
        ensures
            r@ == vstd::utf8::decode_utf8(html_escape(self.bytes())),
    {
        let mut writer = WriterVec::new(Vec::new());
        let _ = avx::escape(self.bytes, &mut writer);
        let out = writer.into_inner();
        proof {
            lemma_escape_valid_utf8(HtmlEscapes, self.bytes@);
        }
        match str_from_utf8(out.as_slice()) {
            Some(text) => {
                proof {
                    vstd::utf8::encode_utf8_decode_utf8(text@);
                }
                text.to_owned()
            },
            None => String::new(),
        }
    }
}

/// How many bytes of `s` are `b`.
pub open spec fn count_byte(s: Seq<u8>, b: u8) -> nat
    decreases s.len(),
{
    if s.len() == 0 {
        0
    } else {
        (if s[0] == b {
            1nat
        } else {
            0nat
        }) + count_byte(s.drop_first(), b)
    }
}

/// How many bytes longer than `c` itself the escaping of `c` is.
pub open spec fn html_extra(c: u8) -> nat {
    if c == 60 || c == 62 {
        3
    } else if c == 38 {
        4
    } else if c == 34 || c == 39 || c == 47 {
        5
    } else {
        0
    }
}

/// The length of the escaping of each byte.
proof fn lemma_html_byte_len(c: u8)
    ensures
        crate::escapes::escaped_byte(HtmlEscapes, c).len() == 1 + html_extra(c),
{
    reveal_strlit("&lt;");
    reveal_strlit("&gt;");
    reveal_strlit("&amp;");
    reveal_strlit("&quot;");
    reveal_strlit("&#x27;");
    reveal_strlit("&#x2f;");
    let e = HtmlEscapes;
    if e.spec_compare(c) {
        let t = e.spec_escape(e.spec_position(c));
        assert(vstd::utf8::is_ascii_chars(t));
        vstd::utf8::is_ascii_chars_encode_utf8(t);
    }
}

/// The length of the HTML escaping, byte by byte.
proof fn lemma_html_len_sum(s: Seq<u8>)
    ensures
        html_escape(s).len() == s.len() + 3 * count_byte(s, 60) + 3 * count_byte(s, 62) + 4
            * count_byte(s, 38) + 5 * count_byte(s, 34) + 5 * count_byte(s, 39) + 5 * count_byte(
            s,
            47,
        ),
    decreases s.len(),
{
    if s.len() > 0 {
        lemma_html_len_sum(s.drop_first());
        lemma_html_byte_len(s[0]);
    }
}

/// Law: the size of the HTML escaping is the length of the input plus 3 for each
/// `<` and `>`, 4 for each `&`, and 5 for each `"`, `'` and `/`.
pub proof fn lemma_html_size_count(s: Seq<u8>)
    ensures
        html_escape(s).len() == s.len() + 3 * count_byte(s, 60) + 3 * count_byte(s, 62) + 4
            * count_byte(s, 38) + 5 * count_byte(s, 34) + 5 * count_byte(s, 39) + 5 * count_byte(
            s,
            47,
        ),
{
    lemma_html_len_sum(s);
}

/// Law: the size of a concatenation is the sum of the sizes.
pub proof fn lemma_html_size_concat(a: Seq<u8>, b: Seq<u8>)
    ensures
        html_escape(a + b).len() == html_escape(a).len() + html_escape(b).len(),
{
    crate::escapes::lemma_escape_concat(HtmlEscapes, a, b);
}

/// `s` repeated `n` times.
pub open spec fn repeat_bytes(s: Seq<u8>, n: nat) -> Seq<u8>
    decreases n,
{
    if n == 0 {
        seq![]
    } else {
        repeat_bytes(s, (n - 1) as nat) + s
    }
}

/// Law: the size of `n` copies of the input is `n` times its size.
pub proof fn lemma_html_size_repeat(s: Seq<u8>, n: nat)
    ensures
        html_escape(repeat_bytes(s, n)).len() == n * html_escape(s).len(),
    decreases n,
{
    let k = html_escape(s).len();
    if n == 0 {
        assert(repeat_bytes(s, n) =~= Seq::<u8>::empty());
        assert(html_escape(repeat_bytes(s, n)).len() == 0);
        assert(n * k == 0) by (nonlinear_arith)
            requires
                n == 0,
        ;
    } else {
        let m = (n - 1) as nat;
        lemma_html_size_repeat(s, m);
        lemma_html_size_concat(repeat_bytes(s, m), s);
        assert(repeat_bytes(s, n) == repeat_bytes(s, m) + s);
        assert(n * k == m * k + k) by (nonlinear_arith)
            requires
                m == n - 1,
        ;
    }
}

/// Law: the escaping is never shorter than the input, and has its length exactly
/// when no byte is escaped.
pub proof fn lemma_html_size_lower(s: Seq<u8>)
    ensures
        html_escape(s).len() >= s.len(),
        html_escape(s).len() == s.len() <==> forall|i: int| 0 <= i < s.len() ==> html_extra(#[trigger] s[i]) == 0,
    decreases s.len(),
{
    if s.len() > 0 {
        lemma_html_size_lower(s.drop_first());
        lemma_html_byte_len(s[0]);
        if forall|i: int| 0 <= i < s.len() ==> html_extra(#[trigger] s[i]) == 0 {
            assert forall|i: int| 0 <= i < s.drop_first().len() implies html_extra(
                #[trigger] s.drop_first()[i],
            ) == 0 by {
                assert(s.drop_first()[i] == s[i + 1]);
            }
            assert(html_extra(s[0]) == 0);
        } else if html_extra(s[0]) == 0 {
            let i = choose|i: int| 0 <= i < s.len() && html_extra(#[trigger] s[i]) != 0;
            assert(s.drop_first()[i - 1] == s[i]);
        }
    }
}

} // verus!
