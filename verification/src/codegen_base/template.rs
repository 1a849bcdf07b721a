//! The grammar of a template: `name!(lit -> "quote", ...);`, read from the
//! template's tokens into the pairs of an escape table.
use vstd::prelude::*;

use vstd::string::StrSliceExecFns;

use crate::codegen_base::generator::{
    find_repeated, lemma_with_byte_push, sort_pairs, sorted_by_ch, with_byte, Ch,
};
use crate::codegen_base::pairs::Pair;

verus! {

/// How a group of tokens is delimited.
#[derive(Debug, Clone, Copy, PartialEq, Eq, Structural)]
pub enum Delimiter {
    Parenthesis,
    Brace,
    Bracket,
    Invisible,
}

/// A literal token of a template, with the value the tokenizer reads from it.
#[derive(Debug)]
pub enum TemplateLit {
    /// A byte literal such as `b'<'`.
    Byte(u8),
    /// A character literal such as `'<'`.
    Char(char),
    /// An integer literal, by the decimal digits of its value.
    Int(String),
    /// A floating-point literal.
    Float,
    /// A string literal such as `"&lt;"`, by its value.
    Str(String),
    /// Any other literal: byte strings and C strings.
    Other,
}

/// A token of a template.
#[derive(Debug)]
pub enum TemplateToken {
    /// An identifier or keyword.
    Ident(String),
    /// A punctuation character, and whether it is joined to the next one.
    Punct(char, bool),
    /// A literal.
    Literal(TemplateLit),
    /// A delimited group of tokens.
    Group(Delimiter, Vec<TemplateToken>),
}

/// Why a template is refused.
#[derive(Debug)]
pub enum TemplateError {
    /// It does not start with an identifier (a keyword is no identifier).
    ExpectedIdent,
    /// The identifier is not followed by `!`.
    ExpectedBang,
    /// The `!` is not followed by a parenthesized group.
    ExpectedParentheses,
    /// A pair does not start with a literal.
    ExpectedLiteral,
    /// The literal of a pair is not an ASCII value.
    NotAscii,
    /// The literal of a pair is not followed by `->`.
    ExpectedArrow,
    /// The `->` of a pair is not followed by a string literal.
    ExpectedString,
    /// The group is not followed by `;`.
    ExpectedSemicolon,
    /// Tokens are left after the last pair or after the `;`.
    UnexpectedToken,
    /// Two pairs escape the same byte.
    Repeated(Pair, Pair),
}

/// The words that are not identifiers.
pub open spec fn keyword(s: Seq<char>) -> bool {
    ||| s == "_"@ || s == "abstract"@ || s == "as"@ || s == "async"@ || s == "await"@
    ||| s == "become"@ || s == "box"@ || s == "break"@ || s == "const"@ || s == "continue"@
    ||| s == "crate"@ || s == "do"@ || s == "dyn"@ || s == "else"@ || s == "enum"@
    ||| s == "extern"@ || s == "false"@ || s == "final"@ || s == "fn"@ || s == "for"@
    ||| s == "if"@ || s == "impl"@ || s == "in"@ || s == "let"@ || s == "loop"@
    ||| s == "macro"@ || s == "match"@ || s == "mod"@ || s == "move"@ || s == "mut"@
    ||| s == "override"@ || s == "priv"@ || s == "pub"@ || s == "ref"@ || s == "return"@
    ||| s == "Self"@ || s == "self"@ || s == "static"@ || s == "struct"@ || s == "super"@
    ||| s == "trait"@ || s == "true"@ || s == "try"@ || s == "type"@ || s == "typeof"@
    ||| s == "unsafe"@ || s == "unsized"@ || s == "use"@ || s == "virtual"@ || s == "where"@
    ||| s == "while"@ || s == "yield"@
}

/// The character is a decimal digit.
pub open spec fn is_digit(c: char) -> bool {
    48 <= (c as u32) <= 57
}

/// Every character is a decimal digit.
pub open spec fn all_digits(d: Seq<char>) -> bool {
    forall|i: int| 0 <= i < d.len() ==> is_digit(#[trigger] d[i])
}

/// The value of a string of decimal digits.
pub open spec fn decimal_value(d: Seq<char>) -> int
    decreases d.len(),
{
    if d.len() == 0 {
        0
    } else {
        decimal_value(d.drop_last()) * 10 + ((d.last() as u32) - 48)
    }
}

/// The `i8` that the digits `d`, negated when `negative`, denote, if any.
pub open spec fn decimal_i8(d: Seq<char>, negative: bool) -> Option<int> {
    if d.len() > 0 && all_digits(d) && decimal_value(d) <= (if negative {
        128int
    } else {
        127int
    }) {
        Some(
            if negative {
                -decimal_value(d)
            } else {
                decimal_value(d)
            },
        )
    } else {
        None
    }
}

/// A byte of a pair, accepted when it is an ASCII value.
pub open spec fn accept_byte(v: int) -> Result<u8, TemplateError> {
    if 0 <= v < 128 {
        Ok(v as u8)
    } else {
        Err(TemplateError::NotAscii)
    }
}

/// The byte that a literal denotes, negated when `negative`.
pub open spec fn lit_byte(l: TemplateLit, negative: bool) -> Result<u8, TemplateError> {
    match l {
        TemplateLit::Byte(v) => accept_byte(v as int),
        TemplateLit::Char(c) => accept_byte((c as u32) as int),
        TemplateLit::Int(d) => match decimal_i8(d@, negative) {
            Some(n) => accept_byte(if n < 0 {
                n + 256
            } else {
                n
            }),
            None => Err(TemplateError::NotAscii),
        },
        _ => Err(TemplateError::NotAscii),
    }
}

/// The byte of the pair that starts at token `i`, and the token after it.
pub open spec fn ch_at(toks: Seq<TemplateToken>, i: int) -> Result<(u8, int), TemplateError> {
    if i < 0 || i >= toks.len() {
        Err(TemplateError::ExpectedLiteral)
    } else {
        match toks[i] {
            TemplateToken::Literal(l) => match lit_byte(l, false) {
                Ok(b) => Ok((b, i + 1)),
                Err(e) => Err(e),
            },
            TemplateToken::Ident(n) => if n@ == "true"@ || n@ == "false"@ {
                Err(TemplateError::NotAscii)
            } else {
                Err(TemplateError::ExpectedLiteral)
            },
            TemplateToken::Punct(c, _) => if c == '-' && i + 1 < toks.len() && (toks[i
                + 1] matches TemplateToken::Literal(l) && (l is Int || l is Float)) {
                match toks[i + 1] {
                    TemplateToken::Literal(l) => match lit_byte(l, true) {
                        Ok(b) => Ok((b, i + 2)),
                        Err(e) => Err(e),
                    },
                    _ => Err(TemplateError::ExpectedLiteral),
                }
            } else {
                Err(TemplateError::ExpectedLiteral)
            },
            TemplateToken::Group(_, _) => Err(TemplateError::ExpectedLiteral),
        }
    }
}

/// The token is the punctuation character `ch`.
pub open spec fn is_punct(t: TemplateToken, ch: char) -> bool {
    t matches TemplateToken::Punct(c, _) && c == ch
}

/// The token is an identifier, not a keyword.
pub open spec fn is_name(t: TemplateToken) -> bool {
    t matches TemplateToken::Ident(n) && !keyword(n@)
}

/// Tokens `j` and `j + 1` form `->`.
pub open spec fn arrow_at(toks: Seq<TemplateToken>, j: int) -> bool {
    &&& 0 <= j
    &&& j + 1 < toks.len()
    &&& toks[j] == TemplateToken::Punct('-', true)
    &&& is_punct(toks[j + 1], '>')
}

/// The pair that starts at token `i`, and the token after it.
pub open spec fn pair_at(toks: Seq<TemplateToken>, i: int) -> Result<(u8, Seq<char>, int), TemplateError> {
    match ch_at(toks, i) {
        Err(e) => Err(e),
        Ok((b, j)) => if !arrow_at(toks, j) {
            Err(TemplateError::ExpectedArrow)
        } else if j + 2 < toks.len() && toks[j + 2] matches TemplateToken::Literal(
            TemplateLit::Str(_),
        ) {
            match toks[j + 2] {
                TemplateToken::Literal(TemplateLit::Str(s)) => Ok((b, s@, j + 3)),
                _ => Err(TemplateError::ExpectedString),
            }
        } else {
            Err(TemplateError::ExpectedString)
        },
    }
}

/// A pair takes at least three tokens.
pub proof fn lemma_pair_at_advances(toks: Seq<TemplateToken>, i: int)
    ensures
        pair_at(toks, i) matches Ok((_, _, j)) ==> i + 3 <= j <= toks.len(),
{
}

/// The comma-separated pairs that start at token `i`, and the token after them.
pub open spec fn list_at(toks: Seq<TemplateToken>, i: int) -> Result<(Seq<(u8, Seq<char>)>, int), TemplateError>
    decreases toks.len() - i,
{
    match pair_at(toks, i) {
        Err(e) => Err(e),
        Ok((b, s, j)) => {
            proof {
                lemma_pair_at_advances(toks, i);
            }
            if j < toks.len() && is_punct(toks[j], ',') {
                match list_at(toks, j + 1) {
                    Err(e) => Err(e),
                    Ok((rest, k)) => Ok((seq![(b, s)] + rest, k)),
                }
            } else {
                Ok((seq![(b, s)], j))
            }
        },
    }
}

/// The pairs of a template, in the order they are written, or why it is refused.
pub open spec fn template_pairs(toks: Seq<TemplateToken>) -> Result<Seq<(u8, Seq<char>)>, TemplateError> {
    if !(toks.len() >= 1 && is_name(toks[0])) {
        Err(TemplateError::ExpectedIdent)
    } else if !(toks.len() >= 2 && is_punct(toks[1], '!')) {
        Err(TemplateError::ExpectedBang)
    } else if !(toks.len() >= 3 && toks[2] matches TemplateToken::Group(
        Delimiter::Parenthesis,
        _,
    )) {
        Err(TemplateError::ExpectedParentheses)
    } else {
        let inner = toks[2]->Group_1;
        match list_at(inner@, 0) {
            Err(e) => Err(e),
            Ok((ps, k)) => if !(toks.len() >= 4 && is_punct(toks[3], ';')) {
                Err(TemplateError::ExpectedSemicolon)
            } else if k < inner@.len() || toks.len() > 4 {
                Err(TemplateError::UnexpectedToken)
            } else {
                Ok(ps)
            },
        }
    }
}

/// A pair as its byte and the text of its escape sequence.
pub open spec fn pair_view(p: Pair) -> (u8, Seq<char>) {
    (p.ch, p.quote@)
}

/// The pairs, each as its byte and the text of its escape sequence.
pub open spec fn pair_views(ps: Seq<Pair>) -> Seq<(u8, Seq<char>)> {
    ps.map_values(|p: Pair| pair_view(p))
}

/// No two pairs escape the same byte.
pub open spec fn distinct_bytes(ps: Seq<(u8, Seq<char>)>) -> bool {
    forall|a: int, b: int| 0 <= a < b < ps.len() ==> ps[a].0 != ps[b].0
}

/// Pairs `a` and `b` are the first two pairs of their byte, and no smaller byte
/// is escaped by two pairs.
pub open spec fn first_repeat(ps: Seq<(u8, Seq<char>)>, a: int, b: int) -> bool {
    &&& 0 <= a < b < ps.len()
    &&& ps[a].0 == ps[b].0
    &&& forall|j: int| 0 <= j < b && j != a ==> ps[j].0 != ps[a].0
    &&& forall|j: int, k: int| 0 <= j < k < ps.len() && ps[j].0 == ps[k].0 ==> ps[a].0 <= ps[j].0
}

/// Two strings are the same text.
fn str_eq(a: &str, b: &str) -> (r: bool)
    ensures
        r == (a@ == b@),
{
    let x = a.as_bytes();
    let y = b.as_bytes();
    if x.len() != y.len() {
        return false;
    }
    let mut i: usize = 0;
    while i < x.len()
        invariant
            x@.len() == y@.len(),
            i <= x@.len(),
            x@ == vstd::utf8::encode_utf8(a@),
            y@ == vstd::utf8::encode_utf8(b@),
            forall|j: int| 0 <= j < i ==> x@[j] == y@[j],
        decreases x@.len() - i,
    {
        if x[i] != y[i] {
            return false;
        }
        i = i + 1;
    }
    proof {
        assert(x@ =~= y@);
        vstd::utf8::encode_utf8_decode_utf8(a@);
        vstd::utf8::encode_utf8_decode_utf8(b@);
    }
    true
}

/// The word is a keyword, so no identifier.
fn is_keyword(s: &str) -> (r: bool)
    ensures
        r == keyword(s@),
{
    str_eq(s, "_") || str_eq(s, "abstract") || str_eq(s, "as") || str_eq(s, "async") || str_eq(
        s,
        "await",
    ) || str_eq(s, "become") || str_eq(s, "box") || str_eq(s, "break") || str_eq(s, "const")
        || str_eq(s, "continue") || str_eq(s, "crate") || str_eq(s, "do") || str_eq(s, "dyn")
        || str_eq(s, "else") || str_eq(s, "enum") || str_eq(s, "extern") || str_eq(s, "false")
        || str_eq(s, "final") || str_eq(s, "fn") || str_eq(s, "for") || str_eq(s, "if") || str_eq(
        s,
        "impl",
    ) || str_eq(s, "in") || str_eq(s, "let") || str_eq(s, "loop") || str_eq(s, "macro")
        || str_eq(s, "match") || str_eq(s, "mod") || str_eq(s, "move") || str_eq(s, "mut")
        || str_eq(s, "override") || str_eq(s, "priv") || str_eq(s, "pub") || str_eq(s, "ref")
        || str_eq(s, "return") || str_eq(s, "Self") || str_eq(s, "self") || str_eq(s, "static")
        || str_eq(s, "struct") || str_eq(s, "super") || str_eq(s, "trait") || str_eq(s, "true")
        || str_eq(s, "try") || str_eq(s, "type") || str_eq(s, "typeof") || str_eq(s, "unsafe")
        || str_eq(s, "unsized") || str_eq(s, "use") || str_eq(s, "virtual") || str_eq(s, "where")
        || str_eq(s, "while") || str_eq(s, "yield")
}

/// The value of a prefix of digits is at most the value of the digits.
proof fn lemma_decimal_prefix(d: Seq<char>, i: int)
    requires
        0 <= i <= d.len(),
        all_digits(d),
    ensures
        0 <= decimal_value(d.take(i)) <= decimal_value(d),
    decreases d.len(),
{
    if d.len() > 0 {
        let p = d.drop_last();
        assert(all_digits(p)) by {
            assert forall|j: int| 0 <= j < p.len() implies is_digit(#[trigger] p[j]) by {
                assert(p[j] == d[j]);
            }
        }
        if i == d.len() {
            assert(d.take(i) =~= d);
            lemma_decimal_prefix(p, p.len() as int);
            assert(p.take(p.len() as int) =~= p);
        } else {
            lemma_decimal_prefix(p, i);
            assert(p.take(i) =~= d.take(i));
            lemma_decimal_prefix(p, p.len() as int);
            assert(p.take(p.len() as int) =~= p);
        }
    }
}

/// The `i8` denoted by the decimal digits `digits`, negated when `negative`.
fn parse_decimal_i8(digits: &str, negative: bool) -> (r: Option<i8>)
    ensures
        match decimal_i8(digits@, negative) {
            Some(n) => r matches Some(x) && x == n,
            None => r is None,
        },
{
    let n = digits.unicode_len();
    if n == 0 {
        return None;
    }
    let limit: u32 = if negative {
        128
    } else {
        127
    };
    let mut v: u32 = 0;
    let mut i: usize = 0;
    assert(digits@.take(0) =~= Seq::<char>::empty());
    while i < n
        invariant
            n == digits@.len(),
            n > 0,
            i <= n,
            limit == (if negative {
                128int
            } else {
                127int
            }),
            all_digits(digits@.take(i as int)),
            v == decimal_value(digits@.take(i as int)),
            v <= limit,
        decreases n - i,
    {
        let c = digits.get_char(i);
        let cv = c as u32;
        if cv < 48 || cv > 57 {
            assert(!is_digit(digits@[i as int]));
            return None;
        }
        let w = v * 10 + (cv - 48);
        assert(digits@.take(i + 1).drop_last() =~= digits@.take(i as int));
        assert(all_digits(digits@.take(i + 1))) by {
            assert forall|j: int| 0 <= j < i + 1 implies is_digit(#[trigger] digits@.take(i + 1)[j]) by {
                if j < i {
                    assert(digits@.take(i + 1)[j] == digits@.take(i as int)[j]);
                }
            }
        }
        if w > limit {
            proof {
                if all_digits(digits@) {
                    lemma_decimal_prefix(digits@, i + 1);
                }
            }
            return None;
        }
        v = w;
        i = i + 1;
    }
    assert(digits@.take(n as int) =~= digits@);
    if negative {
        Some((0 - (v as i16)) as i8)
    } else {
        Some(v as i8)
    }
}

/// The byte that literal `l` denotes, negated when `negative`.
fn read_lit_byte(l: &TemplateLit, negative: bool) -> (r: Result<u8, TemplateError>)
    ensures
        r == lit_byte(*l, negative),
{
    let n: u8 = match l {
        TemplateLit::Byte(v) => *v,
        TemplateLit::Char(c) => {
            let v = *c as u32;
            if v >= 128 {
                return Err(TemplateError::NotAscii);
            }
            v as u8
        },
        TemplateLit::Int(d) => match parse_decimal_i8(d.as_str(), negative) {
            Some(x) => {
                assert(decimal_i8(d@, negative) == Some(x as int));
                if x < 0 {
                    (x as i16 + 256) as u8
                } else {
                    x as u8
                }
            },
            None => {
                return Err(TemplateError::NotAscii);
            },
        },
        _ => {
            return Err(TemplateError::NotAscii);
        },
    };
    assert(lit_byte(*l, negative) == accept_byte(n as int));
    match Ch::new(n) {
        Ok(c) => Ok(c.0 as u8),
        Err(()) => Err(TemplateError::NotAscii),
    }
}

/// The byte of the pair that starts at token `i`, and the token after it.
fn read_ch(toks: &[TemplateToken], i: usize) -> (r: Result<(u8, usize), TemplateError>)
    ensures
        match ch_at(toks@, i as int) {
            Ok((b, j)) => r == Ok::<(u8, usize), TemplateError>((b, j as usize)),
            Err(e) => r == Err::<(u8, usize), TemplateError>(e),
        },
{
    if i >= toks.len() {
        return Err(TemplateError::ExpectedLiteral);
    }
    match &toks[i] {
        TemplateToken::Literal(l) => match read_lit_byte(l, false) {
            Ok(b) => Ok((b, i + 1)),
            Err(e) => Err(e),
        },
        TemplateToken::Ident(n) => {
            if str_eq(n.as_str(), "true") || str_eq(n.as_str(), "false") {
                Err(TemplateError::NotAscii)
            } else {
                Err(TemplateError::ExpectedLiteral)
            }
        },
        TemplateToken::Punct(c, _) => {
            if *c == '-' && i + 1 < toks.len() {
                match &toks[i + 1] {
                    TemplateToken::Literal(l) => match l {
                        TemplateLit::Int(_) | TemplateLit::Float => match read_lit_byte(l, true) {
                            Ok(b) => Ok((b, i + 2)),
                            Err(e) => Err(e),
                        },
                        _ => Err(TemplateError::ExpectedLiteral),
                    },
                    _ => Err(TemplateError::ExpectedLiteral),
                }
            } else {
                Err(TemplateError::ExpectedLiteral)
            }
        },
        TemplateToken::Group(_, _) => Err(TemplateError::ExpectedLiteral),
    }
}

/// The pair that starts at token `i`, and the token after it.
fn read_pair(toks: &[TemplateToken], i: usize) -> (r: Result<(Pair, usize), TemplateError>)
    ensures
        match pair_at(toks@, i as int) {
            Ok((b, s, j)) => r matches Ok((p, k)) && pair_view(p) == (b, s) && k == j,
            Err(e) => r == Err::<(Pair, usize), TemplateError>(e),
        },
{
    let (b, j) = match read_ch(toks, i) {
        Ok(x) => x,
        Err(e) => {
            return Err(e);
        },
    };
    let arrow = j < toks.len() - 1 && match &toks[j] {
        TemplateToken::Punct(c, joint) => *c == '-' && *joint,
        _ => false,
    } && match &toks[j + 1] {
        TemplateToken::Punct(c, _) => *c == '>',
        _ => false,
    };
    if !arrow {
        return Err(TemplateError::ExpectedArrow);
    }
    if j + 2 < toks.len() {
        match &toks[j + 2] {
            TemplateToken::Literal(TemplateLit::Str(s)) => {
                let p = Pair::new(b as i8, s.as_str());
                return Ok((p, j + 3));
            },
            _ => {},
        }
    }
    Err(TemplateError::ExpectedString)
}

/// The comma-separated pairs that start at the first token, and the token after
/// them.
fn read_list(toks: &[TemplateToken]) -> (r: Result<(Vec<Pair>, usize), TemplateError>)
    ensures
        match list_at(toks@, 0) {
            Ok((ps, k)) => r matches Ok((v, j)) && pair_views(v@) == ps && j == k,
            Err(e) => r == Err::<(Vec<Pair>, usize), TemplateError>(e),
        },
{
    let mut out: Vec<Pair> = Vec::new();
    let mut i: usize = 0;
    loop
        invariant
            i <= toks@.len(),
            list_at(toks@, 0) == (match list_at(toks@, i as int) {
                Ok((rest, k)) => Ok((pair_views(out@) + rest, k)),
                Err(e) => Err(e),
            }),
        decreases toks@.len() - i,
    {
        proof {
            lemma_pair_at_advances(toks@, i as int);
        }
        let ghost before = out@;
        let (p, j) = match read_pair(toks, i) {
            Ok(x) => x,
            Err(e) => {
                return Err(e);
            },
        };
        out.push(p);
        assert(pair_views(out@) =~= pair_views(before) + seq![pair_view(p)]);
        let comma = j < toks.len() && match &toks[j] {
            TemplateToken::Punct(c, _) => *c == ',',
            _ => false,
        };
        if !comma {
            return Ok((out, j));
        }
        proof {
            let rest = list_at(toks@, j + 1);
            if let Ok((r, k)) = rest {
                assert(pair_views(before) + (seq![pair_view(p)] + r) =~= pair_views(out@) + r);
            }
        }
        i = j + 1;
    }
}

/// The pairs of a template, in the order they are written, or why it is refused.
fn read_template(toks: &[TemplateToken]) -> (r: Result<Vec<Pair>, TemplateError>)
    ensures
        match template_pairs(toks@) {
            Ok(ps) => r matches Ok(v) && pair_views(v@) == ps,
            Err(e) => r == Err::<Vec<Pair>, TemplateError>(e),
        },
{
    let ident = toks.len() >= 1 && match &toks[0] {
        TemplateToken::Ident(n) => !is_keyword(n.as_str()),
        _ => false,
    };
    if !ident {
        return Err(TemplateError::ExpectedIdent);
    }
    let bang = toks.len() >= 2 && match &toks[1] {
        TemplateToken::Punct(c, _) => *c == '!',
        _ => false,
    };
    if !bang {
        return Err(TemplateError::ExpectedBang);
    }
    if toks.len() < 3 {
        return Err(TemplateError::ExpectedParentheses);
    }
    let inner = match &toks[2] {
        TemplateToken::Group(Delimiter::Parenthesis, inner) => inner,
        _ => {
            return Err(TemplateError::ExpectedParentheses);
        },
    };
    let (pairs, k) = match read_list(inner.as_slice()) {
        Ok(x) => x,
        Err(e) => {
            return Err(e);
        },
    };
    let semicolon = toks.len() >= 4 && match &toks[3] {
        TemplateToken::Punct(c, _) => *c == ';',
        _ => false,
    };
    if !semicolon {
        return Err(TemplateError::ExpectedSemicolon);
    }
    if k < inner.len() || toks.len() > 4 {
        return Err(TemplateError::UnexpectedToken);
    }
    Ok(pairs)
}

/// A template holds at least one pair.
proof fn lemma_template_nonempty(toks: Seq<TemplateToken>)
    ensures
        template_pairs(toks) matches Ok(ps) ==> ps.len() >= 1,
{
    if toks.len() >= 3 && toks[2] matches TemplateToken::Group(Delimiter::Parenthesis, _) {
        let inner = toks[2]->Group_1;
        assert(list_at(inner@, 0) matches Ok((ps, _)) ==> ps.len() >= 1);
    }
}

/// Without pairs of byte `c`, no pair escapes `c`.
proof fn lemma_with_byte_empty(s: Seq<Pair>, c: u8)
    requires
        with_byte(s, c).len() == 0,
    ensures
        forall|j: int| 0 <= j < s.len() ==> s[j].ch != c,
    decreases s.len(),
{
    if s.len() > 0 {
        let t = s.drop_last();
        assert(t.push(s.last()) =~= s);
        lemma_with_byte_push(t, s.last(), c);
        lemma_with_byte_empty(t, c);
        assert forall|j: int| 0 <= j < s.len() implies s[j].ch != c by {
            if j < t.len() {
                assert(s[j] == t[j]);
            }
        }
    }
}

/// With one pair of byte `c`, exactly one pair escapes `c`.
proof fn lemma_with_byte_one(s: Seq<Pair>, c: u8)
    requires
        with_byte(s, c).len() == 1,
    ensures
        exists|a: int|
            0 <= a < s.len() && s[a] == with_byte(s, c)[0] && s[a].ch == c && (forall|j: int|
                0 <= j < s.len() && j != a ==> s[j].ch != c),
    decreases s.len(),
{
    reveal(Seq::filter);
    let t = s.drop_last();
    let x = s.last();
    assert(t.push(x) =~= s);
    lemma_with_byte_push(t, x, c);
    if x.ch == c {
        lemma_with_byte_empty(t, c);
        let a = s.len() - 1;
        assert forall|j: int| 0 <= j < s.len() && j != a implies s[j].ch != c by {
            assert(s[j] == t[j]);
        }
        assert(s[a] == with_byte(s, c)[0]);
    } else {
        lemma_with_byte_one(t, c);
        let a = choose|a: int|
            0 <= a < t.len() && t[a] == with_byte(t, c)[0] && t[a].ch == c && (forall|j: int|
                0 <= j < t.len() && j != a ==> t[j].ch != c);
        assert(s[a] == t[a]);
        assert forall|j: int| 0 <= j < s.len() && j != a implies s[j].ch != c by {
            if j < t.len() {
                assert(s[j] == t[j]);
            }
        }
    }
}

/// With two or more pairs of byte `c`, the first two of them are at positions `a`
/// and `b`, and no other pair before `b` escapes `c`.
proof fn lemma_with_byte_two(s: Seq<Pair>, c: u8)
    requires
        with_byte(s, c).len() >= 2,
    ensures
        exists|a: int, b: int|
            0 <= a < b < s.len() && s[a] == with_byte(s, c)[0] && s[b] == with_byte(s, c)[1]
                && s[a].ch == c && s[b].ch == c && (forall|j: int|
                0 <= j < b && j != a ==> s[j].ch != c),
    decreases s.len(),
{
    reveal(Seq::filter);
    let t = s.drop_last();
    let x = s.last();
    assert(t.push(x) =~= s);
    lemma_with_byte_push(t, x, c);
    if x.ch == c && with_byte(t, c).len() == 1 {
        lemma_with_byte_one(t, c);
        let a = choose|a: int|
            0 <= a < t.len() && t[a] == with_byte(t, c)[0] && t[a].ch == c && (forall|j: int|
                0 <= j < t.len() && j != a ==> t[j].ch != c);
        let b = s.len() - 1;
        assert(s[a] == t[a]);
        assert forall|j: int| 0 <= j < b && j != a implies s[j].ch != c by {
            assert(s[j] == t[j]);
        }
        assert(s[b] == with_byte(s, c)[1]);
    } else {
        lemma_with_byte_two(t, c);
        let (a, b) = choose|a: int, b: int|
            0 <= a < b < t.len() && t[a] == with_byte(t, c)[0] && t[b] == with_byte(t, c)[1]
                && t[a].ch == c && t[b].ch == c && (forall|j: int|
                0 <= j < b && j != a ==> t[j].ch != c);
        assert(s[a] == t[a]);
        assert(s[b] == t[b]);
        assert forall|j: int| 0 <= j < b && j != a implies s[j].ch != c by {
            assert(s[j] == t[j]);
        }
    }
}

/// Two pairs of the same byte make at least two pairs of that byte.
proof fn lemma_two_of_byte(s: Seq<Pair>, j: int, k: int)
    requires
        0 <= j < k < s.len(),
        s[j].ch == s[k].ch,
    ensures
        with_byte(s, s[j].ch).len() >= 2,
{
    let c = s[j].ch;
    if with_byte(s, c).len() == 0 {
        lemma_with_byte_empty(s, c);
    } else if with_byte(s, c).len() == 1 {
        lemma_with_byte_one(s, c);
    }
}

/// The first repeat of a sorted table whose pairs of each byte are those of `orig`,
/// in order, is made of the first two pairs of `orig` with the smallest repeated byte.
proof fn lemma_first_repeat(orig: Seq<Pair>, v: Seq<Pair>, i: int)
    requires
        forall|c: u8| #[trigger] with_byte(v, c) == with_byte(orig, c),
        sorted_by_ch(v),
        0 <= i,
        i + 1 < v.len(),
        v[i].ch == v[i + 1].ch,
        forall|j: int| 0 <= j < i ==> (#[trigger] v[j]).ch < v[j + 1].ch,
    ensures
        exists|a: int, b: int|
            first_repeat(pair_views(orig), a, b) && pair_views(orig)[a] == pair_view(v[i])
                && pair_views(orig)[b] == pair_view(v[i + 1]),
{
    let x = v[i].ch;
    let ps = pair_views(orig);
    assert forall|j: int| 0 <= j < i implies v[j].ch < x by {
        assert(v[j].ch <= v[i - 1].ch);
        assert(v[i - 1].ch < v[i].ch);
    }
    lemma_two_of_byte(v, i, i + 1);
    lemma_with_byte_two(v, x);
    let (av, bv) = choose|a: int, b: int|
        0 <= a < b < v.len() && v[a] == with_byte(v, x)[0] && v[b] == with_byte(v, x)[1] && v[a].ch
            == x && v[b].ch == x && (forall|j: int| 0 <= j < b && j != a ==> v[j].ch != x);
    assert(av == i) by {
        if av > i {
            assert(v[i].ch != x);
        }
    }
    assert(bv == i + 1) by {
        if bv > i + 1 {
            assert(v[i + 1].ch != x);
        }
    }
    assert(with_byte(orig, x) == with_byte(v, x));
    lemma_with_byte_two(orig, x);
    let (a, b) = choose|a: int, b: int|
        0 <= a < b < orig.len() && orig[a] == with_byte(orig, x)[0] && orig[b] == with_byte(
            orig,
            x,
        )[1] && orig[a].ch == x && orig[b].ch == x && (forall|j: int|
            0 <= j < b && j != a ==> orig[j].ch != x);
    assert(ps[a] == pair_view(v[i]));
    assert(ps[b] == pair_view(v[i + 1]));
    assert forall|j: int| 0 <= j < b && j != a implies ps[j].0 != ps[a].0 by {
        assert(ps[j].0 == orig[j].ch);
    }
    assert forall|j: int, k: int| 0 <= j < k < ps.len() && ps[j].0 == ps[k].0 implies ps[a].0
        <= ps[j].0 by {
        let y = orig[j].ch;
        assert(ps[j].0 == y);
        assert(ps[k].0 == orig[k].ch);
        lemma_two_of_byte(orig, j, k);
        assert(with_byte(v, y) == with_byte(orig, y));
        lemma_with_byte_two(v, y);
        let (a2, b2) = choose|a2: int, b2: int|
            0 <= a2 < b2 < v.len() && v[a2] == with_byte(v, y)[0] && v[b2] == with_byte(v, y)[1]
                && v[a2].ch == y && v[b2].ch == y && (forall|j2: int|
                0 <= j2 < b2 && j2 != a2 ==> v[j2].ch != y);
        if y < x {
            if a2 >= i {
                assert(v[i].ch <= v[a2].ch);
            }
            assert(v[a2].ch < v[a2 + 1].ch);
            assert(v[a2 + 1].ch <= v[b2].ch);
        }
    }
    assert(first_repeat(ps, a, b));
}

/// A sorted table without repeated bytes holds each pair once.
proof fn lemma_sorted_permutation(orig: Seq<Pair>, v: Seq<Pair>)
    requires
        orig.to_multiset() == v.to_multiset(),
        forall|a: int, b: int| 0 <= a < b < v.len() ==> v[a].ch < v[b].ch,
    ensures
        distinct_bytes(pair_views(orig)),
        pair_views(v).len() == pair_views(orig).len(),
        forall|k: int| 0 <= k < orig.len() ==> pair_views(v).contains(#[trigger] pair_views(orig)[k]),
{
    broadcast use vstd::seq_lib::to_multiset_contains;

    vstd::seq_lib::to_multiset_len(orig);
    vstd::seq_lib::to_multiset_len(v);
    assert(v.no_duplicates());
    v.lemma_multiset_has_no_duplicates();
    orig.lemma_multiset_has_no_duplicates_conv();
    let po = pair_views(orig);
    let pv = pair_views(v);
    assert forall|a: int, b: int| 0 <= a < b < po.len() implies po[a].0 != po[b].0 by {
        assert(orig.contains(orig[a]));
        assert(orig.contains(orig[b]));
        assert(orig.to_multiset().count(orig[a]) > 0);
        assert(orig.to_multiset().count(orig[b]) > 0);
        let ja = choose|j: int| 0 <= j < v.len() && v[j] == orig[a];
        let jb = choose|j: int| 0 <= j < v.len() && v[j] == orig[b];
        assert(orig[a] != orig[b]);
        if ja < jb {
            assert(v[ja].ch < v[jb].ch);
        } else if jb < ja {
            assert(v[jb].ch < v[ja].ch);
        }
    }
    assert forall|k: int| 0 <= k < orig.len() implies pv.contains(#[trigger] po[k]) by {
        assert(orig.contains(orig[k]));
        assert(orig.to_multiset().count(orig[k]) > 0);
        let j = choose|j: int| 0 <= j < v.len() && v[j] == orig[k];
        assert(pv[j] == po[k]);
    }
}

/// What reading the tokens `toks` of a template gives: the error of the grammar, or
/// the pairs sorted by byte when no byte repeats, or the first two pairs of the
/// smallest repeated byte.
pub open spec fn template_read_as(toks: Seq<TemplateToken>, r: Result<Vec<Pair>, TemplateError>) -> bool {
    match template_pairs(toks) {
        Err(e) => r == Err::<Vec<Pair>, TemplateError>(e),
        Ok(ps) => {
            &&& r is Ok <==> distinct_bytes(ps)
            &&& r matches Ok(v) ==> {
                &&& sorted_by_ch(v@)
                &&& pair_views(v@).len() == ps.len()
                &&& forall|k: int| 0 <= k < ps.len() ==> pair_views(v@).contains(#[trigger] ps[k])
            }
            &&& r matches Err(e) ==> (e matches TemplateError::Repeated(p1, p2) && exists|a: int, b: int|
                first_repeat(ps, a, b) && ps[a] == pair_view(p1) && ps[b] == pair_view(p2))
        },
    }
}

/// Parse a template and return its pairs, sorted by byte.
pub fn parse_template(tokens: &[TemplateToken]) -> (r: Result<Vec<Pair>, TemplateError>)
    ensures
        template_read_as(tokens@, r),
{
    let mut pairs = match read_template(tokens) {
        Ok(v) => v,
        Err(e) => {
            return Err(e);
        },
    };
    let ghost orig = pairs@;
    proof {
        lemma_template_nonempty(tokens@);
    }
    sort_pairs(&mut pairs);
    proof {
        vstd::seq_lib::to_multiset_len(orig);
        vstd::seq_lib::to_multiset_len(pairs@);
        assert(pair_views(orig).len() == orig.len());
    }
    match find_repeated(pairs.as_slice()) {
        None => {
            proof {
                lemma_sorted_permutation(orig, pairs@);
            }
            Ok(pairs)
        },
        Some(i) => {
            proof {
                lemma_first_repeat(orig, pairs@, i as int);
            }
            let n = pairs.len();
            assert(i + 1 < n);
            let p2 = pairs.remove(i + 1);
            let p1 = pairs.remove(i);
            Err(TemplateError::Repeated(p1, p2))
        },
    }
}

/// The template that the `escape!` macro reads its input as: `new!(input);`.
pub fn macro_template(input: Vec<TemplateToken>) -> (r: Vec<TemplateToken>)
    ensures
        r@.len() == 4,
        r@[0] matches TemplateToken::Ident(n) && n@ == "new"@,
        r@[1] == TemplateToken::Punct('!', false),
        r@[2] == TemplateToken::Group(Delimiter::Parenthesis, input),
        r@[3] == TemplateToken::Punct(';', false),
{
    let mut r: Vec<TemplateToken> = Vec::new();
    r.push(TemplateToken::Ident("new".to_owned()));
    r.push(TemplateToken::Punct('!', false));
    r.push(TemplateToken::Group(Delimiter::Parenthesis, input));
    r.push(TemplateToken::Punct(';', false));
    r
}

} // verus!
