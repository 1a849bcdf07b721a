use v_escape::codegen_base::lex::{lex_template, parse_template_source};
use v_escape::codegen_base::pairs::Pair;
use v_escape::codegen_base::template::{
    macro_template, parse_template, Delimiter, TemplateError, TemplateLit, TemplateToken,
};

fn ident(s: &str) -> TemplateToken {
    TemplateToken::Ident(s.to_string())
}

fn punct(c: char) -> TemplateToken {
    TemplateToken::Punct(c, false)
}

fn arrow() -> Vec<TemplateToken> {
    vec![TemplateToken::Punct('-', true), TemplateToken::Punct('>', false)]
}

fn char_lit(c: char) -> TemplateToken {
    TemplateToken::Literal(TemplateLit::Char(c))
}

fn str_lit(s: &str) -> TemplateToken {
    TemplateToken::Literal(TemplateLit::Str(s.to_string()))
}

fn int_lit(d: &str) -> TemplateToken {
    TemplateToken::Literal(TemplateLit::Int(d.to_string()))
}

fn pair_tokens(ch: TemplateToken, quote: &str) -> Vec<TemplateToken> {
    let mut out = vec![ch];
    out.extend(arrow());
    out.push(str_lit(quote));
    out
}

fn template(inner: Vec<TemplateToken>) -> Vec<TemplateToken> {
    vec![
        ident("new"),
        punct('!'),
        TemplateToken::Group(Delimiter::Parenthesis, inner),
        punct(';'),
    ]
}

fn list(pairs: Vec<Vec<TemplateToken>>) -> Vec<TemplateToken> {
    let mut out = Vec::new();
    for (i, p) in pairs.into_iter().enumerate() {
        if i > 0 {
            out.push(punct(','));
        }
        out.extend(p);
    }
    out
}

fn bytes_and_quotes(pairs: &[Pair]) -> Vec<(u8, String)> {
    pairs.iter().map(|p| (p.ch, p.quote.clone())).collect()
}

#[test]
fn template_html_pairs_are_sorted() {
    let toks = template(list(vec![
        pair_tokens(char_lit('<'), "&lt;"),
        pair_tokens(char_lit('>'), "&gt;"),
        pair_tokens(char_lit('&'), "&amp;"),
        pair_tokens(char_lit('"'), "&quot;"),
    ]));
    let pairs = parse_template(&toks).unwrap();
    assert_eq!(
        bytes_and_quotes(&pairs),
        vec![
            (b'"', "&quot;".to_string()),
            (b'&', "&amp;".to_string()),
            (b'<', "&lt;".to_string()),
            (b'>', "&gt;".to_string()),
        ]
    );
}

#[test]
fn template_literal_kinds() {
    let toks = template(list(vec![
        pair_tokens(TemplateToken::Literal(TemplateLit::Byte(b'a')), "A"),
        pair_tokens(int_lit("60"), "lt"),
        {
            let mut p = vec![punct('-')];
            p.extend(pair_tokens(int_lit("0"), "zero"));
            p
        },
        pair_tokens(char_lit('\u{13c}'), "wide"),
    ]));
    // A character above ASCII is refused, whatever its low byte.
    assert!(matches!(parse_template(&toks), Err(TemplateError::NotAscii)));
    let toks = template(list(vec![
        pair_tokens(TemplateToken::Literal(TemplateLit::Byte(b'a')), "A"),
        pair_tokens(int_lit("60"), "lt"),
        {
            let mut p = vec![punct('-')];
            p.extend(pair_tokens(int_lit("0"), "zero"));
            p
        },
    ]));
    let pairs = parse_template(&toks).unwrap();
    assert_eq!(
        bytes_and_quotes(&pairs),
        vec![
            (0, "zero".to_string()),
            (b'<', "lt".to_string()),
            (b'a', "A".to_string()),
        ]
    );
}

#[test]
fn template_rejects_non_ascii_values() {
    for ch in [
        char_lit('é'),
        char_lit('\u{80}'),
        char_lit('\u{100}'),
        char_lit('\u{13c}'),
        int_lit("128"),
        int_lit("200"),
        int_lit("100000000000000000000"),
        TemplateToken::Literal(TemplateLit::Byte(0x80)),
        TemplateToken::Literal(TemplateLit::Byte(0xff)),
        TemplateToken::Literal(TemplateLit::Float),
        TemplateToken::Literal(TemplateLit::Other),
        str_lit("<"),
        ident("true"),
        ident("false"),
    ] {
        let toks = template(pair_tokens(ch, "x"));
        assert!(matches!(parse_template(&toks), Err(TemplateError::NotAscii)));
    }
    for digits in ["1", "128"] {
        let mut inner = vec![punct('-')];
        inner.extend(pair_tokens(int_lit(digits), "x"));
        let toks = template(inner);
        assert!(matches!(parse_template(&toks), Err(TemplateError::NotAscii)));
    }
}

#[test]
fn template_accepts_edge_values() {
    let toks = template(list(vec![
        pair_tokens(int_lit("127"), "max"),
        pair_tokens(TemplateToken::Literal(TemplateLit::Byte(0)), "nul"),
    ]));
    let pairs = parse_template(&toks).unwrap();
    assert_eq!(
        bytes_and_quotes(&pairs),
        vec![(0, "nul".to_string()), (127, "max".to_string())]
    );
    for ch in [
        char_lit('\u{7f}'),
        TemplateToken::Literal(TemplateLit::Byte(0x7f)),
        int_lit("127"),
    ] {
        let toks = template(pair_tokens(ch, "del"));
        let pairs = parse_template(&toks).unwrap();
        assert_eq!(bytes_and_quotes(&pairs), vec![(127, "del".to_string())]);
    }
}

#[test]
fn template_structure_errors() {
    assert!(matches!(parse_template(&[]), Err(TemplateError::ExpectedIdent)));

    let mut toks = template(pair_tokens(char_lit('<'), "&lt;"));
    toks[0] = ident("fn");
    assert!(matches!(parse_template(&toks), Err(TemplateError::ExpectedIdent)));

    let mut toks = template(pair_tokens(char_lit('<'), "&lt;"));
    toks[1] = punct('?');
    assert!(matches!(parse_template(&toks), Err(TemplateError::ExpectedBang)));

    let toks = vec![
        ident("new"),
        punct('!'),
        TemplateToken::Group(Delimiter::Brace, pair_tokens(char_lit('<'), "&lt;")),
        punct(';'),
    ];
    assert!(matches!(parse_template(&toks), Err(TemplateError::ExpectedParentheses)));

    let toks = template(Vec::new());
    assert!(matches!(parse_template(&toks), Err(TemplateError::ExpectedLiteral)));

    let toks = template(vec![punct('-'), str_lit("x")]);
    assert!(matches!(parse_template(&toks), Err(TemplateError::ExpectedLiteral)));

    let toks = template(vec![char_lit('<'), punct('-'), punct('>'), str_lit("&lt;")]);
    assert!(matches!(parse_template(&toks), Err(TemplateError::ExpectedArrow)));

    let mut inner = vec![char_lit('<')];
    inner.extend(arrow());
    inner.push(char_lit('x'));
    let toks = template(inner);
    assert!(matches!(parse_template(&toks), Err(TemplateError::ExpectedString)));

    let mut inner = pair_tokens(char_lit('<'), "&lt;");
    inner.push(punct(','));
    let toks = template(inner);
    assert!(matches!(parse_template(&toks), Err(TemplateError::ExpectedLiteral)));

    let mut toks = template(pair_tokens(char_lit('<'), "&lt;"));
    toks.pop();
    assert!(matches!(parse_template(&toks), Err(TemplateError::ExpectedSemicolon)));

    let mut toks = template(pair_tokens(char_lit('<'), "&lt;"));
    toks.push(punct(';'));
    assert!(matches!(parse_template(&toks), Err(TemplateError::UnexpectedToken)));

    let mut inner = pair_tokens(char_lit('<'), "&lt;");
    inner.push(str_lit("more"));
    let toks = template(inner);
    assert!(matches!(parse_template(&toks), Err(TemplateError::UnexpectedToken)));
}

#[test]
fn template_repeated_bytes() {
    let toks = template(list(vec![
        pair_tokens(char_lit('>'), "&gt;"),
        pair_tokens(char_lit('<'), "&lt;"),
        pair_tokens(int_lit("62"), "again"),
    ]));
    match parse_template(&toks) {
        Err(TemplateError::Repeated(p1, p2)) => {
            assert_eq!((p1.ch, p1.quote.as_str()), (b'>', "&gt;"));
            assert_eq!((p2.ch, p2.quote.as_str()), (b'>', "again"));
        }
        other => panic!("unexpected {:?}", other),
    }
}

#[test]
fn template_of_macro_input() {
    let input = list(vec![
        pair_tokens(TemplateToken::Literal(TemplateLit::Byte(b'"')), "\\\""),
        pair_tokens(char_lit('\\'), "\\\\"),
    ]);
    let toks = macro_template(input);
    assert_eq!(toks.len(), 4);
    assert!(matches!(&toks[0], TemplateToken::Ident(n) if n == "new"));
    let pairs = parse_template(&toks).unwrap();
    assert_eq!(
        bytes_and_quotes(&pairs),
        vec![(b'"', "\\\"".to_string()), (b'\\', "\\\\".to_string())]
    );
}

#[test]
fn template_reports_smallest_repeated_byte() {
    let toks = template(list(vec![
        pair_tokens(char_lit('>'), "first >"),
        pair_tokens(char_lit('<'), "first <"),
        pair_tokens(char_lit('>'), "second >"),
        pair_tokens(char_lit('<'), "second <"),
        pair_tokens(char_lit('<'), "third <"),
    ]));
    match parse_template(&toks) {
        Err(TemplateError::Repeated(p1, p2)) => {
            assert_eq!((p1.ch, p1.quote.as_str()), (b'<', "first <"));
            assert_eq!((p2.ch, p2.quote.as_str()), (b'<', "second <"));
        }
        other => panic!("unexpected {:?}", other),
    }
}

#[test]
fn template_source_text() {
    let src = "// html\nnew!(\n    '<' -> \"&lt;\",\n    b'>' -> \"&gt;\",\n    0x26 -> r#\"&amp;\"#,\n    '\\'' -> \"&#x27;\"\n);\n";
    let pairs = parse_template_source(src).unwrap().unwrap();
    assert_eq!(
        bytes_and_quotes(&pairs),
        vec![
            (b'&', "&amp;".to_string()),
            (b'\'', "&#x27;".to_string()),
            (b'<', "&lt;".to_string()),
            (b'>', "&gt;".to_string()),
        ]
    );
    assert!(parse_template_source("new!('<' -> \"unterminated);").is_none());
    assert!(matches!(
        parse_template_source("new!('\u{13c}' -> \"x\");"),
        Some(Err(TemplateError::NotAscii))
    ));
    assert!(matches!(
        parse_template_source("new!('<' -> \"a\", '<' -> \"b\");"),
        Some(Err(TemplateError::Repeated(..)))
    ));
}

#[test]
fn template_source_tokens() {
    let toks = lex_template("a! ( -> ) ;").unwrap();
    assert_eq!(toks.len(), 4);
    assert!(matches!(&toks[0], TemplateToken::Ident(n) if n == "a"));
    assert!(matches!(toks[1], TemplateToken::Punct('!', false)));
    match &toks[2] {
        TemplateToken::Group(Delimiter::Parenthesis, inner) => {
            assert!(matches!(inner[0], TemplateToken::Punct('-', true)));
            assert!(matches!(inner[1], TemplateToken::Punct('>', false)));
        }
        other => panic!("unexpected {:?}", other),
    }
    assert!(matches!(toks[3], TemplateToken::Punct(';', false)));
}
