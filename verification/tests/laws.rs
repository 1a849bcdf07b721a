use v_escape::arch::aarch64;
use v_escape::arch::fallback::escape_fallback;
use v_escape::arch::wasm32;
use v_escape::arch::x86_64::{avx, sse};
use v_escape::builder::{escape_bytes, escape_string};
use v_escape::codegen_base::generator::{find_repeated, sort_pairs, Ch, Generator};
use v_escape::codegen_base::pairs::{Pair, Pairs};
use v_escape::codegen_base::switch::{Bodies, MaskTerm, Switch};
use v_escape::codegen_base::table::TableEscapes;
use v_escape::escapes::{byte_byte_escape, Escapes};
use v_escape::html::{self, HtmlEscapes};
use v_escape::codegen::generator::Feature;
use v_escape::writer::{write_slice, WriterCount, WriterVec};

fn pairs_of(bytes: &[u8]) -> Vec<Pair> {
    bytes
        .iter()
        .map(|b| Pair::new(*b as i8, &format!("<{}>", b)))
        .collect()
}

fn tables() -> Vec<Vec<u8>> {
    vec![
        vec![0],
        vec![b'<'],
        vec![b'&', b'<'],
        vec![b'&', b'\'', b'<'],
        vec![b'"', b'&', b'\'', b'/', b'<', b'>'],
        vec![1, 2, 3, 4, 5],
        vec![1, 2, 3, 10, 11, 12, 60],
        vec![1, 2, 10, 11, 20, 21],
        vec![1, 2, 10, 11, 20, 21, 30, 40],
        vec![0, 30, 60, 90, 126],
        vec![0, 127],
        vec![120, 121, 122, 123, 124, 125, 126, 127],
        vec![5, 6, 60, 126, 127],
        vec![10, 20, 21, 22, 23, 100],
        (0..128).collect(),
        vec![b'\t', b'\n', b'\r', b'"', b'\\'],
    ]
}

fn by_byte(escapes: &TableEscapes, s: &[u8]) -> Vec<u8> {
    let mut expected = Vec::new();
    for &b in s {
        if escapes.byte_byte_compare(b) {
            expected.extend_from_slice(escapes.escape(escapes.position(b)).as_bytes());
        } else {
            expected.push(b);
        }
    }
    expected
}

fn scalar(escapes: &TableEscapes, s: &str) -> Vec<u8> {
    let mut w = WriterVec::new(Vec::new());
    byte_byte_escape(escapes, s, &mut w).unwrap();
    w.into_inner()
}

fn samples() -> Vec<String> {
    let mut out = vec![
        String::new(),
        "a".to_string(),
        "<&>\"'/".to_string(),
        "plain text without anything".to_string(),
        "é<ü>€𝄞\t\n\r\\".to_string(),
    ];
    let all: String = (0u8..128).map(|b| b as char).collect();
    out.push(all.clone());
    out.push(all.repeat(3));
    for n in [15, 16, 17, 31, 32, 33, 63, 64, 65, 100] {
        out.push("<a".repeat(n));
        out.push("x".repeat(n) + "<");
    }
    out
}

#[test]
fn classification_covers_exactly_the_table() {
    for bytes in tables() {
        let pairs = pairs_of(&bytes);
        let switch: Switch = Pairs(&pairs).into();
        let terms = switch.masking();
        for b in 0..=255u8 {
            let by_terms = terms.iter().any(|t| t.lane(b));
            assert_eq!(switch.lane(b), by_terms);
            if bytes.contains(&b) {
                assert!(switch.lane(b), "{:?} misses {}", bytes, b);
            }
            if switch.bodies() == Bodies::Exact {
                assert_eq!(switch.lane(b), bytes.contains(&b), "{:?} at {}", bytes, b);
            }
        }
    }
}

#[test]
fn range_term_selects_its_range() {
    let term = MaskTerm::range(34, 39);
    for b in 0..=255u8 {
        assert_eq!(term.lane(b), (34..=39).contains(&b), "{}", b);
    }
    assert_eq!(MaskTerm::range(0, 126), MaskTerm::Range { translation: 1, below: 0 });
    let top = MaskTerm::range(100, 127);
    for b in 0..=255u8 {
        assert_eq!(top.lane(b), (100..=127).contains(&b), "{}", b);
    }
    let equal = MaskTerm::Equal { value: 60 };
    for b in 0..=255u8 {
        assert_eq!(equal.lane(b), b == 60);
    }
}

#[test]
fn bodies_by_shape() {
    assert_eq!(Switch::A { a: 1 }.bodies(), Bodies::Exact);
    assert_eq!(Switch::ArBr { la: 1, ra: 2, lb: 4, rb: 5 }.bodies(), Bodies::Exact);
    assert_eq!(Switch::ArBC { la: 1, ra: 2, b: 4, c: 6 }.bodies(), Bodies::Reg);
    assert_eq!(Switch::ArBrC { la: 1, ra: 2, lb: 4, rb: 5, c: 9 }.bodies(), Bodies::Reg);
    assert_eq!(
        Switch::ArBrCr { la: 1, ra: 2, lb: 4, rb: 5, lc: 8, rc: 9 }.bodies(),
        Bodies::Reg
    );
}

#[test]
fn every_target_escapes_as_byte_by_byte() {
    for bytes in tables() {
        let pairs = pairs_of(&bytes);
        let escapes = TableEscapes::new(&pairs);
        for s in samples() {
            let expected = by_byte(&escapes, s.as_bytes());
            assert_eq!(scalar(&escapes, &s), expected);

            let mut w = WriterVec::new(Vec::new());
            escape_fallback(&escapes, &s, &mut w).unwrap();
            assert_eq!(w.into_inner(), expected);

            let mut w = WriterVec::new(Vec::new());
            sse::escape(&escapes, &s, &mut w).unwrap();
            assert_eq!(w.into_inner(), expected);

            let mut w = WriterVec::new(Vec::new());
            avx::escape(&escapes, &s, &mut w).unwrap();
            assert_eq!(w.into_inner(), expected);

            let mut w = WriterVec::new(Vec::new());
            aarch64::escape(&escapes, &s, &mut w).unwrap();
            assert_eq!(w.into_inner(), expected);

            let mut w = WriterVec::new(Vec::new());
            wasm32::escape(&escapes, &s, &mut w).unwrap();
            assert_eq!(w.into_inner(), expected);

            let mut buf = b"prefix".to_vec();
            escape_bytes(&escapes, &s, &mut buf);
            let mut with_prefix = b"prefix".to_vec();
            with_prefix.extend_from_slice(&expected);
            assert_eq!(buf, with_prefix);

            let mut text = String::from("prefix");
            escape_string(&escapes, &s, &mut text);
            assert_eq!(text.into_bytes(), with_prefix);
        }
    }
}

#[test]
fn escaping_distributes_over_concatenation() {
    let escapes = TableEscapes::new(&pairs_of(&[b'&', b'<', b'>']));
    let a = "a<b&c";
    let b = ">é<";
    let mut joined = scalar(&escapes, a);
    joined.extend(scalar(&escapes, b));
    assert_eq!(scalar(&escapes, &(a.to_string() + b)), joined);
}

#[test]
fn text_without_escaped_bytes_is_unchanged() {
    let escapes = TableEscapes::new(&pairs_of(&[b'&', b'<', b'>']));
    for s in ["", "plain", "é€𝄞 and more", "xyz".repeat(40).as_str()] {
        assert_eq!(scalar(&escapes, s), s.as_bytes());
    }
}

#[test]
fn escaped_text_is_text() {
    let escapes = TableEscapes::new(&[Pair::new(b'a' as i8, "ä"), Pair::new(b'b' as i8, "")]);
    let mut out = String::new();
    escape_string(&escapes, "abcé", &mut out);
    assert_eq!(out, "äcé");
}

#[test]
fn table_escapes_lookups() {
    let pairs = pairs_of(&[b'"', b'&', b'<']);
    let escapes = TableEscapes::new(&pairs);
    assert_eq!(escapes.escape_len(), 3);
    assert!(escapes.false_positive());
    assert_eq!(escapes.position(b'"'), 0);
    assert_eq!(escapes.position(b'&'), 1);
    assert_eq!(escapes.position(b'<'), 2);
    assert_eq!(escapes.position(b'a'), 3);
    assert_eq!(escapes.position(200), 3);
    assert_eq!(escapes.escape(2), "<60>");
    assert!(escapes.byte_byte_compare(b'<'));
    assert!(!escapes.byte_byte_compare(b'>'));
    assert_eq!(escapes.switch(), Switch::ABC { a: 34, b: 38, c: 60 });
    for b in 0..=255u8 {
        assert_eq!(escapes.masking(b), [34, 38, 60].contains(&b));
    }
}

#[test]
fn generator_tables() {
    let pairs = pairs_of(&[b'"', b'&', b'<']);
    let generator = Generator::new(&pairs);
    assert_eq!(generator.escape_len(), 3);
    let table = generator.static_table();
    assert_eq!(table.len(), 256);
    for b in 0..256usize {
        let expected = match b {
            34 => 0,
            38 => 1,
            60 => 2,
            _ => 3,
        };
        assert_eq!(table[b], expected, "{}", b);
    }
    assert_eq!(generator.switch(), Switch::ABC { a: 34, b: 38, c: 60 });
    assert_eq!(generator.escapes(), "\"&<");
    assert_eq!(generator.escaped(), "<34><38><60>");
    assert_eq!(generator.pairs_slice().len(), 3);
    assert_eq!(
        generator.mask_terms(),
        vec![
            MaskTerm::Equal { value: 34 },
            MaskTerm::Equal { value: 38 },
            MaskTerm::Equal { value: 60 },
        ]
    );
    let ranged = pairs_of(&[1, 2, 3, 10, 11, 12, 60]);
    assert_eq!(
        Generator::new(&ranged).mask_terms(),
        vec![
            MaskTerm::range(1, 3),
            MaskTerm::range(10, 12),
            MaskTerm::Equal { value: 60 },
        ]
    );
}

#[test]
fn sorting_and_repeats() {
    let mut pairs = vec![
        Pair::new(b'>' as i8, "gt"),
        Pair::new(b'&' as i8, "amp"),
        Pair::new(b'<' as i8, "lt"),
        Pair::new(b'&' as i8, "again"),
    ];
    sort_pairs(&mut pairs);
    let order: Vec<(u8, &str)> = pairs.iter().map(|p| (p.ch, p.quote.as_str())).collect();
    assert_eq!(
        order,
        vec![(b'&', "amp"), (b'&', "again"), (b'<', "lt"), (b'>', "gt")]
    );
    assert_eq!(find_repeated(&pairs), Some(0));
    pairs.remove(1);
    assert_eq!(find_repeated(&pairs), None);
    assert_eq!(find_repeated(&[Pair::new(1, "x")]), None);
}

#[test]
fn template_bytes_must_be_ascii() {
    assert_eq!(Ch::new(0).ok().map(|c| c.0), Some(0));
    assert_eq!(Ch::new(127).ok().map(|c| c.0), Some(127));
    assert!(Ch::new(128).is_err());
    assert!(Ch::new(255).is_err());
    assert!(v_escape::codegen::generator::Ch::new(127).is_ok());
    assert!(v_escape::codegen::generator::Ch::new(128).is_err());
}

#[test]
fn target_features() {
    assert_eq!(Feature::Avx2.name(), "avx2");
    assert_eq!(Feature::Sse2.name(), "sse2");
    assert_eq!(Feature::Avx2.vector_bytes(), 32);
    assert_eq!(Feature::Sse2.vector_bytes(), 16);
}

#[test]
fn writers() {
    let mut w = WriterVec::new(b"ab".to_vec());
    v_escape::writer::write("cd", &mut w).unwrap();
    write_slice(b"0123456", 2, 5, &mut w).unwrap();
    assert_eq!(w.into_inner(), b"abcd234".to_vec());

    let mut c = WriterCount::new();
    v_escape::writer::write("é€", &mut c).unwrap();
    write_slice(b"0123456", 1, 4, &mut c).unwrap();
    assert_eq!(c.count(), 5 + 3);
}

#[test]
fn html_table_and_size() {
    let expected: &[(u8, &str)] = &[
        (b'<', "&lt;"),
        (b'>', "&gt;"),
        (b'&', "&amp;"),
        (b'"', "&quot;"),
        (b'\'', "&#x27;"),
        (b'/', "&#x2f;"),
    ];
    for b in 0..=255u8 {
        let pos = html::table(b) as usize;
        match expected.iter().position(|(c, _)| *c == b) {
            Some(i) => {
                assert_eq!(pos, i);
                assert_eq!(HtmlEscapes.escape(pos), expected[i].1);
                assert!(HtmlEscapes.byte_byte_compare(b));
            }
            None => {
                assert_eq!(pos, 6);
                assert!(!HtmlEscapes.byte_byte_compare(b));
            }
        }
    }
    let mut pairs: Vec<Pair> = expected.iter().map(|(c, q)| Pair::new(*c as i8, q)).collect();
    sort_pairs(&mut pairs);
    let switch: Switch = Pairs(&pairs).into();
    for b in 0..=255u8 {
        let escaped = expected.iter().any(|(c, _)| *c == b);
        if escaped {
            assert!(switch.lane(b));
            assert!(HtmlEscapes.masking(b));
        }
        assert_eq!(
            HtmlEscapes.masking(b),
            (34..=39).contains(&b) || (60..=62).contains(&b) || b == 47
        );
    }
    for s in samples() {
        let mut w = WriterVec::new(Vec::new());
        html::escape(s.as_bytes(), &mut w).unwrap();
        let out = w.into_inner();
        assert_eq!(html::size(s.as_bytes()), out.len());
        assert_eq!(html::Escape::new(s.as_bytes()).size(), out.len());
        assert_eq!(html::Escape::new(s.as_bytes()).to_string().into_bytes(), out);
        let mut c = WriterCount::new();
        html::avx::escape(s.as_bytes(), &mut c).unwrap();
        assert_eq!(c.count(), out.len());
        assert_eq!(html::avx::size(s.as_bytes()), out.len());
    }
}

#[test]
fn pair_bytes_read_back_as_signed_lanes() {
    for c in [-128i8, -1, 0, 60, 127] {
        let pairs = [Pair::new(c, "q")];
        assert_eq!(pairs[0].ch, c as u8);
        assert_eq!(Pairs(&pairs).ch(0), c);
    }
    let pairs = [v_escape::codegen::generator::Pair::new(200, "q")];
    assert_eq!(v_escape::codegen::generator::Generator::new(&pairs).ch(0), -56);
}
