use topic_broker::text::{chars_of, decode_text, push_decimal, split_words, trim_chars};

fn chars(s: &str) -> Vec<char> {
    s.chars().collect()
}

#[test]
fn chars_of_keeps_every_char() {
    assert_eq!(chars_of("aé\u{3000}z"), vec!['a', 'é', '\u{3000}', 'z']);
    assert_eq!(chars_of(""), Vec::<char>::new());
}

#[test]
fn whitespace_is_unicode_white_space() {
    for c in ['\t', '\n', '\u{b}', '\u{c}', '\r', ' ', '\u{85}', '\u{a0}', '\u{1680}', '\u{2000}', '\u{200a}',
        '\u{2028}', '\u{2029}', '\u{202f}', '\u{205f}', '\u{3000}'] {
        let s = vec!['x', c, 'y', c];
        assert_eq!(trim_chars(&s), vec!['x', c, 'y'], "{:?}", c);
        assert_eq!(split_words(&s), vec![vec!['x'], vec!['y']], "{:?}", c);
    }
    for c in ['a', '0', '\u{200b}', '\u{feff}', '_', '\u{1f}'] {
        let s = vec![c, 'x', c];
        assert_eq!(trim_chars(&s), s.clone(), "{:?}", c);
        assert_eq!(split_words(&s), vec![s.clone()], "{:?}", c);
    }
}

#[test]
fn trim_drops_outer_whitespace_only() {
    assert_eq!(trim_chars(&chars("  a b \n")), chars("a b"));
    assert_eq!(trim_chars(&chars("\u{3000}x\u{a0}")), chars("x"));
    assert_eq!(trim_chars(&chars(" \t ")), Vec::<char>::new());
    assert_eq!(trim_chars(&chars("abc")), chars("abc"));
}

#[test]
fn split_words_on_runs_of_whitespace() {
    let ws = split_words(&chars("  one\ttwo   three\u{2003}four "));
    assert_eq!(ws, vec![chars("one"), chars("two"), chars("three"), chars("four")]);
    assert!(split_words(&chars("   ")).is_empty());
    assert_eq!(split_words(&chars("x")), vec![chars("x")]);
}

#[test]
fn decode_text_accepts_only_utf8() {
    assert_eq!(decode_text("héllo".as_bytes()), Some(chars("héllo")));
    assert_eq!(decode_text(&[0xff, 0x41]), None);
    assert_eq!(decode_text(&[0xe2, 0x82]), None);
    assert_eq!(decode_text(&[]), Some(vec![]));
}

#[test]
fn decimal_numerals() {
    for n in [0usize, 7, 10, 42, 1000, usize::MAX] {
        let mut out = b"n=".to_vec();
        push_decimal(&mut out, n);
        assert_eq!(out, format!("n={}", n).into_bytes());
    }
}

#[test]
fn is_whitespace_agrees_with_std() {
    for u in (0u32..0x3100).chain([0xfeff, 0x10ffff]) {
        if let Some(c) = char::from_u32(u) {
            assert_eq!(topic_broker::text::is_whitespace(c), c.is_whitespace(), "{:#x}", u);
        }
    }
}

#[test]
fn utf8_encoding_of_chars() {
    let s = chars("aé€😀");
    let mut out = b">".to_vec();
    topic_broker::text::push_utf8(&mut out, &s);
    assert_eq!(out, ">aé€😀".as_bytes().to_vec());
}
