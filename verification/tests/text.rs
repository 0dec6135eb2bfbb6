use kubesense_log_pattern::text::{any_numeric, tokenize};

#[test]
fn splits_at_white_space() {
    assert_eq!(tokenize("a bc\td\n e", &[]), vec!["a", "bc", "d", "e"]);
}

#[test]
fn splits_at_extra_delimiters() {
    assert_eq!(tokenize("k=v,w  x", &['=', ',']), vec!["k", "v", "w", "x"]);
    assert_eq!(tokenize("k=v,w  x", &[]), vec!["k=v,w", "x"]);
}

#[test]
fn keeps_no_empty_tokens() {
    assert!(tokenize("", &[]).is_empty());
    assert!(tokenize(" \t ", &[]).is_empty());
    assert_eq!(tokenize("  a  ", &[]), vec!["a"]);
    assert_eq!(tokenize(",,a,,b,,", &[',']), vec!["a", "b"]);
}

#[test]
fn splits_between_characters_of_any_width() {
    // U+3000 is white space of three bytes, U+00A0 of two.
    assert_eq!(tokenize("é\u{3000}日本\u{a0}😀x", &[]), vec!["é", "日本", "😀x"]);
    assert_eq!(tokenize("é→日", &['→']), vec!["é", "日"]);
}

#[test]
fn a_delimiter_parts_words() {
    let mut both = tokenize("a b", &[';']);
    both.extend(tokenize("c d", &[';']));
    assert_eq!(tokenize("a b;c d", &[';']), both);
}

#[test]
fn white_space_is_what_is_listed() {
    let listed = |c: char| {
        matches!(
            c,
            '\u{9}'..='\u{d}'
                | ' '
                | '\u{85}'
                | '\u{a0}'
                | '\u{1680}'
                | '\u{2000}'..='\u{200a}'
                | '\u{2028}'
                | '\u{2029}'
                | '\u{202f}'
                | '\u{205f}'
                | '\u{3000}'
        )
    };
    for c in '\0'..=char::MAX {
        let line = c.to_string();
        let tokens = tokenize(&line, &[]);
        if listed(c) {
            assert!(tokens.is_empty(), "{:?}", c);
        } else {
            assert_eq!(tokens, vec![line.as_str()]);
        }
    }
}

#[test]
fn finds_numeric_characters() {
    assert!(any_numeric("a1b"));
    assert!(any_numeric("7"));
    assert!(any_numeric("x¾"));
    assert!(any_numeric("٣"));
    assert!(!any_numeric("abc"));
    assert!(!any_numeric("三"));
    assert!(!any_numeric(""));
}

#[test]
fn joined_words_split_back() {
    for (line, extra) in [("  a,b\t\u{3000}c ", vec![]), ("k=v,w  x", vec!['=', ',']), ("", vec![])] {
        let words = tokenize(line, &extra);
        assert_eq!(tokenize(&words.join(" "), &extra), words);
    }
}

#[test]
fn the_numeric_characters_of_ascii_are_the_digits() {
    for c in '\0'..='\u{7f}' {
        assert_eq!(any_numeric(&c.to_string()), ('0'..='9').contains(&c), "{c:?}");
    }
}
