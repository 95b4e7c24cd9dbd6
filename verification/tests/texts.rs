use galla::text::{chars_of, same_text, split_text, strip_prefix, trim, trim_end, trim_start, words, CharClass};

#[test]
fn white_space_is_that_of_std() {
    for n in 0..=0x10ffffu32 {
        if let Some(c) = char::from_u32(n) {
            assert_eq!(CharClass::Space.contains(c), c.is_whitespace(), "{n:x}");
        }
    }
}

#[test]
fn words_are_those_of_std() {
    for s in ["", "  ", "mpv", " mpv --loop  x\t\n", "a\u{a0}b\u{3000}", "é ß\u{2028}ü", "\u{85}x"] {
        let expected: Vec<String> = s.split_whitespace().map(|w| w.to_string()).collect();
        assert_eq!(words(s), expected);
    }
}

#[test]
fn trimming_is_that_of_std() {
    for s in ["", " ", "x", "  x y\t", "\u{3000}é\u{85}", "\n\n"] {
        assert_eq!(trim(s, CharClass::Space), s.trim());
        assert_eq!(trim_start(s, CharClass::Space), s.trim_start());
        assert_eq!(trim_end(s, CharClass::Space), s.trim_end());
    }
    for s in ["\"a\"", "''", "'\"x'y\"", "x"] {
        assert_eq!(trim(s, CharClass::Quote), s.trim_matches(|c| c == '"' || c == '\''));
    }
}

#[test]
fn lines_are_split_at_line_feeds() {
    assert_eq!(split_text("a\nb\n\nc", CharClass::LineFeed), vec!["a", "b", "", "c"]);
    assert_eq!(split_text("", CharClass::LineFeed), vec![""]);
    assert_eq!(split_text("é\n", CharClass::LineFeed), vec!["é", ""]);
}

#[test]
fn prefixes_are_stripped() {
    assert_eq!(strip_prefix("player = x", "player"), Some(" = x".to_string()));
    assert_eq!(strip_prefix("play", "player"), None);
    assert_eq!(strip_prefix("playeR", "player"), None);
    assert_eq!(strip_prefix("éa", "é"), Some("a".to_string()));
    assert_eq!(strip_prefix("x", ""), Some("x".to_string()));
}

#[test]
fn characters_and_equality() {
    assert_eq!(chars_of("aé▶"), vec!['a', 'é', '▶']);
    assert!(same_text("aé", "aé"));
    assert!(!same_text("a", "A"));
}
