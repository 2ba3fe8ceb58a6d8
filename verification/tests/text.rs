use hanumail::text::{
    char_byte_width, char_is_ascii_space, char_is_space, chars_of, lines, split_words, string_of,
    trim_chars,
};

fn chars(s: &str) -> Vec<char> {
    s.chars().collect()
}

#[test]
fn whitespace_is_what_std_calls_whitespace() {
    for u in 0..=0x10FFFFu32 {
        if let Some(c) = char::from_u32(u) {
            assert_eq!(char_is_space(c), c.is_whitespace());
        }
    }
}

#[test]
fn ascii_whitespace_is_what_std_calls_ascii_whitespace() {
    for u in 0..=0x10FFFFu32 {
        if let Some(c) = char::from_u32(u) {
            assert_eq!(char_is_ascii_space(c), c.is_ascii_whitespace());
        }
    }
}

#[test]
fn byte_width_is_the_length_in_utf8() {
    for u in 0..=0x10FFFFu32 {
        if let Some(c) = char::from_u32(u) {
            assert_eq!(char_byte_width(c), c.len_utf8());
        }
    }
    assert_eq!(char_byte_width('a'), 1);
    assert_eq!(char_byte_width('\u{e9}'), 2);
    assert_eq!(char_byte_width('\u{20ac}'), 3);
    assert_eq!(char_byte_width('\u{1f600}'), 4);
}

#[test]
fn strings_and_characters_convert_both_ways() {
    let text = "h\u{e9}llo \u{1f600}\n";
    assert_eq!(chars_of(text), chars(text));
    assert_eq!(string_of(&chars(text)), text);
    assert_eq!(string_of(&[]), "");
    assert_eq!(string_of(&['a', 'b']), "ab");
}

#[test]
fn trim_removes_whitespace_at_both_ends() {
    let texts =
        ["", " ", "a", "  a b  ", "\t\na\r\n", "\u{a0}a\u{2003}", "\u{b}x\u{c}", " \u{3000} "];
    for text in texts {
        assert_eq!(string_of(&trim_chars(&chars(text))), text.trim());
    }
}

#[test]
fn words_are_split_on_ascii_whitespace() {
    let texts =
        ["", " ", "a", "  a b  ", "a\tb\nc\rd\u{c}e", "a\u{a0}b c", "\u{b}x \u{b}", "ab  cd   "];
    for text in texts {
        let got: Vec<String> = split_words(&chars(text)).iter().map(|w| string_of(w)).collect();
        let expected: Vec<String> = text.split_ascii_whitespace().map(|w| w.to_string()).collect();
        assert_eq!(got, expected);
    }
}

#[test]
fn lines_drop_the_line_endings() {
    assert_eq!(lines("a\nb\r\nc"), vec!["a".to_string(), "b".to_string(), "c".to_string()]);
    assert_eq!(lines("a\n\n"), vec!["a".to_string(), String::new()]);
    assert_eq!(lines("a\rb\r"), vec!["a\rb\r".to_string()]);
    assert!(lines("").is_empty());
}
