use widthgen::literals::{read_literal, string_literals};

fn chars(s: &str) -> Vec<char> {
    s.chars().collect()
}

#[test]
fn read_simple_literal() {
    let s = chars("\"abc\" rest");
    assert_eq!(read_literal(&s, 1, '"'), ("abc".to_string(), 5));
}

#[test]
fn read_escapes() {
    let s = chars(r#""a\n\r\t\0\\\"\'\x41\u{1F600}\u{+41}b""#);
    let (text, end) = read_literal(&s, 1, '"');
    assert_eq!(text, "a\n\r\t\0\\\"'A\u{1F600}Ab");
    assert_eq!(end, s.len());
}

#[test]
fn read_continuation() {
    let s = chars("\"ab\\\n     cd\"");
    assert_eq!(read_literal(&s, 1, '"'), ("abcd".to_string(), s.len()));
}

#[test]
fn read_unterminated() {
    let s = chars("\"abc");
    assert_eq!(read_literal(&s, 1, '"'), ("abc".to_string(), 4));
}

#[test]
fn read_char_and_lifetime() {
    let s = chars("'x' 'static ");
    assert_eq!(read_literal(&s, 1, '\''), ("x".to_string(), 3));
    assert_eq!(read_literal(&s, 5, '\''), (String::new(), 7));
    let s = chars("'\\u{E9}'");
    assert_eq!(read_literal(&s, 1, '\''), ("é".to_string(), s.len()));
}

#[test]
fn literals_of_source() {
    let src = "// \"not this\"\nlet a = \"one\"; let c = 'x'; fn f<'a>(s: &'a str) {} \
               let d = '\\n'; let e = \"t\\u{E9}\"; let b = b\"z";
    let (strings, chars) = string_literals(src);
    assert_eq!(strings, vec!["one".to_string(), "té".to_string()]);
    assert_eq!(chars, vec!['x', '\n']);
}

#[test]
fn byte_string_is_skipped() {
    let (strings, _) = string_literals("b\"x\" \"y\"");
    assert_eq!(strings, vec!["y".to_string()]);
    let (strings, _) = string_literals("b\"xy\" \"z\"");
    assert_eq!(strings, vec!["z".to_string()]);
    let (strings, _) = string_literals("b\"a\\\"b\" \"c\"");
    assert_eq!(strings, vec!["c".to_string()]);
}

#[test]
fn raw_strings_are_skipped() {
    let (strings, _) = string_literals("r#\"a\"b\"# \"c\"");
    assert_eq!(strings, vec!["c".to_string()]);
    let (strings, _) = string_literals("br\"x\" \"y\"");
    assert_eq!(strings, vec!["y".to_string()]);
    let (strings, _) = string_literals("r\"\\\" \"d\" r##\"\"#\"## \"e\"");
    assert_eq!(strings, vec!["d".to_string(), "e".to_string()]);
}

#[test]
fn literals_none() {
    let (strings, chars) = string_literals("fn main() {}");
    assert!(strings.is_empty());
    assert!(chars.is_empty());
}
