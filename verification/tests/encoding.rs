use widthgen::encoding::{
    bytes_as_digits, digits, le3_ranges, long_literal, push_decimal, push_hex, range_table,
    special_table,
};

#[test]
fn digits_most_significant_first() {
    let mut s = String::new();
    digits(&mut s, 65, 2);
    assert_eq!(s, "11");
    digits(&mut s, 4095, 2);
    assert_eq!(s, "11oo");
    digits(&mut s, 0x10FFFF, 4);
    assert_eq!(s, "11oo4?oo");
    digits(&mut s, 0, 3);
    assert_eq!(s, "11oo4?oo000");
}

#[test]
fn digits_read_back_with_a_subtraction() {
    for v in [0u64, 1, 63, 64, 1000, 262143] {
        let mut s = String::new();
        digits(&mut s, v, 3);
        let back = s.chars().fold(0u64, |acc, c| acc * 64 + (c as u64 - '0' as u64));
        assert_eq!(back, v);
        assert!(s.chars().all(|c| ('0'..='o').contains(&c)));
    }
}

#[test]
fn hex_and_decimal() {
    let mut s = String::new();
    push_hex(&mut s, 0);
    push_hex(&mut s, 0x1F600);
    push_decimal(&mut s, 0);
    push_decimal(&mut s, 6000);
    assert_eq!(s, "01F60006000");
}

#[test]
fn literal_plain() {
    assert_eq!(long_literal("ab", 96), "\"ab\"");
    assert_eq!(long_literal("", 96), "\"\"");
}

#[test]
fn literal_escapes() {
    assert_eq!(long_literal("a\"b$c\\", 96), "\"a\\\"b\\$c\\\\\"");
    assert_eq!(long_literal("é\t😀", 96), "\"\\u{E9}\\u{9}\\u{1F600}\"");
}

#[test]
fn literal_breaks_lines() {
    assert_eq!(long_literal("abcde", 2), "\"ab\\\n    cd\\\n    e\"");
    assert_eq!(long_literal("ab cd", 2), "\"ab\\\n    \\x20c\\\n    d\"");
    assert_eq!(long_literal("a b", 2), "\"a \\\n    b\"");
    assert_eq!(long_literal("x", 0), "\"x\"");
}

#[test]
fn literal_is_plain_text() {
    let text = "line\nbreak \u{7} and 日本語 $x \\ \" done";
    let lit = long_literal(text, 5);
    assert!(lit.chars().all(|c| (' '..='~').contains(&c) || c == '\n'));
}

#[test]
fn bytes_two_digits_each() {
    assert_eq!(bytes_as_digits(&[0, 1, 64, 255]), "0001103o");
    assert_eq!(bytes_as_digits(&[]), "");
}

#[test]
fn ranges_four_digits_each() {
    assert_eq!(range_table(&[(0x20, 0x7E), (0x10FFFF, 0x10FFFF)]), "000P001n4?oo4?oo");
}

#[test]
fn specials_twelve_digits_each() {
    assert_eq!(special_table(&[(0xA, 0xA, 1, 1)]), "000:000:1001");
    assert_eq!(special_table(&[(0x17D8, 0x17D8, 3, 0x9006)]).len(), 12);
}

#[test]
fn three_byte_little_endian() {
    let table = [([0x00u8, 0x01, 0x00], [0xFFu8, 0xFF, 0x10]), ([1u8, 2, 3], [1u8, 2, 3])];
    assert_eq!(le3_ranges(&table), vec![(0x100, 0x10FFFF), (0x030201, 0x030201)]);
}

// Reads the inside of a literal the way a reader of the tables does.
fn read_back(lit: &str) -> String {
    let s: Vec<char> = lit[1..lit.len() - 1].chars().collect();
    let mut out = String::new();
    let mut i = 0;
    while i < s.len() {
        if s[i] != '\\' {
            out.push(s[i]);
            i += 1;
            continue;
        }
        match s[i + 1] {
            '"' | '\\' | '$' => {
                out.push(s[i + 1]);
                i += 2;
            }
            'x' => {
                let h: String = s[i + 2..i + 4].iter().collect();
                out.push(char::from(u8::from_str_radix(&h, 16).unwrap()));
                i += 4;
            }
            'u' => {
                let end = i + s[i..].iter().position(|&c| c == '}').unwrap();
                let h: String = s[i + 3..end].iter().collect();
                out.push(char::from_u32(u32::from_str_radix(&h, 16).unwrap()).unwrap());
                i = end + 1;
            }
            '\n' => {
                i += 2;
                while i < s.len() && s[i] == ' ' {
                    i += 1;
                }
            }
            other => panic!("unexpected escape {other}"),
        }
    }
    out
}

#[test]
fn literal_reads_back() {
    for text in ["", "plain", "  spaces  at  starts  ", "$\"\\ and é and 😀", "a\nb\tc"] {
        for width in [1, 2, 3, 96] {
            assert_eq!(read_back(&long_literal(text, width)), text);
        }
    }
}

#[test]
fn bytes_read_back() {
    let bytes: Vec<u8> = (0..=255).collect();
    let s = bytes_as_digits(&bytes);
    let chars: Vec<char> = s.chars().collect();
    assert_eq!(chars.len(), 512);
    for (k, b) in bytes.iter().enumerate() {
        let v = (chars[2 * k] as u32 - 48) * 64 + (chars[2 * k + 1] as u32 - 48);
        assert_eq!(v, *b as u32);
    }
}

#[test]
fn digits_keep_numeric_order() {
    let mut prev = String::new();
    digits(&mut prev, 0, 3);
    for v in [1u64, 63, 64, 65, 4095, 4096, 100000, 262143] {
        let mut s = String::new();
        digits(&mut s, v, 3);
        assert!(prev < s, "{prev} < {s}");
        prev = s;
    }
}

#[test]
fn byte_tables_concatenate() {
    let a = [0u8, 200, 255];
    let b = [64u8, 191];
    let ab = [0u8, 200, 255, 64, 191];
    assert_eq!(bytes_as_digits(&ab), bytes_as_digits(&a) + &bytes_as_digits(&b));
    let all: Vec<u8> = (0..=255).collect();
    let t = bytes_as_digits(&all);
    assert!(t.chars().step_by(2).all(|c| ('0'..='3').contains(&c)));
}

#[test]
fn literal_line_count() {
    for (text, width) in [("", 3usize), ("a", 3), ("abc", 3), ("abcd", 3), ("abcdefg", 3), ("日本語 x", 1)] {
        let lit = long_literal(text, width);
        let n = text.chars().count();
        let want = if n == 0 { 0 } else { (n - 1) / width };
        assert_eq!(lit.matches('\n').count(), want, "{text:?} {width}");
        assert!(lit.starts_with('"') && lit.ends_with('"'));
    }
}
