use unicode_width::{UnicodeWidthChar, UnicodeWidthStr};
use widthgen::cases::{
    cases, char_cases, char_record, collect_strings, emoji_sequences, random_sequences,
    render_cases, str_cases, str_record, width_boundaries, widths_change, INTERESTING,
    RANDOM_COUNT, SEED,
};
use widthgen::encoding::{digits, long_literal};
use widthgen::order::{compare_bytes, sort_dedup, sort_dedup_u32};
use widthgen::rng::Rng;

const BANNER: &str = "-- banner\n";
const NOTICE: &str = "-- notice\n";

const TESTS_SOURCE: &str = "#[test]\nfn t() {\n    assert_eq!(\"abc\".width(), 3);\n    \
                            assert_eq!('\\u{1F600}'.width(), Some(2)); // \"skipped\"\n    \
                            assert_eq!(\"日本語\".width(), 6);\n    assert_eq!(\"abc\".width(), 3);\n}\n";

const EMOJI_TEXT: &str = "# comment; with a semicolon\n\
                          1F600 ; fully-qualified # grinning\n\
                          \n\
                          0023 FE0F 20E3 ; fully-qualified # keycap\n\
                          ZZ ; not hexadecimal\n\
                          D800 ; a surrogate\n\
                          \x20 ; no code points\n\
                          no semicolon here\n";

#[test]
fn random_sequences_are_reproducible() {
    let mut rng = Rng(SEED);
    let s = random_sequences(&mut rng, 3);
    assert_eq!(
        s,
        vec![
            "\u{34F}\u{1F3F4}0\u{644}".to_string(),
            "\u{1780}".to_string(),
            "\u{1F52C}\u{1A15}\u{5D0}\u{4E00}".to_string(),
        ]
    );
    assert_eq!(rng.0, 0x768a_9b48_634a_0684);
}

#[test]
fn interesting_characters_are_characters() {
    assert_eq!(INTERESTING.len(), 104);
    assert!(INTERESTING.iter().all(|&cp| char::from_u32(cp).is_some()));
}

#[test]
fn emoji_lines() {
    let got = emoji_sequences(EMOJI_TEXT);
    assert_eq!(got, vec!["\u{1F600}".to_string(), "#\u{FE0F}\u{20E3}".to_string(), String::new()]);
}

#[test]
fn collected_strings() {
    let (strings, chars) = collect_strings(TESTS_SOURCE, EMOJI_TEXT);
    assert_eq!(chars, vec!['\u{1F600}']);
    assert_eq!(strings.len(), 3 + 1 + 3 + RANDOM_COUNT);
    assert_eq!(
        &strings[..7],
        &["abc", "日本語", "abc", "\u{1F600}", "\u{1F600}", "#\u{FE0F}\u{20E3}", ""].map(String::from)[..]
    );
}

#[test]
fn string_records() {
    let strings = vec!["a".to_string(), "日本".to_string(), "\r\n".to_string()];
    assert_eq!(str_cases(&strings), Some("0101001a0404006日本0101002\r\n".to_string()));
}

#[test]
fn string_records_too_wide() {
    let wide = "日".repeat(3000);
    assert_eq!(str_cases(&[wide]), None);
}

#[test]
fn char_records() {
    assert_eq!(char_cases(&[0x41, 0xD800, 0x7, 0x3000]), "001122000700030033");
}

#[test]
fn boundaries_start() {
    let b = width_boundaries();
    assert_eq!(&b[..8], &[0, 0, 0x1F, 0x20, 0x7E, 0x7F, 0x9F, 0xA0]);
    assert_eq!(b.len() % 2, 0);
}

#[test]
fn sorting_strings() {
    let v = vec!["b", "a", "é", "b", "", "ab", "z"].into_iter().map(String::from).collect();
    assert_eq!(sort_dedup(v), vec!["", "a", "ab", "b", "z", "é"].into_iter().map(String::from).collect::<Vec<_>>());
}

#[test]
fn sorting_numbers() {
    assert_eq!(sort_dedup_u32(&vec![5, 1, 5, 0, 0x10FFFF, 1]), vec![0, 1, 5, 0x10FFFF]);
    assert_eq!(sort_dedup_u32(&vec![]), vec![]);
}

#[test]
fn byte_order() {
    assert_eq!(compare_bytes(b"a", b"b"), -1);
    assert_eq!(compare_bytes(b"ab", b"a"), 1);
    assert_eq!(compare_bytes(b"", b""), 0);
    assert_eq!(compare_bytes(b"\xc3\xa9", b"z"), 1);
}

#[test]
fn cases_render() {
    let out = render_cases(BANNER, NOTICE, 2, "xy", "001122000700");
    let want = format!(
        "-- banner\n--\n-- Inputs, with the widths the crate gives them, for the tests in `Tests.mw`.\n\
         -- 2 strings and 2 characters, some from the crate's own tests.\n--\n-- notice\n\n\
         -- Each: the width (2 digits), the CJK width (2), the length in bytes (3),\n\
         -- then that many bytes of the string itself.\n@cfg(test)\n@pub(pkg) def strCases =\n  \"xy\"\n\n\
         -- Each: the code point (4 digits), then its width and its CJK width, one\n\
         -- digit each: 0 for none, otherwise the width plus one.\n@cfg(test)\n@pub(pkg) def charCases =\n  \"001122000700\"\n"
    );
    assert_eq!(out, want);
}

// The cases file as the generator computes it, written with std and the
// width crate directly, to hold the library to.
fn reference_cases(tests: &str, emoji: &str) -> String {
    let (literals, test_chars) = widthgen::literals::string_literals(tests);
    let mut strings: Vec<String> = literals;
    strings.extend(test_chars.iter().map(|c| c.to_string()));
    for line in emoji.lines() {
        let Some((codes, _)) = line.split_once(';') else {
            continue;
        };
        if line.starts_with('#') {
            continue;
        }
        let seq: Option<String> = codes
            .split_whitespace()
            .map(|h| u32::from_str_radix(h, 16).ok().and_then(char::from_u32))
            .collect();
        if let Some(seq) = seq {
            strings.push(seq);
        }
    }
    let mut rng = Rng(SEED);
    for _ in 0..RANDOM_COUNT {
        let len = 1 + (rng.next() % 8) as usize;
        let seq: String = (0..len)
            .map(|_| char::from_u32(INTERESTING[(rng.next() % INTERESTING.len() as u64) as usize]).unwrap())
            .collect();
        strings.push(seq);
    }
    strings.sort();
    strings.dedup();
    let mut str_cases = String::new();
    for s in &strings {
        digits(&mut str_cases, s.width() as u64, 2);
        digits(&mut str_cases, s.width_cjk() as u64, 2);
        digits(&mut str_cases, s.len() as u64, 3);
        str_cases.push_str(s);
    }
    let mut cps: Vec<u32> = Vec::new();
    let mut last: Option<(Option<usize>, Option<usize>)> = None;
    for cp in 0..0x11_0000u32 {
        let Some(c) = char::from_u32(cp) else {
            continue;
        };
        let now = (c.width(), c.width_cjk());
        if last != Some(now) {
            cps.extend([cp.saturating_sub(1), cp]);
        }
        last = Some(now);
    }
    cps.extend(INTERESTING);
    cps.extend(test_chars.iter().map(|&c| u32::from(c)));
    cps.push(0x10FFFF);
    cps.sort_unstable();
    cps.dedup();
    let mut char_cases = String::new();
    for cp in cps {
        let Some(c) = char::from_u32(cp) else {
            continue;
        };
        let code = |w: Option<usize>| w.map_or(0, |w| w as u64 + 1);
        digits(&mut char_cases, cp.into(), 4);
        digits(&mut char_cases, code(c.width()), 1);
        digits(&mut char_cases, code(c.width_cjk()), 1);
    }
    format!(
        "{BANNER}--\n-- Inputs, with the widths the crate gives them, for the tests in `Tests.mw`.\n\
         -- {} strings and {} characters, some from the crate's own tests.\n--\n{NOTICE}\n\
         -- Each: the width (2 digits), the CJK width (2), the length in bytes (3),\n\
         -- then that many bytes of the string itself.\n@cfg(test)\n@pub(pkg) def strCases =\n  {}\n\n\
         -- Each: the code point (4 digits), then its width and its CJK width, one\n\
         -- digit each: 0 for none, otherwise the width plus one.\n@cfg(test)\n@pub(pkg) def charCases =\n  {}\n",
        strings.len(),
        char_cases.len() / 6,
        long_literal(&str_cases, 96),
        long_literal(&char_cases, 96),
    )
}

#[test]
fn cases_file_matches_reference() {
    let got = cases(TESTS_SOURCE, EMOJI_TEXT, BANNER, NOTICE).unwrap();
    assert_eq!(got, reference_cases(TESTS_SOURCE, EMOJI_TEXT));
}

#[test]
fn string_record_from_given_widths() {
    let mut out = String::from("x");
    assert!(str_record(&mut out, 2, 4, "\u{1F600}"));
    assert_eq!(out, "x0204004\u{1F600}");
    assert!(!str_record(&mut out, 4096, 0, "a"));
    assert!(!str_record(&mut out, 0, 4096, "a"));
    assert_eq!(out, "x0204004\u{1F600}");
}

#[test]
fn char_record_from_given_widths() {
    let mut out = String::new();
    char_record(&mut out, 0x3000, Some(2), Some(2));
    char_record(&mut out, 0x7, None, None);
    char_record(&mut out, 0x10FFFF, Some(0), Some(1));
    assert_eq!(out, "0300330007004?oo12");
}

#[test]
fn width_changes() {
    assert!(widths_change(None, (None, None)));
    assert!(!widths_change(Some((Some(1), Some(1))), (Some(1), Some(1))));
    assert!(widths_change(Some((Some(1), Some(1))), (Some(1), Some(2))));
    assert!(widths_change(Some((Some(1), Some(1))), (None, Some(1))));
}
