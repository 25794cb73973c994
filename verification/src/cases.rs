//! Inputs with the widths the width crate gives them: strings from the
//! crate's tests, emoji sequences, random sequences of the characters its
//! state machine treats specially, and the code points either side of every
//! change in its tables.

use vstd::prelude::*;
use unicode_width::{UnicodeWidthChar, UnicodeWidthStr};
use crate::rng::{Rng, xorshift, scramble};
use crate::text::{chars_of, string_of, is_scalar, white_space, is_whitespace, lines, lines_of};
use crate::literals::{hex_value, parse_hex_u32, scan_source, string_literals};
use crate::encoding::{
    decimal, digits, digits_of, digits_value, lemma_digits_roundtrip, literal_of, long_literal,
    pow64, push_decimal,
};
use crate::order::{sort_dedup, sort_dedup_u32};
use crate::trie::SCALARS;
use vstd::utf8::encode_utf8;

verus! {

/// The width `UnicodeWidthChar::width` gives `c`.
pub uninterp spec fn char_width(c: char) -> Option<usize>;

/// The width `UnicodeWidthChar::width_cjk` gives `c`.
pub uninterp spec fn char_width_cjk(c: char) -> Option<usize>;

/// The width `UnicodeWidthStr::width` gives the string of the characters `s`.
pub uninterp spec fn str_width(s: Seq<char>) -> usize;

/// The width `UnicodeWidthStr::width_cjk` gives the string of the characters `s`.
pub uninterp spec fn str_width_cjk(s: Seq<char>) -> usize;

/// A control character: below U+0020, or from U+007F to U+009F.
pub open spec fn is_control(c: char) -> bool {
    (c as u32) < 0x20 || (0x7F <= (c as u32) && (c as u32) < 0xA0)
}

/// Wraps `UnicodeWidthChar::width`. The crate gives `None` exactly for a
/// control character, 1 for the rest of ASCII, and otherwise the first of
/// the pair its lookup answers, which is at most 3. Which width a character
/// above ASCII gets is named, not stated.
#[verifier::external_body]
fn width_of_char(c: char) -> (w: Option<usize>)
    ensures
        w == char_width(c),
        w is None <==> is_control(c),
        0x20 <= (c as u32) < 0x7F ==> w == Some(1usize),
        w matches Some(n) ==> n <= 3,
{
    UnicodeWidthChar::width(c)
}

/// Wraps `UnicodeWidthChar::width_cjk`, with the same facts as `width_of_char`.
#[verifier::external_body]
fn width_cjk_of_char(c: char) -> (w: Option<usize>)
    ensures
        w == char_width_cjk(c),
        w is None <==> is_control(c),
        0x20 <= (c as u32) < 0x7F ==> w == Some(1usize),
        w matches Some(n) ==> n <= 3,
{
    UnicodeWidthChar::width_cjk(c)
}

/// Wraps `UnicodeWidthStr::width`; what it returns is named, not stated.
#[verifier::external_body]
fn width_of_str(s: &str) -> (w: usize)
    ensures
        w == str_width(s@),
{
    UnicodeWidthStr::width(s)
}

/// Wraps `UnicodeWidthStr::width_cjk`; what it returns is named, not stated.
#[verifier::external_body]
fn width_cjk_of_str(s: &str) -> (w: usize)
    ensures
        w == str_width_cjk(s@),
{
    UnicodeWidthStr::width_cjk(s)
}

/// The characters the state machine treats specially, and some it does not,
/// so that random sequences of them reach every branch: line breaks and
/// ASCII; joiners and selectors; quotes that VS1-3 widen; emoji, modifiers,
/// regional indicators, tags; Arabic alef, lam and transparent marks; the
/// solidus overlay; Hebrew, Khmer, Buginese, Tifinagh, Lisu, Old Turkic,
/// Kirat Rai; wide and ambiguous characters, Hangul jamo; Devanagari.
pub const INTERESTING: [u32; 104] = [
    0x0A, 0x0D, 0x20, 0x23, 0x2A, 0x30, 0x39, 0x3C, 0x3D, 0x3E, 0x61, 0x7F, 0xAD,
    0x200D, 0x200B, 0x34F, 0x180B, 0x180F, 0x17B4, 0xFE00, 0xFE01, 0xFE02, 0xFE0E, 0xFE0F, 0xE0100,
    0x20E3,
    0x2018, 0x2019, 0x201C, 0x201D,
    0x1F468, 0x1F469, 0x1F466, 0x2764, 0x263A, 0x261D, 0x1F44D, 0x1F3FB, 0x1F3FF, 0x1F1E6, 0x1F1FA,
    0x1F1F8, 0x1F1FF, 0x1F3F4, 0xE0030, 0xE0039, 0xE0061, 0xE0067, 0xE007A, 0xE007F, 0x1F9D1,
    0x1F52C, 0x2B50, 0x231A,
    0x622, 0x627, 0x644, 0x6B5, 0x6B8, 0x76A, 0x8A6, 0x8C7, 0x610, 0x64B, 0x670, 0x6DD,
    0x338, 0x301, 0x300,
    0x5D0, 0x5DC, 0x1780, 0x17AF, 0x17D2, 0x17D8, 0x1A10, 0x1A15, 0x1A17, 0x2D31, 0x2D65, 0x2D6F,
    0x2D7F, 0xA4F8, 0xA4FB, 0xA4FC, 0xA4FD, 0x10C03, 0x10C32, 0x16D63, 0x16D67, 0x16D68, 0x16D69,
    0x4E00, 0xFF48, 0x2081, 0x3000, 0x1100, 0x1160, 0x11A8, 0xAC00, 0xD7B0,
    0x915, 0x94D, 0x937,
];

/// The seed of the random sequences.
pub const SEED: u64 = 0x5eed_ba11_c0ff_ee42;

/// The number of random sequences.
pub const RANDOM_COUNT: usize = 6000;

/// `n` characters drawn from `INTERESTING` by the generator in state `s`:
/// the state afterwards, and the characters.
pub open spec fn random_chars(s: u64, n: nat) -> (u64, Seq<char>)
    decreases n,
{
    if n == 0 {
        (s, Seq::empty())
    } else {
        let (s1, cs) = random_chars(s, (n - 1) as nat);
        let s2 = xorshift(s1);
        (s2, cs.push(INTERESTING[(scramble(s2) as nat % 104) as int] as char))
    }
}

/// `n` sequences drawn by the generator in state `s`, each of 1 to 8
/// characters: the state afterwards, and the sequences.
pub open spec fn random_strings(s: u64, n: nat) -> (u64, Seq<Seq<char>>)
    decreases n,
{
    if n == 0 {
        (s, Seq::empty())
    } else {
        let (s1, ss) = random_strings(s, (n - 1) as nat);
        let s2 = xorshift(s1);
        let len = 1 + scramble(s2) as nat % 8;
        let (s3, cs) = random_chars(s2, len);
        (s3, ss.push(cs))
    }
}

proof fn lemma_interesting_scalar()
    ensures
        forall|i: int| 0 <= i < 104 ==> is_scalar(#[trigger] INTERESTING@[i] as int),
{
}

/// `n` characters drawn from `INTERESTING` by `rng`.
fn draw_chars(rng: &mut Rng, n: usize) -> (cs: Vec<char>)
    ensures
        (final(rng).0, cs@) == random_chars(old(rng).0, n as nat),
{
    proof {
        lemma_interesting_scalar();
    }
    let mut cs: Vec<char> = Vec::new();
    let mut j: usize = 0;
    while j < n
        invariant
            j <= n,
            forall|i: int| 0 <= i < 104 ==> is_scalar(#[trigger] INTERESTING@[i] as int),
            (rng.0, cs@) == random_chars(old(rng).0, j as nat),
        decreases n - j,
    {
        let k = rng.below(104);
        let c = char::from_u32(INTERESTING[k]);
        match c {
            Some(c) => cs.push(c),
            None => {
                proof {
                    assert(is_scalar(INTERESTING@[k as int] as int));
                }
            },
        }
        j += 1;
    }
    cs
}

proof fn lemma_random_strings_len(s: u64, n: nat)
    ensures
        random_strings(s, n).1.len() == n,
    decreases n,
{
    if n > 0 {
        lemma_random_strings_len(s, (n - 1) as nat);
    }
}

proof fn lemma_random_strings_step(
    s: u64,
    i: nat,
    s1: u64,
    ss: Seq<Seq<char>>,
    s3: u64,
    cs: Seq<char>,
)
    requires
        random_strings(s, i) == (s1, ss),
        random_chars(xorshift(s1), 1 + scramble(xorshift(s1)) as nat % 8) == (s3, cs),
    ensures
        random_strings(s, i + 1) == (s3, ss.push(cs)),
{
}

/// `count` random sequences over `INTERESTING`, drawn by `rng`.
pub fn random_sequences(rng: &mut Rng, count: usize) -> (out: Vec<String>)
    ensures
        final(rng).0 == random_strings(old(rng).0, count as nat).0,
        out@.len() == count,
        forall|k: int|
            0 <= k < count ==> #[trigger] out@[k]@ == random_strings(old(rng).0, count as nat).1[k],
{
    let mut out: Vec<String> = Vec::new();
    let ghost mut expect: Seq<Seq<char>> = Seq::empty();
    let mut i: usize = 0;
    while i < count
        invariant
            i <= count,
            random_strings(old(rng).0, i as nat) == (rng.0, expect),
            out@.len() == i,
            expect.len() == i,
            forall|k: int| 0 <= k < i ==> #[trigger] out@[k]@ == expect[k],
        decreases count - i,
    {
        let ghost s1 = rng.0;
        let len = 1 + rng.below(8);
        let cs = draw_chars(rng, len);
        proof {
            lemma_random_strings_step(old(rng).0, i as nat, s1, expect, rng.0, cs@);
            expect = expect.push(cs@);
        }
        out.push(string_of(&cs));
        i += 1;
    }
    out
}


/// The words of `s`: its maximal runs of characters that are not white
/// space, in order, as `str::split_whitespace` gives them.
pub open spec fn words_of(s: Seq<char>) -> Seq<Seq<char>>
    decreases s.len(),
{
    if s.len() == 0 {
        Seq::empty()
    } else {
        let w = words_of(s.drop_last());
        let c = s.last();
        if white_space(c) {
            w
        } else if s.len() >= 2 && !white_space(s[s.len() - 2]) {
            w.update(w.len() - 1, w.last().push(c))
        } else {
            w.push(seq![c])
        }
    }
}

proof fn lemma_words_nonempty(s: Seq<char>)
    ensures
        s.len() > 0 && !white_space(s.last()) ==> words_of(s).len() > 0,
        forall|k: int| 0 <= k < words_of(s).len() ==> #[trigger] words_of(s)[k].len() > 0,
    decreases s.len(),
{
    if s.len() > 0 {
        lemma_words_nonempty(s.drop_last());
        let d = s.drop_last();
        if !white_space(s.last()) && s.len() >= 2 && !white_space(s[s.len() - 2]) {
            assert(d.last() == s[s.len() - 2]);
        }
    }
}

/// The character a word of hexadecimal digits names, as
/// `u32::from_str_radix(word, 16)` and `char::from_u32` read it.
pub open spec fn word_char(w: Seq<char>) -> Option<char> {
    match hex_value(w) {
        Some(v) => if v <= 0xFFFF_FFFF && is_scalar(v as int) {
            Some(v as char)
        } else {
            None
        },
        None => None,
    }
}

/// The characters the words name, or `None` if one names none.
pub open spec fn words_chars(ws: Seq<Seq<char>>) -> Option<Seq<char>>
    decreases ws.len(),
{
    if ws.len() == 0 {
        Some(Seq::empty())
    } else {
        match (words_chars(ws.drop_last()), word_char(ws.last())) {
            (Some(cs), Some(c)) => Some(cs.push(c)),
            _ => None,
        }
    }
}

/// The index of the first `;` in `line`.
pub open spec fn first_semicolon(line: Seq<char>) -> Option<int> {
    if exists|i: int| 0 <= i < line.len() && line[i] == ';' {
        Some(choose|i: int| 0 <= i < line.len() && line[i] == ';' && forall|j: int| 0 <= j < i ==> line[j] != ';')
    } else {
        None
    }
}

/// The sequence a line of the emoji test file gives: a line with a `;`
/// that is not a comment gives the characters its code points before the
/// `;` name, if they all name one.
pub open spec fn emoji_line(line: Seq<char>) -> Option<Seq<char>> {
    match first_semicolon(line) {
        None => None,
        Some(p) => if line.len() > 0 && line[0] == '#' {
            None
        } else {
            words_chars(words_of(line.take(p)))
        },
    }
}

proof fn lemma_first_semicolon(a: Seq<char>, b: Seq<char>)
    requires
        !a.contains(';'),
    ensures
        first_semicolon(a + seq![';'] + b) == Some(a.len() as int),
{
    let line = a + seq![';'] + b;
    assert(line[a.len() as int] == ';');
    assert forall|j: int| 0 <= j < a.len() implies line[j] != ';' by {
        assert(line[j] == a[j]);
    }
    let i = choose|i: int| 0 <= i < line.len() && line[i] == ';' && forall|j: int| 0 <= j < i ==> line[j] != ';';
    if i < a.len() {
        assert(line[i] == a[i]);
        assert(a.contains(';'));
    }
}

/// A line of the emoji test file gives the same as any other line with the
/// same text before its first `;`: what follows the `;` (the status, such as
/// `unqualified`, and the comment) changes nothing. A line whose text
/// before the `;` does not start with `#` gives what its words there name.
pub proof fn lemma_emoji_line_before_semicolon(a: Seq<char>, b: Seq<char>, b2: Seq<char>)
    requires
        !a.contains(';'),
    ensures
        emoji_line(a + seq![';'] + b) == emoji_line(a + seq![';'] + b2),
        !(a.len() > 0 && a[0] == '#') ==> emoji_line(a + seq![';'] + b) == words_chars(
            words_of(a),
        ),
{
    lemma_first_semicolon(a, b);
    lemma_first_semicolon(a, b2);
    let l1 = a + seq![';'] + b;
    let l2 = a + seq![';'] + b2;
    assert(l1.take(a.len() as int) =~= a);
    assert(l2.take(a.len() as int) =~= a);
    if a.len() > 0 {
        assert(l1[0] == a[0] && l2[0] == a[0]);
    } else {
        assert(l1[0] == ';' && l2[0] == ';');
    }
}

proof fn lemma_words_of_word(w: Seq<char>)
    requires
        w.len() > 0,
        forall|i: int| 0 <= i < w.len() ==> !white_space(#[trigger] w[i]),
    ensures
        words_of(w) == seq![w],
    decreases w.len(),
{
    assert(!white_space(w[w.len() - 1]));
    if w.len() == 1 {
        assert(w.drop_last() =~= Seq::<char>::empty());
        assert(seq![w.last()] =~= w);
        assert(words_of(w.drop_last()) == Seq::<Seq<char>>::empty());
        assert(words_of(w) =~= seq![w]);
    } else {
        let d = w.drop_last();
        assert forall|i: int| 0 <= i < d.len() implies !white_space(#[trigger] d[i]) by {
            assert(d[i] == w[i]);
        }
        lemma_words_of_word(d);
        assert(!white_space(w[w.len() - 2]));
        assert(d.push(w.last()) =~= w);
        assert(seq![d].update(0, d.push(w.last())) =~= seq![w]);
    }
}

/// A line that is one code point, then `;` and anything at all, gives the
/// character that code point names, where it names one, and nothing
/// otherwise.
pub proof fn lemma_emoji_line_one_code_point(w: Seq<char>, b: Seq<char>)
    requires
        w.len() > 0,
        w[0] != '#',
        forall|i: int| 0 <= i < w.len() ==> !white_space(#[trigger] w[i]) && w[i] != ';',
    ensures
        emoji_line(w + seq![';'] + b) == match word_char(w) {
            Some(c) => Some(seq![c]),
            None => None::<Seq<char>>,
        },
{
    assert(!w.contains(';')) by {
        if w.contains(';') {
            let i = choose|i: int| 0 <= i < w.len() && w[i] == ';';
            assert(w[i] != ';');
        }
    }
    lemma_emoji_line_before_semicolon(w, b, b);
    lemma_words_of_word(w);
    let ws = seq![w];
    assert(ws.drop_last() =~= Seq::<Seq<char>>::empty());
    assert(ws.last() == w);
    assert(words_chars(Seq::<Seq<char>>::empty()) == Some(Seq::<char>::empty()));
    if let Some(c) = word_char(w) {
        assert(Seq::<char>::empty().push(c) =~= seq![c]);
    }
}

/// A word of hexadecimal digits names the character with that value: a
/// word that is one digit names the character with the digit's value.
pub proof fn lemma_word_char_digit(c: char)
    requires
        crate::literals::hex_digit(c) is Some,
    ensures
        word_char(seq![c]) == Some((crate::literals::hex_digit(c)->0) as char),
{
    let h = seq![c];
    assert(h.drop_last() =~= Seq::<char>::empty());
    crate::literals::lemma_hex_digit_values(c);
    assert(h[0] != '+');
    assert(h.last() == c);
    assert(crate::literals::hex_digits_value(h.drop_last()) == Some(0nat));
    assert(crate::literals::hex_digits_value(h) == Some(crate::literals::hex_digit(c)->0));
    assert(hex_value(h) == Some(crate::literals::hex_digit(c)->0));
}

/// The sequences the lines give, in order.
pub open spec fn emoji_seqs(lines: Seq<Seq<char>>) -> Seq<Seq<char>>
    decreases lines.len(),
{
    if lines.len() == 0 {
        Seq::empty()
    } else {
        let prev = emoji_seqs(lines.drop_last());
        match emoji_line(lines.last()) {
            Some(cs) => prev.push(cs),
            None => prev,
        }
    }
}

/// The words of `s` (see `words_of`).
fn split_words(s: &Vec<char>, end: usize) -> (out: Vec<Vec<char>>)
    requires
        end <= s@.len(),
    ensures
        out@.len() == words_of(s@.take(end as int)).len(),
        forall|k: int| 0 <= k < out@.len() ==> #[trigger] out@[k]@ == words_of(s@.take(end as int))[k],
{
    let mut out: Vec<Vec<char>> = Vec::new();
    let mut i: usize = 0;
    while i < end
        invariant
            i <= end <= s@.len(),
            out@.len() == words_of(s@.take(i as int)).len(),
            forall|k: int| 0 <= k < out@.len() ==> #[trigger] out@[k]@ == words_of(s@.take(i as int))[k],
        decreases end - i,
    {
        let c = s[i];
        let ghost t = s@.take(i as int + 1);
        assert(t.drop_last() =~= s@.take(i as int));
        if is_whitespace(c) {
        } else if i >= 1 && !is_whitespace(s[i - 1]) {
            proof {
                assert(t[t.len() - 2] == s@[i - 1]);
                lemma_words_nonempty(s@.take(i as int));
                assert(s@.take(i as int).last() == s@[i - 1]);
            }
            let n = out.len();
            let mut w = out.remove(n - 1);
            w.push(c);
            out.push(w);
            proof {
                assert forall|k: int| 0 <= k < out@.len() implies #[trigger] out@[k]@ == words_of(t)[k] by {
                }
            }
        } else {
            let mut w: Vec<char> = Vec::new();
            w.push(c);
            out.push(w);
            proof {
                assert(out@[out@.len() - 1]@ =~= seq![c]);
                assert forall|k: int| 0 <= k < out@.len() implies #[trigger] out@[k]@ == words_of(t)[k] by {
                }
            }
        }
        i += 1;
    }
    out
}

/// The characters the words name (see `words_chars`).
fn parse_words(ws: &Vec<Vec<char>>) -> (r: Option<Vec<char>>)
    ensures
        r matches Some(cs) ==> words_chars(ws@.map_values(|w: Vec<char>| w@)) == Some(cs@),
        r is None ==> words_chars(ws@.map_values(|w: Vec<char>| w@)) is None,
{
    let ghost all = ws@.map_values(|w: Vec<char>| w@);
    let mut cs: Vec<char> = Vec::new();
    let mut k: usize = 0;
    while k < ws.len()
        invariant
            k <= ws@.len(),
            all == ws@.map_values(|w: Vec<char>| w@),
            words_chars(all.take(k as int)) == Some(cs@),
        decreases ws@.len() - k,
    {
        let w = &ws[k];
        assert(all.take(k as int + 1).drop_last() =~= all.take(k as int));
        assert(all.take(k as int + 1).last() == w@);
        let v = parse_hex_u32(w.as_slice(), 0, w.len());
        assert(w@.subrange(0, w@.len() as int) =~= w@);
        match v {
            Some(v) => match char::from_u32(v) {
                Some(c) => cs.push(c),
                None => {
                    proof {
                        lemma_words_chars_none_extends(all, k as int + 1);
                    }
                    return None;
                },
            },
            None => {
                proof {
                    lemma_words_chars_none_extends(all, k as int + 1);
                }
                return None;
            },
        }
        k += 1;
    }
    assert(all.take(k as int) =~= all);
    Some(cs)
}

/// Once a word names no character, the words name none.
proof fn lemma_words_chars_none_extends(ws: Seq<Seq<char>>, n: int)
    requires
        0 <= n <= ws.len(),
        words_chars(ws.take(n)) is None,
    ensures
        words_chars(ws) is None,
    decreases ws.len() - n,
{
    if n < ws.len() {
        assert(ws.take(n + 1).drop_last() =~= ws.take(n));
        lemma_words_chars_none_extends(ws, n + 1);
    } else {
        assert(ws.take(n) =~= ws);
    }
}

/// The sequence one line of the emoji test file gives (see `emoji_line`).
fn emoji_line_chars(line: &Vec<char>) -> (r: Option<Vec<char>>)
    ensures
        r matches Some(cs) ==> emoji_line(line@) == Some(cs@),
        r is None ==> emoji_line(line@) is None,
{
    let mut p: usize = 0;
    while p < line.len() && line[p] != ';'
        invariant
            p <= line@.len(),
            forall|j: int| 0 <= j < p ==> line@[j] != ';',
        decreases line@.len() - p,
    {
        p += 1;
    }
    if p == line.len() {
        return None;
    }
    assert(first_semicolon(line@) == Some(p as int));
    if line.len() > 0 && line[0] == '#' {
        return None;
    }
    let ws = split_words(line, p);
    assert(ws@.map_values(|w: Vec<char>| w@) =~= words_of(line@.take(p as int)));
    parse_words(&ws)
}

/// Every sequence in the emoji test file `text`, qualified or not: for each
/// line that is not a comment and has a `;`, the characters named by the
/// hexadecimal code points before the `;`, if they all name one.
pub fn emoji_sequences(text: &str) -> (out: Vec<String>)
    ensures
        out@.len() == emoji_seqs(lines_of(text@)).len(),
        forall|k: int| 0 <= k < out@.len() ==> #[trigger] out@[k]@ == emoji_seqs(lines_of(text@))[k],
{
    let cs = chars_of(text);
    let ls = lines(&cs);
    let ghost all = lines_of(text@);
    let mut out: Vec<String> = Vec::new();
    let mut i: usize = 0;
    while i < ls.len()
        invariant
            i <= ls@.len(),
            all == lines_of(text@),
            ls@.len() == all.len(),
            forall|k: int| 0 <= k < ls@.len() ==> #[trigger] ls@[k]@ == all[k],
            out@.len() == emoji_seqs(all.take(i as int)).len(),
            forall|k: int| 0 <= k < out@.len() ==> #[trigger] out@[k]@ == emoji_seqs(all.take(i as int))[k],
        decreases ls@.len() - i,
    {
        let ghost t = all.take(i as int + 1);
        assert(t.drop_last() =~= all.take(i as int));
        assert(t.last() == ls@[i as int]@);
        match emoji_line_chars(&ls[i]) {
            Some(seq) => {
                out.push(string_of(&seq));
            },
            None => {},
        }
        i += 1;
    }
    assert(all.take(i as int) =~= all);
    out
}


/// The strings the cases are made of, before sorting: every string literal
/// of the crate's tests `tests`, each of its character literals as a string
/// of one character, every sequence of the emoji test file `emoji`, and the
/// random sequences.
pub open spec fn collected(tests: Seq<char>, emoji: Seq<char>) -> Seq<Seq<char>> {
    let (strings, chars) = scan_source(tests, 0, Seq::empty(), Seq::empty())->0;
    strings + chars.map_values(|c: char| seq![c]) + emoji_seqs(lines_of(emoji)) + random_strings(
        SEED,
        RANDOM_COUNT as nat,
    ).1
}

/// The strings the cases are made of, before sorting (see `collected`), and
/// the characters of the character literals of `tests`.
pub fn collect_strings(tests: &str, emoji: &str) -> (r: (Vec<String>, Vec<char>))
    requires
        scan_source(tests@, 0, Seq::empty(), Seq::empty()) is Some,
    ensures
        r.0@.len() == collected(tests@, emoji@).len(),
        forall|k: int| 0 <= k < r.0@.len() ==> #[trigger] r.0@[k]@ == collected(tests@, emoji@)[k],
        r.1@ == (scan_source(tests@, 0, Seq::empty(), Seq::empty())->0).1,
{
    let ghost want = collected(tests@, emoji@);
    let (literals, test_chars) = string_literals(tests);
    let ghost (ls, lc) = scan_source(tests@, 0, Seq::empty(), Seq::empty())->0;
    let ghost parts = ls + lc.map_values(|c: char| seq![c]) + emoji_seqs(lines_of(emoji@));
    let mut strings: Vec<String> = Vec::new();
    let mut i: usize = 0;
    while i < literals.len()
        invariant
            i <= literals@.len(),
            literals@.len() == ls.len(),
            forall|k: int| 0 <= k < ls.len() ==> #[trigger] literals@[k]@ == ls[k],
            strings@.len() == i,
            forall|k: int| 0 <= k < i ==> #[trigger] strings@[k]@ == ls[k],
        decreases literals@.len() - i,
    {
        strings.push(literals[i].clone());
        i += 1;
    }
    let mut j: usize = 0;
    while j < test_chars.len()
        invariant
            j <= test_chars@.len(),
            test_chars@ == lc,
            strings@.len() == ls.len() + j,
            forall|k: int| 0 <= k < ls.len() ==> #[trigger] strings@[k]@ == ls[k],
            forall|k: int|
                0 <= k < j ==> #[trigger] strings@[ls.len() + k]@ == seq![lc[k]],
        decreases test_chars@.len() - j,
    {
        let mut one: Vec<char> = Vec::new();
        one.push(test_chars[j]);
        assert(one@ =~= seq![lc[j as int]]);
        strings.push(string_of(&one));
        j += 1;
    }
    let emoji_strings = emoji_sequences(emoji);
    let ghost es = emoji_seqs(lines_of(emoji@));
    let ghost before = strings@;
    let mut e: usize = 0;
    while e < emoji_strings.len()
        invariant
            e <= emoji_strings@.len(),
            emoji_strings@.len() == es.len(),
            forall|k: int| 0 <= k < es.len() ==> #[trigger] emoji_strings@[k]@ == es[k],
            strings@.len() == before.len() + e,
            forall|k: int| 0 <= k < before.len() ==> #[trigger] strings@[k] == before[k],
            forall|k: int| 0 <= k < e ==> #[trigger] strings@[before.len() + k]@ == es[k],
        decreases emoji_strings@.len() - e,
    {
        strings.push(emoji_strings[e].clone());
        e += 1;
    }
    let mut rng = Rng(SEED);
    let randoms = random_sequences(&mut rng, RANDOM_COUNT);
    let ghost rs = random_strings(SEED, RANDOM_COUNT as nat).1;
    proof {
        lemma_random_strings_len(SEED, RANDOM_COUNT as nat);
    }
    let ghost mid = strings@;
    let mut q: usize = 0;
    while q < randoms.len()
        invariant
            q <= randoms@.len(),
            randoms@.len() == rs.len(),
            forall|k: int| 0 <= k < rs.len() ==> #[trigger] randoms@[k]@ == rs[k],
            strings@.len() == mid.len() + q,
            forall|k: int| 0 <= k < mid.len() ==> #[trigger] strings@[k] == mid[k],
            forall|k: int| 0 <= k < q ==> #[trigger] strings@[mid.len() + k]@ == rs[k],
        decreases randoms@.len() - q,
    {
        strings.push(randoms[q].clone());
        q += 1;
    }
    proof {
        assert(want == parts + rs);
        assert forall|k: int| 0 <= k < strings@.len() implies #[trigger] strings@[k]@ == want[k] by {
            if k >= mid.len() {
                assert(strings@[mid.len() + (k - mid.len())]@ == rs[k - mid.len()]);
            } else {
                assert(strings@[k] == mid[k]);
                if k >= before.len() {
                    assert(mid[before.len() + (k - before.len())]@ == es[k - before.len()]);
                } else {
                    assert(mid[k] == before[k]);
                    if k >= ls.len() {
                        assert(before[ls.len() + (k - ls.len())]@ == seq![lc[k - ls.len()]]);
                    }
                }
            }
        }
    }
    (strings, test_chars)
}

/// Whether the string `s`, with widths `w` and `wc`, fits its record: its
/// widths in two digits each, its length in bytes in three.
pub open spec fn str_record_fits(w: nat, wc: nat, s: Seq<char>) -> bool {
    &&& w < pow64(2)
    &&& wc < pow64(2)
    &&& encode_utf8(s).len() < pow64(3)
}

/// The record of the string `s` with widths `w` and `wc`: the width (two
/// digits), the CJK width (two), the length in bytes (three), then `s`.
pub open spec fn str_record_text(w: nat, wc: nat, s: Seq<char>) -> Seq<char> {
    digits_of(w, 2) + digits_of(wc, 2) + digits_of(encode_utf8(s).len(), 3) + s
}

/// Whether a string fits its record with the widths the width crate gives it.
pub open spec fn str_case_fits(s: Seq<char>) -> bool {
    str_record_fits(str_width(s) as nat, str_width_cjk(s) as nat, s)
}

/// The record of one string, with the widths the width crate gives it.
pub open spec fn str_case(s: Seq<char>) -> Seq<char> {
    str_record_text(str_width(s) as nat, str_width_cjk(s) as nat, s)
}

/// Appends to `out` the record of the string `s` whose widths are `w` and
/// `wc` (see `str_record_text`) and answers `true`; where it does not fit
/// its record, leaves `out` as it is and answers `false`.
pub fn str_record(out: &mut String, w: usize, wc: usize, s: &str) -> (ok: bool)
    ensures
        ok == str_record_fits(w as nat, wc as nat, s@),
        ok ==> final(out)@ == old(out)@ + str_record_text(w as nat, wc as nat, s@),
        !ok ==> final(out)@ == old(out)@,
{
    assert(pow64(2) == 4096 && pow64(3) == 262144) by {
        reveal_with_fuel(pow64, 4);
    }
    let n = s.as_bytes().len();
    if w >= 4096 || wc >= 4096 || n >= 262144 {
        return false;
    }
    digits(out, w as u64, 2);
    digits(out, wc as u64, 2);
    digits(out, n as u64, 3);
    out.append(s);
    true
}

/// The records of `strings`, one after another.
pub open spec fn str_cases_text(strings: Seq<Seq<char>>) -> Seq<char>
    decreases strings.len(),
{
    if strings.len() == 0 {
        Seq::empty()
    } else {
        str_cases_text(strings.drop_last()) + str_case(strings.last())
    }
}

/// The records of `strings` (see `str_case`), or `None` if one of them
/// does not fit its record.
pub fn str_cases(strings: &[String]) -> (r: Option<String>)
    ensures
        r is Some <==> forall|k: int| 0 <= k < strings@.len() ==> str_case_fits(#[trigger] strings@[k]@),
        r matches Some(t) ==> t@ == str_cases_text(strings@.map_values(|s: String| s@)),
{
    let ghost all = strings@.map_values(|s: String| s@);
    let mut out = String::new();
    let mut i: usize = 0;
    while i < strings.len()
        invariant
            i <= strings@.len(),
            all == strings@.map_values(|s: String| s@),
            forall|k: int| 0 <= k < i ==> str_case_fits(#[trigger] strings@[k]@),
            out@ == str_cases_text(all.take(i as int)),
        decreases strings@.len() - i,
    {
        let s = strings[i].as_str();
        let w = width_of_str(s);
        let wc = width_cjk_of_str(s);
        if !str_record(&mut out, w, wc, s) {
            assert(!str_case_fits(strings@[i as int]@));
            return None;
        }
        assert(all.take(i as int + 1).drop_last() =~= all.take(i as int));
        assert(all.take(i as int + 1).last() == s@);
        assert(out@ =~= str_cases_text(all.take(i as int + 1)));
        i += 1;
    }
    assert(all.take(i as int) =~= all);
    Some(out)
}


/// The two widths of the character with scalar value `cp`.
pub open spec fn widths(cp: u32) -> (Option<usize>, Option<usize>) {
    (char_width(cp as char), char_width_cjk(cp as char))
}

/// Walking the scalar values below `n` in order: the widths of the last
/// one, and the code points either side of every change in the widths
/// (`cp - 1` and `cp`, or `0` twice at the start).
pub open spec fn boundaries(n: nat) -> (Option<(Option<usize>, Option<usize>)>, Seq<u32>)
    decreases n,
{
    if n == 0 {
        (None, Seq::empty())
    } else {
        let (last, cps) = boundaries((n - 1) as nat);
        let cp = (n - 1) as u32;
        if !is_scalar(cp as int) {
            (last, cps)
        } else if last != Some(widths(cp)) {
            (Some(widths(cp)), cps + seq![if cp == 0 { 0 } else { (cp - 1) as u32 }, cp])
        } else {
            (last, cps)
        }
    }
}

/// The code points either side of every change in the widths, over all
/// scalar values (see `boundaries`).
pub fn width_boundaries() -> (out: Vec<u32>)
    ensures
        out@ == boundaries(SCALARS as nat).1,
{
    let mut out: Vec<u32> = Vec::new();
    let mut last: Option<(Option<usize>, Option<usize>)> = None;
    let mut cp: u32 = 0;
    while cp < SCALARS
        invariant
            cp <= SCALARS,
            (last, out@) == boundaries(cp as nat),
        decreases SCALARS - cp,
    {
        match char::from_u32(cp) {
            None => {},
            Some(c) => {
                let now = (width_of_char(c), width_cjk_of_char(c));
                if widths_change(last, now) {
                    out.push(cp.saturating_sub(1));
                    out.push(cp);
                    assert(out@ =~= boundaries(cp as nat).1 + seq![
                        if cp == 0 { 0 } else { (cp - 1) as u32 },
                        cp,
                    ]);
                }
                last = Some(now);
            },
        }
        cp += 1;
    }
    out
}

/// Whether two optional widths are the same.
fn opt_eq(a: Option<usize>, b: Option<usize>) -> (r: bool)
    ensures
        r == (a == b),
{
    match (a, b) {
        (None, None) => true,
        (Some(x), Some(y)) => x == y,
        _ => false,
    }
}

/// Whether the widths `now` of a character differ from `last`, those of
/// the scalar value before it (`None` before the first).
pub fn widths_change(
    last: Option<(Option<usize>, Option<usize>)>,
    now: (Option<usize>, Option<usize>),
) -> (r: bool)
    ensures
        r == (last != Some(now)),
{
    match last {
        None => true,
        Some(l) => !(opt_eq(l.0, now.0) && opt_eq(l.1, now.1)),
    }
}

/// A width as one digit: 0 for none, otherwise the width plus one.
pub open spec fn width_code(w: Option<usize>) -> nat {
    match w {
        None => 0,
        Some(w) => (w + 1) as nat,
    }
}

/// The record of the code point `cp` with widths `w` and `wc`: the code
/// point (four digits), then the two widths, one digit each.
pub open spec fn char_record_text(cp: u32, w: Option<usize>, wc: Option<usize>) -> Seq<char> {
    digits_of(cp as nat, 4) + digits_of(width_code(w), 1) + digits_of(width_code(wc), 1)
}

/// Appends to `out` the record of the code point `cp` whose widths are `w`
/// and `wc` (see `char_record_text`).
pub fn char_record(out: &mut String, cp: u32, w: Option<usize>, wc: Option<usize>)
    requires
        cp < pow64(4),
        width_code(w) < pow64(1),
        width_code(wc) < pow64(1),
    ensures
        final(out)@ == old(out)@ + char_record_text(cp, w, wc),
{
    assert(pow64(1) == 64 && pow64(4) == 16777216) by {
        reveal_with_fuel(pow64, 5);
    }
    let code: u64 = match w {
        None => 0,
        Some(w) => w as u64 + 1,
    };
    let code_cjk: u64 = match wc {
        None => 0,
        Some(w) => w as u64 + 1,
    };
    digits(out, cp as u64, 4);
    digits(out, code, 1);
    digits(out, code_cjk, 1);
}

/// The records of the code points `cps` that are scalar values, each with
/// the widths the width crate gives it (see `char_record_text`).
pub open spec fn char_cases_text(cps: Seq<u32>) -> Seq<char>
    decreases cps.len(),
{
    if cps.len() == 0 {
        Seq::empty()
    } else {
        let cp = cps.last();
        char_cases_text(cps.drop_last()) + if is_scalar(cp as int) {
            char_record_text(cp, char_width(cp as char), char_width_cjk(cp as char))
        } else {
            Seq::empty()
        }
    }
}

/// The records of the code points of `cps` that are scalar values (see
/// `char_cases_text`).
pub fn char_cases(cps: &[u32]) -> (out: String)
    ensures
        out@ == char_cases_text(cps@),
{
    assert(pow64(1) == 64 && pow64(4) == 16777216) by {
        reveal_with_fuel(pow64, 5);
    }
    let mut out = String::new();
    let mut i: usize = 0;
    while i < cps.len()
        invariant
            i <= cps@.len(),
            pow64(1) == 64 && pow64(4) == 16777216,
            out@ == char_cases_text(cps@.take(i as int)),
        decreases cps@.len() - i,
    {
        let cp = cps[i];
        assert(cps@.take(i as int + 1).drop_last() =~= cps@.take(i as int));
        match char::from_u32(cp) {
            None => {},
            Some(c) => {
                let w = width_of_char(c);
                let wc = width_cjk_of_char(c);
                char_record(&mut out, cp, w, wc);
            },
        }
        assert(out@ =~= char_cases_text(cps@.take(i as int + 1)));
        i += 1;
    }
    assert(cps@.take(i as int) =~= cps@);
    out
}

/// The head of the cases file: `banner`, what the cases are and how many,
/// `notice`, and a blank line.
pub open spec fn cases_head(
    banner: Seq<char>,
    notice: Seq<char>,
    strings: nat,
    chars: nat,
) -> Seq<char> {
    banner + "--\n-- Inputs, with the widths the crate gives them, for the tests in `Tests.mw`.\n-- "@
        + decimal(strings) + " strings and "@ + decimal(chars)
        + " characters, some from the crate's own tests.\n--\n"@ + notice + "\n"@
}

/// The whole cases file: its head, then the string records and the
/// character records each as one literal, broken every 96 characters.
pub open spec fn cases_text(
    banner: Seq<char>,
    notice: Seq<char>,
    strings: nat,
    str_text: Seq<char>,
    char_text: Seq<char>,
) -> Seq<char> {
    cases_head(banner, notice, strings, encode_utf8(char_text).len() / 6)
        + "-- Each: the width (2 digits), the CJK width (2), the length in bytes (3),\n-- then that many bytes of the string itself.\n@cfg(test)\n@pub(pkg) def strCases =\n  "@
        + literal_of(str_text, 96) + "\n\n"@
        + "-- Each: the code point (4 digits), then its width and its CJK width, one\n-- digit each: 0 for none, otherwise the width plus one.\n@cfg(test)\n@pub(pkg) def charCases =\n  "@
        + literal_of(char_text, 96) + "\n"@
}

/// Writes the cases file from the number of strings and the two runs of
/// records.
pub fn render_cases(
    banner: &str,
    notice: &str,
    strings: usize,
    str_text: &str,
    char_text: &str,
) -> (out: String)
    ensures
        out@ == cases_text(banner@, notice@, strings as nat, str_text@, char_text@),
{
    let n_chars = char_text.as_bytes().len() / 6;
    let mut out = String::new();
    out.append(banner);
    out.append(
        "--\n-- Inputs, with the widths the crate gives them, for the tests in `Tests.mw`.\n-- ",
    );
    push_decimal(&mut out, strings as u64);
    out.append(" strings and ");
    push_decimal(&mut out, n_chars as u64);
    out.append(" characters, some from the crate's own tests.\n--\n");
    out.append(notice);
    out.append("\n");
    let ghost head = out@;
    assert(head =~= cases_head(
        banner@,
        notice@,
        strings as nat,
        encode_utf8(char_text@).len() / 6,
    ));
    out.append(
        "-- Each: the width (2 digits), the CJK width (2), the length in bytes (3),\n-- then that many bytes of the string itself.\n@cfg(test)\n@pub(pkg) def strCases =\n  ",
    );
    let lit = long_literal(str_text, 96);
    out.append(lit.as_str());
    out.append("\n\n");
    out.append(
        "-- Each: the code point (4 digits), then its width and its CJK width, one\n-- digit each: 0 for none, otherwise the width plus one.\n@cfg(test)\n@pub(pkg) def charCases =\n  ",
    );
    let lit = long_literal(char_text, 96);
    out.append(lit.as_str());
    out.append("\n");
    assert(out@ =~= cases_text(banner@, notice@, strings as nat, str_text@, char_text@));
    out
}


/// Whether `s` is in strictly increasing order of UTF-8 bytes.
pub open spec fn sorted_strings(s: Seq<Seq<char>>) -> bool {
    forall|i: int, j: int|
        0 <= i < j < s.len() ==> crate::order::lex_lt(
            encode_utf8(#[trigger] s[i]),
            encode_utf8(#[trigger] s[j]),
        )
}

/// Whether `a` and `b` hold the same elements.
pub open spec fn same_elements<T>(a: Seq<T>, b: Seq<T>) -> bool {
    &&& forall|i: int| 0 <= i < a.len() ==> b.contains(#[trigger] a[i])
    &&& forall|j: int| 0 <= j < b.len() ==> a.contains(#[trigger] b[j])
}

/// The code points the character records are made of, before sorting:
/// those either side of every change in the widths, `INTERESTING`, the
/// characters `test_chars` of the tests' character literals, and the last
/// scalar value.
pub open spec fn case_points(test_chars: Seq<char>) -> Seq<u32> {
    boundaries(SCALARS as nat).1 + INTERESTING@ + test_chars.map_values(|c: char| c as u32)
        + seq![0x10FFFFu32]
}

/// Whether `sorted` and `points` are what the cases file of `tests` and
/// `emoji` is written from: the collected strings sorted in the order of
/// `str` with each kept once, and the code points (see `case_points`)
/// sorted with each kept once.
pub open spec fn cases_inputs(
    tests: Seq<char>,
    emoji: Seq<char>,
    sorted: Seq<Seq<char>>,
    points: Seq<u32>,
) -> bool {
    &&& sorted_strings(sorted)
    &&& same_elements(collected(tests, emoji), sorted)
    &&& forall|i: int, j: int| 0 <= i < j < points.len() ==> #[trigger] points[i] < #[trigger] points[j]
    &&& same_elements(
        case_points((scan_source(tests, 0, Seq::empty(), Seq::empty())->0).1),
        points,
    )
}

/// Writes the cases file from the crate's tests `tests` and its emoji test
/// file `emoji`: the collected strings, sorted and each kept once, with the
/// widths the crate gives them, then the code points, sorted and each kept
/// once, with the widths the crate gives them. `None` where a string does
/// not fit its record (see `str_case_fits`).
pub fn cases(tests: &str, emoji: &str, banner: &str, notice: &str) -> (r: Option<String>)
    requires
        scan_source(tests@, 0, Seq::empty(), Seq::empty()) is Some,
    ensures
        exists|sorted: Seq<Seq<char>>, points: Seq<u32>|
            {
                &&& #[trigger] cases_inputs(tests@, emoji@, sorted, points)
                &&& (r is Some <==> forall|k: int|
                    0 <= k < sorted.len() ==> str_case_fits(#[trigger] sorted[k]))
                &&& (r matches Some(t) ==> t@ == cases_text(
                    banner@,
                    notice@,
                    sorted.len(),
                    str_cases_text(sorted),
                    char_cases_text(points),
                ))
            },
{
    let (strings, test_chars) = collect_strings(tests, emoji);
    let ghost gathered = strings@;
    let sorted = sort_dedup(strings);
    let ghost sv = sorted@.map_values(|s: String| s@);
    let ghost want = collected(tests@, emoji@);
    proof {
        assert forall|i: int| 0 <= i < want.len() implies sv.contains(#[trigger] want[i]) by {
            assert(gathered[i]@ == want[i]);
            assert(crate::order::holds_string(sorted@, gathered[i]@));
            let j = choose|j: int| 0 <= j < sorted@.len() && #[trigger] sorted@[j]@ == gathered[i]@;
            assert(sv[j] == want[i]);
        }
        assert forall|j: int| 0 <= j < sv.len() implies want.contains(#[trigger] sv[j]) by {
            assert(crate::order::holds_string(gathered, sorted@[j]@));
            let i = choose|i: int| 0 <= i < gathered.len() && #[trigger] gathered[i]@ == sorted@[j]@;
            assert(want[i] == sv[j]);
        }
        assert forall|i: int, j: int| 0 <= i < j < sv.len() implies crate::order::lex_lt(
            encode_utf8(#[trigger] sv[i]),
            encode_utf8(#[trigger] sv[j]),
        ) by {
            assert(sv[i] == sorted@[i]@ && sv[j] == sorted@[j]@);
        }
    }
    let mut points = width_boundaries();
    let mut i: usize = 0;
    let ghost base = points@;
    while i < 104
        invariant
            i <= 104,
            points@ == base + INTERESTING@.take(i as int),
        decreases 104 - i,
    {
        points.push(INTERESTING[i]);
        i += 1;
        assert(points@ =~= base + INTERESTING@.take(i as int));
    }
    assert(INTERESTING@.take(104) =~= INTERESTING@);
    let ghost base2 = points@;
    let mut j: usize = 0;
    while j < test_chars.len()
        invariant
            j <= test_chars@.len(),
            points@ == base2 + test_chars@.take(j as int).map_values(|c: char| c as u32),
        decreases test_chars@.len() - j,
    {
        points.push(test_chars[j] as u32);
        j += 1;
        assert(points@ =~= base2 + test_chars@.take(j as int).map_values(|c: char| c as u32));
    }
    assert(test_chars@.take(j as int) =~= test_chars@);
    points.push(SCALARS - 1);
    let ghost all_points = points@;
    assert(all_points =~= case_points(test_chars@));
    let cps = sort_dedup_u32(&points);
    let char_text = char_cases(cps.as_slice());
    let n = sorted.len();
    let str_text = str_cases(sorted.as_slice());
    assert(sorted@.map_values(|s: String| s@) == sv);
    assert(cases_inputs(tests@, emoji@, sv, cps@));
    match str_text {
        None => {
            assert(!(forall|k: int| 0 <= k < sv.len() ==> str_case_fits(#[trigger] sv[k])));
            None
        },
        Some(t) => {
            let out = render_cases(banner, notice, n, t.as_str(), char_text.as_str());
            Some(out)
        },
    }
}


/// A string's record reads back: its first two digits are the string's
/// width, the next two its CJK width, the next three its length in bytes,
/// and the rest is the string itself.
pub proof fn lemma_str_case_decodes(s: Seq<char>)
    requires
        str_case_fits(s),
    ensures
        digits_value(str_case(s).subrange(0, 2)) == str_width(s),
        digits_value(str_case(s).subrange(2, 4)) == str_width_cjk(s),
        digits_value(str_case(s).subrange(4, 7)) == encode_utf8(s).len(),
        str_case(s).skip(7) == s,
{
    lemma_digits_roundtrip(str_width(s) as nat, 2);
    lemma_digits_roundtrip(str_width_cjk(s) as nat, 2);
    lemma_digits_roundtrip(encode_utf8(s).len(), 3);
    let r = str_case(s);
    assert(r.subrange(0, 2) =~= digits_of(str_width(s) as nat, 2));
    assert(r.subrange(2, 4) =~= digits_of(str_width_cjk(s) as nat, 2));
    assert(r.subrange(4, 7) =~= digits_of(encode_utf8(s).len(), 3));
    assert(r.skip(7) =~= s);
}

/// A code point's record reads back: its first four digits are the code
/// point, the next one its width code and the last its CJK width code
/// (0 for none, otherwise the width plus one).
pub proof fn lemma_char_case_decodes(cp: u32)
    requires
        is_scalar(cp as int),
        width_code(char_width(cp as char)) < 64,
        width_code(char_width_cjk(cp as char)) < 64,
    ensures
        ({
            let r = char_cases_text(seq![cp]);
            &&& r.len() == 6
            &&& digits_value(r.subrange(0, 4)) == cp
            &&& digits_value(r.subrange(4, 5)) == width_code(char_width(cp as char))
            &&& digits_value(r.subrange(5, 6)) == width_code(char_width_cjk(cp as char))
        }),
{
    assert(pow64(1) == 64 && pow64(4) == 16777216) by {
        reveal_with_fuel(pow64, 5);
    }
    let c = cp as char;
    let w = char_width(c);
    let wc = char_width_cjk(c);
    lemma_digits_roundtrip(cp as nat, 4);
    lemma_digits_roundtrip(width_code(w), 1);
    lemma_digits_roundtrip(width_code(wc), 1);
    let r = char_cases_text(seq![cp]);
    assert(seq![cp].drop_last() =~= Seq::<u32>::empty());
    assert(seq![cp].last() == cp);
    assert(char_cases_text(Seq::<u32>::empty()) == Seq::<char>::empty());
    assert(r == digits_of(cp as nat, 4) + digits_of(width_code(w), 1) + digits_of(width_code(wc), 1));
    assert(r.subrange(0, 4) =~= digits_of(cp as nat, 4));
    assert(r.subrange(4, 5) =~= digits_of(width_code(w), 1));
    assert(r.subrange(5, 6) =~= digits_of(width_code(wc), 1));
}


proof fn lemma_sorted_strings_unique(a: Seq<Seq<char>>, b: Seq<Seq<char>>)
    requires
        sorted_strings(a),
        sorted_strings(b),
        same_elements(a, b),
    ensures
        a == b,
    decreases a.len(),
{
    if a.len() == 0 {
        if b.len() > 0 {
            assert(a.contains(b[0]));
        }
        assert(a =~= b);
    } else if b.len() == 0 {
        assert(b.contains(a[0]));
    } else {
        assert(b.contains(a[0]));
        assert(a.contains(b[0]));
        let i = choose|i: int| 0 <= i < b.len() && b[i] == a[0];
        let j = choose|j: int| 0 <= j < a.len() && a[j] == b[0];
        if i > 0 && j > 0 {
            crate::order::lemma_lex_total(encode_utf8(b[0]), encode_utf8(a[0]));
            assert(crate::order::lex_lt(encode_utf8(b[0]), encode_utf8(b[i])));
            assert(crate::order::lex_lt(encode_utf8(a[0]), encode_utf8(a[j])));
        }
        assert(a[0] == b[0]) by {
            if i == 0 {
            } else {
                assert(j == 0) by {
                    if j > 0 {
                        crate::order::lemma_lex_total(encode_utf8(b[0]), encode_utf8(a[0]));
                    }
                }
            }
        }
        let a1 = a.drop_first();
        let b1 = b.drop_first();
        assert forall|k: int| 0 <= k < a1.len() implies b1.contains(#[trigger] a1[k]) by {
            assert(b.contains(a[k + 1]));
            let m = choose|m: int| 0 <= m < b.len() && b[m] == a[k + 1];
            if m == 0 {
                crate::order::lemma_lex_total(encode_utf8(a[0]), encode_utf8(a[k + 1]));
            } else {
                assert(b1[m - 1] == a1[k]);
            }
        }
        assert forall|k: int| 0 <= k < b1.len() implies a1.contains(#[trigger] b1[k]) by {
            assert(a.contains(b[k + 1]));
            let m = choose|m: int| 0 <= m < a.len() && a[m] == b[k + 1];
            if m == 0 {
                crate::order::lemma_lex_total(encode_utf8(b[0]), encode_utf8(b[k + 1]));
            } else {
                assert(a1[m - 1] == b1[k]);
            }
        }
        lemma_sorted_strings_unique(a1, b1);
        assert(a =~= seq![a[0]] + a1);
        assert(b =~= seq![b[0]] + b1);
    }
}

proof fn lemma_sorted_points_unique(a: Seq<u32>, b: Seq<u32>)
    requires
        forall|i: int, j: int| 0 <= i < j < a.len() ==> #[trigger] a[i] < #[trigger] a[j],
        forall|i: int, j: int| 0 <= i < j < b.len() ==> #[trigger] b[i] < #[trigger] b[j],
        same_elements(a, b),
    ensures
        a == b,
    decreases a.len(),
{
    if a.len() == 0 {
        if b.len() > 0 {
            assert(a.contains(b[0]));
        }
        assert(a =~= b);
    } else if b.len() == 0 {
        assert(b.contains(a[0]));
    } else {
        assert(b.contains(a[0]));
        assert(a.contains(b[0]));
        let i = choose|i: int| 0 <= i < b.len() && b[i] == a[0];
        let j = choose|j: int| 0 <= j < a.len() && a[j] == b[0];
        if i > 0 {
            assert(b[0] < b[i]);
        }
        if j > 0 {
            assert(a[0] < a[j]);
        }
        let a1 = a.drop_first();
        let b1 = b.drop_first();
        assert forall|k: int| 0 <= k < a1.len() implies b1.contains(#[trigger] a1[k]) by {
            assert(b.contains(a[k + 1]));
            let m = choose|m: int| 0 <= m < b.len() && b[m] == a[k + 1];
            assert(a[0] < a[k + 1]);
            assert(m != 0);
            assert(b1[m - 1] == a1[k]);
        }
        assert forall|k: int| 0 <= k < b1.len() implies a1.contains(#[trigger] b1[k]) by {
            assert(a.contains(b[k + 1]));
            let m = choose|m: int| 0 <= m < a.len() && a[m] == b[k + 1];
            assert(b[0] < b[k + 1]);
            assert(m != 0);
            assert(a1[m - 1] == b1[k]);
        }
        lemma_sorted_points_unique(a1, b1);
        assert(a =~= seq![a[0]] + a1);
        assert(b =~= seq![b[0]] + b1);
    }
}

/// The cases file depends on nothing but its inputs: the strings and the
/// code points it is written from are the only ones that `cases_inputs`
/// admits, so every run on the same crate writes the same file.
pub proof fn lemma_cases_inputs_unique(
    tests: Seq<char>,
    emoji: Seq<char>,
    sorted1: Seq<Seq<char>>,
    points1: Seq<u32>,
    sorted2: Seq<Seq<char>>,
    points2: Seq<u32>,
)
    requires
        cases_inputs(tests, emoji, sorted1, points1),
        cases_inputs(tests, emoji, sorted2, points2),
    ensures
        sorted1 == sorted2,
        points1 == points2,
{
    let c = collected(tests, emoji);
    assert forall|k: int| 0 <= k < sorted1.len() implies sorted2.contains(#[trigger] sorted1[k]) by {
        assert(c.contains(sorted1[k]));
        let i = choose|i: int| 0 <= i < c.len() && c[i] == sorted1[k];
        assert(sorted2.contains(c[i]));
    }
    assert forall|k: int| 0 <= k < sorted2.len() implies sorted1.contains(#[trigger] sorted2[k]) by {
        assert(c.contains(sorted2[k]));
        let i = choose|i: int| 0 <= i < c.len() && c[i] == sorted2[k];
        assert(sorted1.contains(c[i]));
    }
    lemma_sorted_strings_unique(sorted1, sorted2);
    let p = case_points((scan_source(tests, 0, Seq::empty(), Seq::empty())->0).1);
    assert forall|k: int| 0 <= k < points1.len() implies points2.contains(#[trigger] points1[k]) by {
        assert(p.contains(points1[k]));
        let i = choose|i: int| 0 <= i < p.len() && p[i] == points1[k];
        assert(points2.contains(p[i]));
    }
    assert forall|k: int| 0 <= k < points2.len() implies points1.contains(#[trigger] points2[k]) by {
        assert(p.contains(points2[k]));
        let i = choose|i: int| 0 <= i < p.len() && p[i] == points2[k];
        assert(points1.contains(p[i]));
    }
    lemma_sorted_points_unique(points1, points2);
}

} // verus!
