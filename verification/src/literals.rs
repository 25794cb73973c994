//! The string and character literals of Rust source text, with their escapes
//! read.

use vstd::prelude::*;
use crate::text::{chars_of, is_scalar, is_whitespace, leading_space, string_of};

verus! {

/// The value of a hexadecimal digit, either case.
pub open spec fn hex_digit(c: char) -> Option<nat> {
    if '0' <= c <= '9' {
        Some((c as int - 48) as nat)
    } else if 'a' <= c <= 'f' {
        Some((c as int - 87) as nat)
    } else if 'A' <= c <= 'F' {
        Some((c as int - 55) as nat)
    } else {
        None
    }
}

/// The hexadecimal digits and their values: `'0'` to `'9'` are 0 to 9,
/// `'a'` to `'f'` and `'A'` to `'F'` alike are 10 to 15, so a lower-case
/// digit has the value of its upper-case form; no other character is a
/// digit.
pub proof fn lemma_hex_digit_values(c: char)
    ensures
        '0' <= c <= '9' ==> hex_digit(c) == Some((c as int - '0' as int) as nat),
        'a' <= c <= 'f' ==> hex_digit(c) == Some((c as int - 'a' as int + 10) as nat),
        'A' <= c <= 'F' ==> hex_digit(c) == Some((c as int - 'A' as int + 10) as nat),
        'a' <= c <= 'f' ==> hex_digit(c) == hex_digit(((c as u32) - 32) as char),
        hex_digit(c) is Some ==> ('0' <= c <= '9' || 'a' <= c <= 'f' || 'A' <= c <= 'F'),
        hex_digit(c) matches Some(d) ==> d < 16,
{
    if 'a' <= c <= 'f' {
        let u = ((c as u32) - 32) as char;
        assert(u as int == c as int - 32);
        assert('A' <= u <= 'F');
    }
}

/// The number that the hexadecimal digits `h` stand for, most significant
/// first, or `None` if one is not a digit.
pub open spec fn hex_digits_value(h: Seq<char>) -> Option<nat>
    decreases h.len(),
{
    if h.len() == 0 {
        Some(0)
    } else {
        match (hex_digits_value(h.drop_last()), hex_digit(h.last())) {
            (Some(v), Some(d)) => Some(16 * v + d),
            _ => None,
        }
    }
}

/// What `from_str_radix(h, 16)` reads from `h` before checking the range of
/// its type: an optional `+` followed by at least one hexadecimal digit and
/// nothing else.
pub open spec fn hex_value(h: Seq<char>) -> Option<nat> {
    let d = if h.len() > 0 && h[0] == '+' {
        h.drop_first()
    } else {
        h
    };
    if d.len() == 0 {
        None
    } else {
        hex_digits_value(d)
    }
}

/// The index of the first `}` in `s` at or after `j`.
pub open spec fn find_close_brace(s: Seq<char>, j: int) -> Option<int>
    decreases s.len() - j,
{
    if j < 0 || j >= s.len() {
        None
    } else if s[j] == '}' {
        Some(j)
    } else {
        find_close_brace(s, j + 1)
    }
}

/// Reading a literal of `s` from `i` on, with `out` read so far, up to the
/// unescaped `close`: what was read and where the reading ends, or `None`
/// where reading it goes wrong (an unknown escape, a `\x` or `\u{...}` escape
/// that is cut off, is not hexadecimal, or names no character).
///
/// The literal ends after `close`, or at the end of `s`. A character literal
/// (`close` is `'`) gives up, with nothing read, at a newline or once more
/// than one character has been read: it is a lifetime. Escapes are `\n`,
/// `\r`, `\t`, `\0`, `\\`, `\"`, `\'`, `\x` with two hexadecimal digits,
/// `\u{...}`, and a backslash before a newline, which skips the white space
/// that follows.
pub open spec fn scan_literal(s: Seq<char>, i: int, close: char, out: Seq<char>) -> Option<
    (Seq<char>, int),
>
    decreases s.len() - i,
{
    if i < 0 || i >= s.len() {
        Some((out, i))
    } else {
        let c = s[i];
        if c == close {
            Some((out, i + 1))
        } else if close == '\'' && (c == '\n' || out.len() > 1) {
            Some((Seq::empty(), i))
        } else if c != '\\' {
            scan_literal(s, i + 1, close, out.push(c))
        } else if i + 1 >= s.len() {
            None
        } else {
            let e = s[i + 1];
            let j = i + 2;
            if e == 'n' {
                scan_literal(s, j, close, out.push('\n'))
            } else if e == 'r' {
                scan_literal(s, j, close, out.push('\r'))
            } else if e == 't' {
                scan_literal(s, j, close, out.push('\t'))
            } else if e == '0' {
                scan_literal(s, j, close, out.push('\0'))
            } else if e == '\\' || e == '"' || e == '\'' {
                scan_literal(s, j, close, out.push(e))
            } else if e == 'x' {
                if j + 2 > s.len() {
                    None
                } else {
                    match hex_value(s.subrange(j, j + 2)) {
                        Some(v) => if v < 256 {
                            scan_literal(s, j + 2, close, out.push(v as char))
                        } else {
                            None
                        },
                        None => None,
                    }
                }
            } else if e == 'u' {
                proof {
                    lemma_find_close_brace(s, j);
                }
                match find_close_brace(s, j) {
                    Some(end) => if end < j + 1 {
                        None
                    } else {
                        match hex_value(s.subrange(j + 1, end)) {
                            Some(v) => if v <= 0xFFFF_FFFF && is_scalar(v as int) {
                                scan_literal(s, end + 1, close, out.push(v as char))
                            } else {
                                None
                            },
                            None => None,
                        }
                    },
                    None => None,
                }
            } else if e == '\n' {
                proof {
                    lemma_leading_space_bound(s.skip(j));
                }
                scan_literal(s, j + leading_space(s.skip(j)), close, out)
            } else {
                None
            }
        }
    }
}

pub proof fn lemma_leading_space_bound(s: Seq<char>)
    ensures
        leading_space(s) <= s.len(),
    decreases s.len(),
{
    if s.len() > 0 {
        lemma_leading_space_bound(s.drop_first());
    }
}

pub proof fn lemma_find_close_brace(s: Seq<char>, j: int)
    requires
        0 <= j,
    ensures
        find_close_brace(s, j) matches Some(end) ==> j <= end < s.len() && s[end] == '}' && forall|
            k: int,
        | j <= k < end ==> s[k] != '}',
        find_close_brace(s, j) is None ==> forall|k: int| j <= k < s.len() ==> s[k] != '}',
    decreases s.len() - j,
{
    if 0 <= j < s.len() && s[j] != '}' {
        lemma_find_close_brace(s, j + 1);
    }
}

/// What `from_str_radix(h, 16)` gives for a `u32`: the value, if `h` is an
/// optional `+` and hexadecimal digits whose value fits in 32 bits.
pub(crate) fn parse_hex_u32(s: &[char], lo: usize, hi: usize) -> (r: Option<u32>)
    requires
        lo <= hi <= s@.len(),
    ensures
        r == (match hex_value(s@.subrange(lo as int, hi as int)) {
            Some(v) => if v <= 0xFFFF_FFFF {
                Some(v as u32)
            } else {
                None
            },
            None => None,
        }),
{
    let ghost h = s@.subrange(lo as int, hi as int);
    let mut start = lo;
    if lo < hi && s[lo] == '+' {
        start = lo + 1;
    }
    let ghost d = s@.subrange(start as int, hi as int);
    assert(d =~= (if h.len() > 0 && h[0] == '+' {
        h.drop_first()
    } else {
        h
    }));
    assert(hex_value(h) == (if d.len() == 0 {
        None
    } else {
        hex_digits_value(d)
    }));
    if start == hi {
        return None;
    }
    let mut v: u32 = 0;
    let mut k: usize = start;
    while k < hi
        invariant
            start <= k <= hi <= s@.len(),
            start < hi,
            d == s@.subrange(start as int, hi as int),
            h == s@.subrange(lo as int, hi as int),
            hex_value(h) == hex_digits_value(d),
            hex_digits_value(s@.subrange(start as int, k as int)) == Some(v as nat),
        decreases hi - k,
    {
        let c = s[k];
        let digit: u32 = if '0' <= c && c <= '9' {
            (c as u32) - 48
        } else if 'a' <= c && c <= 'f' {
            (c as u32) - 87
        } else if 'A' <= c && c <= 'F' {
            (c as u32) - 55
        } else {
            proof {
                lemma_hex_none_extends(s@, start as int, k as int, hi as int);
            }
            return None;
        };
        assert(s@.subrange(start as int, k + 1).drop_last() =~= s@.subrange(
            start as int,
            k as int,
        ));
        assert(hex_digit(c) == Some(digit as nat));
        if v > 0x0FFF_FFFF {
            proof {
                lemma_hex_big_extends(s@, start as int, k as int + 1, hi as int, 0x1_0000_0000);
            }
            return None;
        }
        v = v * 16 + digit;
        k += 1;
    }
    assert(s@.subrange(start as int, k as int) =~= d);
    Some(v)
}

/// A prefix of `h` that is not all digits keeps the whole from being digits.
proof fn lemma_hex_none_extends(s: Seq<char>, a: int, k: int, b: int)
    requires
        0 <= a <= k < b <= s.len(),
        hex_digit(s[k]) is None,
    ensures
        hex_digits_value(s.subrange(a, b)) is None,
    decreases b - k,
{
    if b == k + 1 {
        assert(s.subrange(a, b).last() == s[k]);
    } else {
        lemma_hex_none_extends(s, a, k, b - 1);
        assert(s.subrange(a, b).drop_last() =~= s.subrange(a, b - 1));
    }
}

/// Digits never get smaller as more are read.
proof fn lemma_hex_big_extends(s: Seq<char>, a: int, k: int, b: int, bound: nat)
    requires
        0 <= a <= k <= b <= s.len(),
        hex_digits_value(s.subrange(a, k)) matches Some(v) && v >= bound,
    ensures
        hex_digits_value(s.subrange(a, b)) matches Some(v) ==> v >= bound,
    decreases b - k,
{
    if b > k {
        lemma_hex_big_extends(s, a, k, b - 1, bound);
        assert(s.subrange(a, b).drop_last() =~= s.subrange(a, b - 1));
    } else {
        assert(s.subrange(a, b) =~= s.subrange(a, k));
    }
}


/// Whether reading a literal of `s` from `i` up to `close` goes right (see
/// `scan_literal`).
pub open spec fn literal_ok(s: Seq<char>, i: int, close: char) -> bool {
    scan_literal(s, i, close, Seq::empty()) is Some
}

/// The literal of `s` starting at `i`, up to the unescaped `close`, with
/// its escapes read, and where it ends, or `None` where reading it goes
/// wrong (see `scan_literal`).
pub fn read_literal_checked(s: &[char], i: usize, close: char) -> (r: Option<(String, usize)>)
    ensures
        r is Some <==> literal_ok(s@, i as int, close),
        r matches Some(v) ==> scan_literal(s@, i as int, close, Seq::empty()) == Some(
            (v.0@, v.1 as int),
        ),
{

    let ghost goal = scan_literal(s@, i as int, close, Seq::empty());
    let ghost start = i;
    let mut out: Vec<char> = Vec::new();
    let mut pos = i;
    while pos < s.len()
        invariant
            start == i,
            goal == scan_literal(s@, start as int, close, Seq::empty()),
            goal == scan_literal(s@, pos as int, close, out@),
        decreases s@.len() - pos,
    {
        let c = s[pos];
        if c == close {
            let r = string_of(&out);
            assert(scan_literal(s@, pos as int, close, out@) == Some((out@, pos + 1)));
            assert(goal == Some((r@, pos + 1)));
            return Some((r, pos + 1));
        }
        if close == '\'' && (c == '\n' || out.len() > 1) {
            let r = String::new();
            assert(goal == Some((r@, pos as int)));
            return Some((r, pos));
        }
        if c != '\\' {
            out.push(c);
            pos += 1;
            continue;
        }
        if pos + 1 >= s.len() {
            proof {
                assert(goal is None);
            }
            return None;
        }
        let e = s[pos + 1];
        let j = pos + 2;
        if e == 'n' {
            out.push('\n');
            pos = j;
        } else if e == 'r' {
            out.push('\r');
            pos = j;
        } else if e == 't' {
            out.push('\t');
            pos = j;
        } else if e == '0' {
            out.push('\0');
            pos = j;
        } else if e == '\\' || e == '"' || e == '\'' {
            out.push(e);
            pos = j;
        } else if e == 'x' {
            if j > s.len() - 2 {
                proof {
                    assert(goal is None);
                }
                return None;
            }
            match parse_hex_u32(s, j, j + 2) {
                Some(v) => {
                    if v >= 256 {
                        proof {
                            assert(goal is None);
                        }
                        return None;
                    }
                    out.push((v as u8) as char);
                    pos = j + 2;
                },
                None => {
                    proof {
                        assert(goal is None);
                    }
                    return None;
                },
            }
        } else if e == 'u' {
            proof {
                lemma_find_close_brace(s@, j as int);
            }
            let mut end = j;
            while end < s.len() && s[end] != '}'
                invariant
                    j <= end <= s@.len(),
                    forall|k: int| j <= k < end ==> s@[k] != '}',
                decreases s@.len() - end,
            {
                end += 1;
            }
            if end == s.len() || end < j + 1 {
                proof {
                    if end == s@.len() {
                        assert(find_close_brace(s@, j as int) is None);
                    }
                    assert(goal is None);
                }
                return None;
            }
            assert(find_close_brace(s@, j as int) == Some(end as int));
            match parse_hex_u32(s, j + 1, end) {
                Some(v) => match char::from_u32(v) {
                    Some(ch) => {
                        out.push(ch);
                        pos = end + 1;
                    },
                    None => {
                        proof {
                            assert(goal is None);
                        }
                        return None;
                    },
                },
                None => {
                    proof {
                        assert(goal is None);
                    }
                    return None;
                },
            }
        } else if e == '\n' {
            let mut k = j;
            while k < s.len() && is_whitespace(s[k])
                invariant
                    j <= k <= s@.len(),
                    leading_space(s@.skip(j as int)) == (k - j) + leading_space(s@.skip(k as int)),
                decreases s@.len() - k,
            {
                assert(s@.skip(k as int).drop_first() =~= s@.skip(k as int + 1));
                k += 1;
            }
            pos = k;
        } else {
            proof {
                assert(goal is None);
            }
            return None;
        }
    }
    Some((string_of(&out), pos))
}


/// The literal of `s` starting at `i`, up to the unescaped `close`, with
/// its escapes read, and where it ends (see `scan_literal`).
pub fn read_literal(s: &[char], i: usize, close: char) -> (r: (String, usize))
    requires
        literal_ok(s@, i as int, close),
    ensures
        scan_literal(s@, i as int, close, Seq::empty()) == Some((r.0@, r.1 as int)),
{
    match read_literal_checked(s, i, close) {
        Some(r) => r,
        None => {
            proof {
                assert(false);
            }
            (String::new(), i)
        },
    }
}

/// Reading a literal from `j` ends at or after `j`, and at most at the end
/// of `s`.
pub proof fn lemma_scan_literal_bounds(s: Seq<char>, j: int, close: char, out: Seq<char>)
    requires
        0 <= j <= s.len(),
    ensures
        scan_literal(s, j, close, out) matches Some((_, end)) ==> j <= end <= s.len(),
    decreases s.len() - j,
{
    if j < s.len() {
        let c = s[j];
        if c == close {
        } else if close == '\'' && (c == '\n' || out.len() > 1) {
        } else if c != '\\' {
            lemma_scan_literal_bounds(s, j + 1, close, out.push(c));
        } else if j + 1 < s.len() {
            let e = s[j + 1];
            let k = j + 2;
            if e == 'n' {
                lemma_scan_literal_bounds(s, k, close, out.push('\n'));
            } else if e == 'r' {
                lemma_scan_literal_bounds(s, k, close, out.push('\r'));
            } else if e == 't' {
                lemma_scan_literal_bounds(s, k, close, out.push('\t'));
            } else if e == '0' {
                lemma_scan_literal_bounds(s, k, close, out.push('\0'));
            } else if e == '\\' || e == '"' || e == '\'' {
                lemma_scan_literal_bounds(s, k, close, out.push(e));
            } else if e == 'x' {
                if k + 2 <= s.len() {
                    match hex_value(s.subrange(k, k + 2)) {
                        Some(v) => if v < 256 {
                            lemma_scan_literal_bounds(s, k + 2, close, out.push(v as char));
                        },
                        None => {},
                    }
                }
            } else if e == 'u' {
                lemma_find_close_brace(s, k);
                match find_close_brace(s, k) {
                    Some(end) => if end >= k + 1 {
                        match hex_value(s.subrange(k + 1, end)) {
                            Some(v) => if v <= 0xFFFF_FFFF && is_scalar(v as int) {
                                lemma_scan_literal_bounds(s, end + 1, close, out.push(v as char));
                            },
                            None => {},
                        }
                    },
                    None => {},
                }
            } else if e == '\n' {
                lemma_leading_space_bound(s.skip(k));
                lemma_scan_literal_bounds(s, k + leading_space(s.skip(k)), close, out);
            }
        }
    }
}

/// The index of the newline that ends the line comment at `i`, or the end
/// of `s`.
pub open spec fn comment_end(s: Seq<char>, i: int) -> int
    decreases s.len() - i,
{
    if i < 0 || i >= s.len() || s[i] == '\n' {
        i
    } else {
        comment_end(s, i + 1)
    }
}

pub proof fn lemma_comment_end(s: Seq<char>, i: int)
    requires
        0 <= i <= s.len(),
    ensures
        i <= comment_end(s, i) <= s.len(),
    decreases s.len() - i,
{
    if i < s.len() && s[i] != '\n' {
        lemma_comment_end(s, i + 1);
    }
}

/// How many `#` stand directly before index `i` of `s`.
pub open spec fn hashes_before(s: Seq<char>, i: int) -> nat
    decreases i,
{
    if 0 < i <= s.len() && s[i - 1] == '#' {
        1 + hashes_before(s, i - 1)
    } else {
        0
    }
}

/// Whether `s` holds `h` characters `#` from index `j` on.
pub open spec fn hashes_at(s: Seq<char>, j: int, h: nat) -> bool {
    &&& 0 <= j
    &&& j + h <= s.len()
    &&& forall|t: int| j <= t < j + h ==> #[trigger] s[t] == '#'
}

/// Where the raw string whose text starts at `k` ends: after the first `"`
/// followed by its `h` hashes, or at the end of `s` where there is none.
pub open spec fn raw_end(s: Seq<char>, k: int, h: nat) -> int
    decreases s.len() - k,
{
    if k < 0 || k >= s.len() {
        s.len() as int
    } else if s[k] == '"' && hashes_at(s, k + 1, h) {
        k + 1 + h
    } else {
        raw_end(s, k + 1, h)
    }
}

/// Where the byte string whose text starts at `k` ends: after its first
/// unescaped `"`, or at the end of `s` where there is none. A `\` escapes
/// the character after it.
pub open spec fn byte_end(s: Seq<char>, k: int) -> int
    decreases s.len() - k,
{
    if k < 0 || k >= s.len() {
        s.len() as int
    } else if s[k] == '\\' {
        if k + 1 >= s.len() {
            s.len() as int
        } else {
            byte_end(s, k + 2)
        }
    } else if s[k] == '"' {
        k + 1
    } else {
        byte_end(s, k + 1)
    }
}

pub proof fn lemma_raw_end(s: Seq<char>, k: int, h: nat)
    requires
        0 <= k <= s.len(),
    ensures
        k <= raw_end(s, k, h) <= s.len(),
    decreases s.len() - k,
{
    if k < s.len() && !(s[k] == '"' && hashes_at(s, k + 1, h)) {
        lemma_raw_end(s, k + 1, h);
    }
}

pub proof fn lemma_byte_end(s: Seq<char>, k: int)
    requires
        0 <= k <= s.len(),
    ensures
        k <= byte_end(s, k) <= s.len(),
    decreases s.len() - k,
{
    if k < s.len() {
        if s[k] == '\\' {
            if k + 1 < s.len() {
                lemma_byte_end(s, k + 2);
            }
        } else if s[k] != '"' {
            lemma_byte_end(s, k + 1);
        }
    }
}

pub proof fn lemma_hashes_before(s: Seq<char>, i: int)
    requires
        0 <= i <= s.len(),
    ensures
        hashes_before(s, i) <= i,
        forall|t: int| i - hashes_before(s, i) <= t < i ==> #[trigger] s[t] == '#',
        i - hashes_before(s, i) == 0 || s[i - hashes_before(s, i) - 1] != '#',
    decreases i,
{
    if i > 0 && s[i - 1] == '#' {
        lemma_hashes_before(s, i - 1);
    }
}

/// Whether the `"` at `i` opens a raw string: `r"`, or one or more `#`
/// before it (`r#"`, `br##"`).
pub open spec fn opens_raw(s: Seq<char>, i: int) -> bool {
    let h = hashes_before(s, i);
    h > 0 || (i - 1 >= 0 && s[i - 1] == 'r')
}

/// Whether the `"` at `i` opens a byte string: `b"`.
pub open spec fn opens_bytes(s: Seq<char>, i: int) -> bool {
    hashes_before(s, i) == 0 && i - 1 >= 0 && s[i - 1] == 'b'
}

/// Scanning Rust source `s` from `i` on, with the string literals and
/// character literals found so far: all of them, in order, or `None` where
/// reading one goes wrong (see `scan_literal`).
///
/// A line comment `//` is skipped to its end. A raw string (`r"`, `r#"`,
/// `br"`, ...) is skipped up to its closing `"` and hashes, a byte string
/// (`b"`) up to its closing `"`. Any other `"` opens a string literal,
/// which is read up to its closing `"`. A `'` is read as a character
/// literal if it holds exactly one character (or one escape) followed by
/// `'`; anything else is a lifetime, and scanning goes on after the `'`.
pub open spec fn scan_source(
    s: Seq<char>,
    i: int,
    strings: Seq<Seq<char>>,
    chars: Seq<char>,
) -> Option<(Seq<Seq<char>>, Seq<char>)>
    decreases s.len() - i,
{
    if i < 0 || i >= s.len() {
        Some((strings, chars))
    } else if s[i] == '/' && i + 1 < s.len() && s[i + 1] == '/' {
        proof {
            lemma_comment_end(s, i + 1);
        }
        scan_source(s, comment_end(s, i + 1), strings, chars)
    } else if s[i] == '"' && opens_raw(s, i) {
        proof {
            lemma_raw_end(s, i + 1, hashes_before(s, i));
        }
        scan_source(s, raw_end(s, i + 1, hashes_before(s, i)), strings, chars)
    } else if s[i] == '"' && opens_bytes(s, i) {
        proof {
            lemma_byte_end(s, i + 1);
        }
        scan_source(s, byte_end(s, i + 1), strings, chars)
    } else if s[i] == '"' {
        proof {
            lemma_scan_literal_bounds(s, i + 1, '"', Seq::empty());
        }
        match scan_literal(s, i + 1, '"', Seq::empty()) {
            Some((text, end)) => scan_source(s, end, strings.push(text), chars),
            None => None,
        }
    } else if s[i] == '\'' {
        proof {
            lemma_scan_literal_bounds(s, i + 1, '\'', Seq::empty());
        }
        match scan_literal(s, i + 1, '\'', Seq::empty()) {
            Some((text, end)) => if text.len() == 1 && end - 1 < s.len() && s[end - 1] == '\'' {
                scan_source(s, end, strings, chars.push(text[0]))
            } else {
                scan_source(s, i + 1, strings, chars)
            },
            None => None,
        }
    } else {
        scan_source(s, i + 1, strings, chars)
    }
}

/// How many `#` stand directly before index `i` of `s`.
fn count_hashes(s: &[char], i: usize) -> (h: usize)
    requires
        i <= s@.len(),
    ensures
        h == hashes_before(s@, i as int),
{
    let mut j = i;
    while j > 0 && s[j - 1] == '#'
        invariant
            j <= i <= s@.len(),
            hashes_before(s@, i as int) == (i - j) + hashes_before(s@, j as int),
        decreases j,
    {
        j -= 1;
    }
    i - j
}

/// Whether `s` holds `h` characters `#` from index `j` on.
fn has_hashes(s: &[char], j: usize, h: usize) -> (b: bool)
    ensures
        b == hashes_at(s@, j as int, h as nat),
{
    if h > s.len() || j > s.len() - h {
        return false;
    }
    let mut t: usize = 0;
    while t < h
        invariant
            j + h <= s.len(),
            t <= h,
            forall|u: int| j <= u < j + t ==> #[trigger] s@[u] == '#',
        decreases h - t,
    {
        if s[j + t] != '#' {
            return false;
        }
        t += 1;
    }
    true
}

/// Where the raw string whose text starts at `k`, closed by `"` and `h`
/// hashes, ends.
fn skip_raw(s: &[char], k: usize, h: usize) -> (e: usize)
    requires
        k <= s@.len(),
    ensures
        e == raw_end(s@, k as int, h as nat),
{
    let mut j = k;
    while j < s.len()
        invariant
            k <= j <= s@.len(),
            raw_end(s@, k as int, h as nat) == raw_end(s@, j as int, h as nat),
        decreases s@.len() - j,
    {
        if s[j] == '"' && has_hashes(s, j + 1, h) {
            return j + 1 + h;
        }
        j += 1;
    }
    j
}

/// Where the byte string whose text starts at `k` ends.
fn skip_bytes(s: &[char], k: usize) -> (e: usize)
    requires
        k <= s@.len(),
    ensures
        e == byte_end(s@, k as int),
{
    let mut j = k;
    while j < s.len()
        invariant
            k <= j <= s@.len(),
            byte_end(s@, k as int) == byte_end(s@, j as int),
        decreases s@.len() - j,
    {
        if s[j] == '\\' {
            if j + 1 >= s.len() {
                return s.len();
            }
            j += 2;
        } else if s[j] == '"' {
            return j + 1;
        } else {
            j += 1;
        }
    }
    j
}

/// The string literals and the character literals of `source` (see
/// `scan_source`), or `None` where reading one of them goes wrong.
pub fn source_literals(source: &str) -> (r: Option<(Vec<String>, Vec<char>)>)
    ensures
        r is Some <==> scan_source(source@, 0, Seq::empty(), Seq::empty()) is Some,
        r matches Some(v) ==> ({
            let (strings, chars) = scan_source(source@, 0, Seq::empty(), Seq::empty())->0;
            &&& v.0@.len() == strings.len()
            &&& forall|k: int| 0 <= k < strings.len() ==> #[trigger] v.0@[k]@ == strings[k]
            &&& v.1@ == chars
        }),
{
    let ghost goal = scan_source(source@, 0, Seq::empty(), Seq::empty());
    let s = chars_of(source);
    let mut strings: Vec<String> = Vec::new();
    let mut chars: Vec<char> = Vec::new();
    let ghost mut found: Seq<Seq<char>> = Seq::empty();
    let mut i: usize = 0;
    while i < s.len()
        invariant
            s@ == source@,
            goal == scan_source(source@, 0, Seq::empty(), Seq::empty()),
            i <= s@.len(),
            goal == scan_source(s@, i as int, found, chars@),
            strings@.len() == found.len(),
            forall|k: int| 0 <= k < found.len() ==> #[trigger] strings@[k]@ == found[k],
        decreases s@.len() - i,
    {
        let c = s[i];
        if c == '/' && i + 1 < s.len() && s[i + 1] == '/' {
            let mut k = i + 1;
            while k < s.len() && s[k] != '\n'
                invariant
                    i + 1 <= k <= s@.len(),
                    comment_end(s@, i + 1) == comment_end(s@, k as int),
                decreases s@.len() - k,
            {
                k += 1;
            }
            i = k;
        } else if c == '"' && (i > 0 && (s[i - 1] == '#' || s[i - 1] == 'r')) {
            let h = count_hashes(s.as_slice(), i);
            proof {
                lemma_raw_end(s@, i + 1, h as nat);
            }
            i = skip_raw(s.as_slice(), i + 1, h);
        } else if c == '"' && i > 0 && s[i - 1] == 'b' {
            proof {
                lemma_byte_end(s@, i + 1);
            }
            i = skip_bytes(s.as_slice(), i + 1);
        } else if c == '"' {
            proof {
                lemma_scan_literal_bounds(s@, i + 1, '"', Seq::empty());
            }
            match read_literal_checked(s.as_slice(), i + 1, '"') {
                Some((text, end)) => {
                    proof {
                        found = found.push(text@);
                    }
                    strings.push(text);
                    i = end;
                },
                None => {
                    return None;
                },
            }
        } else if c == '\'' {
            proof {
                lemma_scan_literal_bounds(s@, i + 1, '\'', Seq::empty());
            }
            match read_literal_checked(s.as_slice(), i + 1, '\'') {
                Some((text, end)) => {
                    let tc = chars_of(text.as_str());
                    if tc.len() == 1 && end - 1 < s.len() && s[end - 1] == '\'' {
                        chars.push(tc[0]);
                        i = end;
                    } else {
                        i += 1;
                    }
                },
                None => {
                    return None;
                },
            }
        } else {
            i += 1;
        }
    }
    Some((strings, chars))
}

/// The string literals and the character literals of `source`: the first
/// are the strings held by every string literal, in order, that is not a
/// byte string or a raw one; the second the characters of the character
/// literals, in order (see `scan_source`).
pub fn string_literals(source: &str) -> (r: (Vec<String>, Vec<char>))
    requires
        scan_source(source@, 0, Seq::empty(), Seq::empty()) is Some,
    ensures
        ({
            let (strings, chars) = scan_source(source@, 0, Seq::empty(), Seq::empty())->0;
            &&& r.0@.len() == strings.len()
            &&& forall|k: int| 0 <= k < strings.len() ==> #[trigger] r.0@[k]@ == strings[k]
            &&& r.1@ == chars
        }),
{
    match source_literals(source) {
        Some(r) => r,
        None => {
            proof {
                assert(false);
            }
            (Vec::new(), Vec::new())
        },
    }
}

} // verus!
