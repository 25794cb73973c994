//! Numbers written as base-64 digits, and text written as a string literal.
//!
//! A digit `d` (0 to 63) is the character `'0' + d`, so the 64 digits are one
//! contiguous run of ASCII, `'0'` to `'o'`, that a reader turns back into a
//! number with a subtraction.

use vstd::prelude::*;
use crate::text::chars_of;
use crate::literals::{hex_digit, hex_digits_value};


verus! {

/// `64` to the power `n`.
pub open spec fn pow64(n: nat) -> nat
    decreases n,
{
    if n == 0 {
        1
    } else {
        64 * pow64((n - 1) as nat)
    }
}

/// The character that stands for the digit `d`.
pub open spec fn digit_char(d: nat) -> char {
    (48 + d) as char
}

/// The value a digit character stands for.
pub open spec fn char_digit(c: char) -> int {
    c as int - 48
}

/// The last `n` base-64 digits of `v`, most significant first.
pub open spec fn digits_of(v: nat, n: nat) -> Seq<char>
    decreases n,
{
    if n == 0 {
        Seq::empty()
    } else {
        digits_of(v / 64, (n - 1) as nat).push(digit_char(v % 64))
    }
}

/// The number that a run of digit characters stands for, most significant
/// first: what a reader computes.
pub open spec fn digits_value(s: Seq<char>) -> int
    decreases s.len(),
{
    if s.len() == 0 {
        0
    } else {
        64 * digits_value(s.drop_last()) + char_digit(s.last())
    }
}

proof fn lemma_pow64_bounds(n: nat)
    requires
        n <= 10,
    ensures
        1 <= pow64(n) <= pow64(10),
        pow64(10) == 0x1000_0000_0000_0000,
    decreases n,
{
    reveal_with_fuel(pow64, 11);
    if n > 0 {
        lemma_pow64_bounds((n - 1) as nat);
    }
}

/// Writing `v` in `n` digits and reading the digits back gives `v`, whenever
/// `v` fits in `n` digits; and every digit is one of `'0'` to `'o'`.
pub proof fn lemma_digits_roundtrip(v: nat, n: nat)
    requires
        v < pow64(n),
    ensures
        digits_value(digits_of(v, n)) == v,
        digits_of(v, n).len() == n,
        forall|i: int| 0 <= i < n ==> '0' <= #[trigger] digits_of(v, n)[i] <= 'o',
    decreases n,
{
    if n > 0 {
        let m = (n - 1) as nat;
        assert(v / 64 < pow64(m)) by (nonlinear_arith)
            requires
                v < 64 * pow64(m),
        ;
        lemma_digits_roundtrip(v / 64, m);
        let s = digits_of(v, n);
        assert(s.drop_last() == digits_of(v / 64, m));
        assert(v == 64 * (v / 64) + v % 64);
    }
}

/// Appends `value` to `out` as `digits` base-64 digits, most significant
/// first. The value must fit in that many digits.
pub fn digits(out: &mut String, value: u64, digits: u32)
    requires
        digits <= 10,
        value < pow64(digits as nat),
    ensures
        final(out)@ == old(out)@ + digits_of(value as nat, digits as nat),
{
    proof {
        lemma_pow64_bounds(digits as nat);
    }
    let mut tmp: Vec<char> = Vec::new();
    let mut v: u64 = value;
    let mut k: u32 = 0;
    while k < digits
        invariant
            k <= digits,
            digits_of(value as nat, digits as nat) == digits_of(v as nat, (digits - k) as nat)
                + tmp@,
        decreases digits - k,
    {
        let d = (v % 64) as u8;
        let c = (48u8 + d) as char;
        let ghost rest = digits_of((v / 64) as nat, (digits - k - 1) as nat);
        assert(digits_of(v as nat, (digits - k) as nat) == rest.push(c));
        let ghost old_tmp = tmp@;
        tmp.insert(0, c);
        assert(rest.push(c) + old_tmp =~= rest + tmp@);
        v = v / 64;
        k += 1;
    }
    let mut i: usize = 0;
    let ghost start = out@;
    while i < tmp.len()
        invariant
            i <= tmp@.len(),
            out@ == start + tmp@.take(i as int),
        decreases tmp@.len() - i,
    {
        out.push(tmp[i]);
        i += 1;
        assert(out@ =~= start + tmp@.take(i as int));
    }
    assert(tmp@.take(i as int) == tmp@);
    assert(digits_of(v as nat, 0) == Seq::<char>::empty());
    assert(digits_of(value as nat, digits as nat) =~= tmp@);
}


/// The hexadecimal digit for `d`, upper case.
pub open spec fn hex_char(d: nat) -> char {
    if d < 10 {
        (48 + d) as char
    } else {
        (55 + d) as char
    }
}

/// `n` in upper-case hexadecimal, with no leading zeros (`"0"` for zero).
pub open spec fn hex_upper(n: nat) -> Seq<char>
    decreases n,
{
    if n < 16 {
        seq![hex_char(n)]
    } else {
        hex_upper(n / 16).push(hex_char(n % 16))
    }
}

/// Appends `n` to `out` in upper-case hexadecimal.
pub fn push_hex(out: &mut String, n: u32)
    ensures
        final(out)@ == old(out)@ + hex_upper(n as nat),
{
    let mut tmp: Vec<char> = Vec::new();
    let mut v: u32 = n;
    loop
        invariant_except_break
            hex_upper(n as nat) == hex_upper(v as nat) + tmp@,
        ensures
            hex_upper(n as nat) == tmp@,
        decreases v,
    {
        let d = (v % 16) as u8;
        let c = if d < 10 { (48u8 + d) as char } else { (55u8 + d) as char };
        let ghost old_tmp = tmp@;
        tmp.insert(0, c);
        if v < 16 {
            assert(hex_upper(v as nat) == seq![c]);
            assert(hex_upper(n as nat) =~= tmp@);
            break;
        }
        let ghost rest = hex_upper((v / 16) as nat);
        assert(hex_upper(v as nat) == rest.push(c));
        assert(rest.push(c) + old_tmp =~= rest + tmp@);
        v = v / 16;
    }
    let mut i: usize = 0;
    let ghost start = out@;
    while i < tmp.len()
        invariant
            i <= tmp@.len(),
            out@ == start + tmp@.take(i as int),
            hex_upper(n as nat) == tmp@,
        decreases tmp@.len() - i,
    {
        out.push(tmp[i]);
        i += 1;
        assert(out@ =~= start + tmp@.take(i as int));
    }
    assert(tmp@.take(i as int) == tmp@);
}

/// What `long_literal` writes for the character `c`, with `line_start` true
/// for the first character of a continued line.
pub open spec fn escape_char(c: char, line_start: bool) -> Seq<char> {
    if c == '"' {
        seq!['\\', '"']
    } else if c == '\\' {
        seq!['\\', '\\']
    } else if c == '$' {
        seq!['\\', '$']
    } else if c == ' ' && line_start {
        seq!['\\', 'x', '2', '0']
    } else if ' ' <= c <= '~' {
        seq![c]
    } else {
        seq!['\\', 'u', '{'] + hex_upper((c as u32) as nat) + seq!['}']
    }
}

/// Whether the character at index `i` starts a new line of the literal.
pub open spec fn starts_line(i: int, width: nat) -> bool {
    i > 0 && i % (width as int) == 0
}

/// The continuation that breaks a literal's line: a backslash, a newline and
/// four spaces of indentation.
pub open spec fn continuation() -> Seq<char> {
    seq!['\\', '\n', ' ', ' ', ' ', ' ']
}

/// The inside of the literal for `text`, broken every `width` characters.
pub open spec fn literal_body(text: Seq<char>, width: nat) -> Seq<char>
    decreases text.len(),
{
    if text.len() == 0 {
        Seq::empty()
    } else {
        let i = text.len() - 1;
        literal_body(text.drop_last(), width) + (if starts_line(i, width) {
            continuation()
        } else {
            Seq::empty()
        }) + escape_char(text.last(), starts_line(i, width))
    }
}

/// `text` as one string literal in double quotes.
pub open spec fn literal_of(text: Seq<char>, width: nat) -> Seq<char> {
    seq!['"'] + literal_body(text, width) + seq!['"']
}

/// `text` as one string literal, broken with a backslash and a newline every
/// `width` characters so that no line of the generated file is unreadably
/// long. Only printable ASCII is written raw; every other character is a
/// `\u{...}` escape. A continuation drops the next line's leading whitespace,
/// so a space that would start a line is written `\x20`; `"`, `\` and `$`
/// (which could open a hole) are escaped with a backslash.
pub fn long_literal(text: &str, width: usize) -> (out: String)
    requires
        width > 0 || text@.len() <= 1,
    ensures
        out@ == literal_of(text@, width as nat),
{
    let cs = chars_of(text);
    let mut out = String::new();
    out.push('"');
    let mut i: usize = 0;
    while i < cs.len()
        invariant
            i <= cs@.len(),
            cs@ == text@,
            width > 0 || cs@.len() <= 1,
            out@ == seq!['"'] + literal_body(cs@.take(i as int), width as nat),
        decreases cs@.len() - i,
    {
        let c = cs[i];
        let line_start = i > 0 && i % width == 0;
        let ghost before = out@;
        if line_start {
            push_continuation(&mut out);
        }
        push_escaped(&mut out, c, line_start);
        proof {
            assert(line_start == starts_line(i as int, width as nat));
            let t = cs@.take(i as int + 1);
            assert(t.drop_last() =~= cs@.take(i as int));
            assert(t.last() == c);
            assert(out@ =~= seq!['"'] + literal_body(t, width as nat));
        }
        i += 1;
    }
    out.push('"');
    assert(cs@.take(i as int) =~= cs@);
    out
}

fn push_continuation(out: &mut String)
    ensures
        final(out)@ == old(out)@ + continuation(),
{
    out.push('\\');
    out.push('\n');
    out.push(' ');
    out.push(' ');
    out.push(' ');
    out.push(' ');
    assert(out@ =~= old(out)@ + continuation());
}

fn push_escaped(out: &mut String, c: char, line_start: bool)
    ensures
        final(out)@ == old(out)@ + escape_char(c, line_start),
{
    if c == '"' {
        out.push('\\');
        out.push('"');
    } else if c == '\\' {
        out.push('\\');
        out.push('\\');
    } else if c == '$' {
        out.push('\\');
        out.push('$');
    } else if c == ' ' && line_start {
        out.push('\\');
        out.push('x');
        out.push('2');
        out.push('0');
    } else if ' ' <= c && c <= '~' {
        out.push(c);
    } else {
        out.push('\\');
        out.push('u');
        out.push('{');
        let ghost mid = out@;
        push_hex(out, c as u32);
        out.push('}');
        assert(out@ =~= mid + hex_upper((c as u32) as nat) + seq!['}']);
    }
    assert(out@ =~= old(out)@ + escape_char(c, line_start));
}


/// Each byte of `bytes` as two digits.
pub open spec fn bytes_text(bytes: Seq<u8>) -> Seq<char>
    decreases bytes.len(),
{
    if bytes.len() == 0 {
        Seq::empty()
    } else {
        bytes_text(bytes.drop_last()) + digits_of(bytes.last() as nat, 2)
    }
}

/// `bytes` written two digits to a byte.
pub fn bytes_as_digits(bytes: &[u8]) -> (s: String)
    ensures
        s@ == bytes_text(bytes@),
{
    let mut s = String::new();
    let mut i: usize = 0;
    while i < bytes.len()
        invariant
            i <= bytes@.len(),
            s@ == bytes_text(bytes@.take(i as int)),
        decreases bytes@.len() - i,
    {
        assert(pow64(2) == 4096) by {
            reveal_with_fuel(pow64, 3);
        }
        digits(&mut s, bytes[i] as u64, 2);
        assert(bytes@.take(i as int + 1).drop_last() =~= bytes@.take(i as int));
        i += 1;
    }
    assert(bytes@.take(i as int) =~= bytes@);
    s
}

/// Whether both ends of every range fit in four digits.
pub open spec fn ranges_fit(ranges: Seq<(u32, u32)>) -> bool {
    forall|k: int|
        0 <= k < ranges.len() ==> #[trigger] ranges[k].0 < pow64(4) && ranges[k].1 < pow64(4)
}

/// Each range as `lo hi`, four digits each.
pub open spec fn range_text(ranges: Seq<(u32, u32)>) -> Seq<char>
    decreases ranges.len(),
{
    if ranges.len() == 0 {
        Seq::empty()
    } else {
        range_text(ranges.drop_last()) + digits_of(ranges.last().0 as nat, 4) + digits_of(
            ranges.last().1 as nat,
            4,
        )
    }
}

/// A table of ranges: `lo hi` for each, four digits each.
pub fn range_table(ranges: &[(u32, u32)]) -> (s: String)
    requires
        ranges_fit(ranges@),
    ensures
        s@ == range_text(ranges@),
{
    let mut s = String::new();
    let mut i: usize = 0;
    while i < ranges.len()
        invariant
            i <= ranges@.len(),
            ranges_fit(ranges@),
            s@ == range_text(ranges@.take(i as int)),
        decreases ranges@.len() - i,
    {
        let (lo, hi) = ranges[i];
        assert(ranges@[i as int].0 < pow64(4));
        digits(&mut s, lo as u64, 4);
        digits(&mut s, hi as u64, 4);
        assert(ranges@.take(i as int + 1).drop_last() =~= ranges@.take(i as int));
        i += 1;
    }
    assert(ranges@.take(i as int) =~= ranges@);
    s
}

/// Whether every special case fits its record: code points in four digits,
/// the width in one.
pub open spec fn specials_fit(specials: Seq<(u32, u32, u8, u16)>) -> bool {
    forall|k: int|
        0 <= k < specials.len() ==> #[trigger] specials[k].0 < pow64(4) && specials[k].1 < pow64(
            4,
        ) && specials[k].2 < 64
}

/// Each special case as `lo hi` (four digits each), the width (one) and the
/// state-machine information (three).
pub open spec fn special_text(specials: Seq<(u32, u32, u8, u16)>) -> Seq<char>
    decreases specials.len(),
{
    if specials.len() == 0 {
        Seq::empty()
    } else {
        let r = specials.last();
        special_text(specials.drop_last()) + digits_of(r.0 as nat, 4) + digits_of(r.1 as nat, 4)
            + digits_of(r.2 as nat, 1) + digits_of(r.3 as nat, 3)
    }
}

/// The table of special cases: `lo hi` (four digits each), then the width
/// (one) and the state-machine information (three).
pub fn special_table(specials: &[(u32, u32, u8, u16)]) -> (s: String)
    requires
        specials_fit(specials@),
    ensures
        s@ == special_text(specials@),
{
    assert(pow64(1) == 64 && pow64(3) == 262144) by {
        reveal_with_fuel(pow64, 4);
    }
    let mut s = String::new();
    let mut i: usize = 0;
    while i < specials.len()
        invariant
            i <= specials@.len(),
            specials_fit(specials@),
            pow64(1) == 64 && pow64(3) == 262144,
            s@ == special_text(specials@.take(i as int)),
        decreases specials@.len() - i,
    {
        let (lo, hi, w, info) = specials[i];
        assert(specials@[i as int].0 < pow64(4));
        digits(&mut s, lo as u64, 4);
        digits(&mut s, hi as u64, 4);
        digits(&mut s, w as u64, 1);
        digits(&mut s, info as u64, 3);
        assert(specials@.take(i as int + 1).drop_last() =~= specials@.take(i as int));
        i += 1;
    }
    assert(specials@.take(i as int) =~= specials@);
    s
}

/// The number that three bytes stand for, least significant first.
pub open spec fn le3(b: Seq<u8>) -> u32 {
    (b[0] + 256 * b[1] + 65536 * b[2]) as u32
}

/// Ranges stored as pairs of three-byte little-endian numbers, as pairs of
/// numbers.
pub fn le3_ranges(table: &[([u8; 3], [u8; 3])]) -> (out: Vec<(u32, u32)>)
    ensures
        out@.len() == table@.len(),
        forall|k: int|
            0 <= k < table@.len() ==> #[trigger] out@[k] == (le3(table@[k].0@), le3(table@[k].1@)),
{
    let mut out: Vec<(u32, u32)> = Vec::new();
    let mut i: usize = 0;
    while i < table.len()
        invariant
            i <= table@.len(),
            out@.len() == i,
            forall|k: int|
                0 <= k < i ==> #[trigger] out@[k] == (le3(table@[k].0@), le3(table@[k].1@)),
        decreases table@.len() - i,
    {
        let (lo, hi) = table[i];
        let a = lo[0] as u32 + 256 * (lo[1] as u32) + 65536 * (lo[2] as u32);
        let b = hi[0] as u32 + 256 * (hi[1] as u32) + 65536 * (hi[2] as u32);
        out.push((a, b));
        i += 1;
    }
    out
}


/// `n` in decimal, with no leading zeros.
pub open spec fn decimal(n: nat) -> Seq<char>
    decreases n,
{
    if n < 10 {
        seq![(48 + n) as char]
    } else {
        decimal(n / 10).push((48 + n % 10) as char)
    }
}

/// Appends `n` to `out` in decimal.
pub fn push_decimal(out: &mut String, n: u64)
    ensures
        final(out)@ == old(out)@ + decimal(n as nat),
{
    let mut tmp: Vec<char> = Vec::new();
    let mut v: u64 = n;
    loop
        invariant_except_break
            decimal(n as nat) == decimal(v as nat) + tmp@,
        ensures
            decimal(n as nat) == tmp@,
        decreases v,
    {
        let c = (48u8 + (v % 10) as u8) as char;
        let ghost old_tmp = tmp@;
        tmp.insert(0, c);
        if v < 10 {
            assert(decimal(v as nat) == seq![c]);
            assert(decimal(n as nat) =~= tmp@);
            break;
        }
        let ghost rest = decimal((v / 10) as nat);
        assert(decimal(v as nat) == rest.push(c));
        assert(rest.push(c) + old_tmp =~= rest + tmp@);
        v = v / 10;
    }
    let mut i: usize = 0;
    let ghost start = out@;
    while i < tmp.len()
        invariant
            i <= tmp@.len(),
            out@ == start + tmp@.take(i as int),
            decimal(n as nat) == tmp@,
        decreases tmp@.len() - i,
    {
        out.push(tmp[i]);
        i += 1;
        assert(out@ =~= start + tmp@.take(i as int));
    }
    assert(tmp@.take(i as int) =~= tmp@);
}


/// Every byte of a table is copied: the table of `bytes` is two digits a
/// byte, and the two digits of the `k`-th byte read back as that byte.
pub proof fn lemma_bytes_text_decodes(bytes: Seq<u8>)
    ensures
        bytes_text(bytes).len() == 2 * bytes.len(),
        forall|k: int|
            0 <= k < bytes.len() ==> digits_value(#[trigger] bytes_text(bytes).subrange(2 * k, 2 * k + 2))
                == bytes[k],
    decreases bytes.len(),
{
    if bytes.len() > 0 {
        let prev = bytes.drop_last();
        lemma_bytes_text_decodes(prev);
        assert(pow64(2) == 4096) by {
            reveal_with_fuel(pow64, 3);
        }
        lemma_digits_roundtrip(bytes.last() as nat, 2);
        let t = bytes_text(bytes);
        let n = bytes.len() - 1;
        assert forall|k: int| 0 <= k < bytes.len() implies digits_value(
            #[trigger] t.subrange(2 * k, 2 * k + 2),
        ) == bytes[k] by {
            if k < n {
                assert(t.subrange(2 * k, 2 * k + 2) =~= bytes_text(prev).subrange(2 * k, 2 * k + 2));
                assert(prev[k] == bytes[k]);
            } else {
                assert(t.subrange(2 * k, 2 * k + 2) =~= digits_of(bytes.last() as nat, 2));
            }
        }
    }
}

/// Every range is written out whole: the table of `ranges` is eight digits
/// a range, and the `k`-th range's two fields read back as its ends.
pub proof fn lemma_range_text_decodes(ranges: Seq<(u32, u32)>)
    requires
        ranges_fit(ranges),
    ensures
        range_text(ranges).len() == 8 * ranges.len(),
        forall|k: int|
            0 <= k < ranges.len() ==> digits_value(
                #[trigger] range_text(ranges).subrange(8 * k, 8 * k + 4),
            ) == ranges[k].0 && digits_value(range_text(ranges).subrange(8 * k + 4, 8 * k + 8))
                == ranges[k].1,
    decreases ranges.len(),
{
    if ranges.len() > 0 {
        let prev = ranges.drop_last();
        assert(ranges_fit(prev)) by {
            assert forall|k: int| 0 <= k < prev.len() implies #[trigger] prev[k].0 < pow64(4)
                && prev[k].1 < pow64(4) by {
                assert(prev[k] == ranges[k]);
            }
        }
        lemma_range_text_decodes(prev);
        let r = ranges.last();
        assert(r == ranges[ranges.len() - 1]);
        lemma_digits_roundtrip(r.0 as nat, 4);
        lemma_digits_roundtrip(r.1 as nat, 4);
        let t = range_text(ranges);
        let n = ranges.len() - 1;
        assert forall|k: int| 0 <= k < ranges.len() implies digits_value(
            #[trigger] t.subrange(8 * k, 8 * k + 4),
        ) == ranges[k].0 && digits_value(t.subrange(8 * k + 4, 8 * k + 8)) == ranges[k].1 by {
            if k < n {
                assert(t.subrange(8 * k, 8 * k + 4) =~= range_text(prev).subrange(8 * k, 8 * k + 4));
                assert(t.subrange(8 * k + 4, 8 * k + 8) =~= range_text(prev).subrange(
                    8 * k + 4,
                    8 * k + 8,
                ));
                assert(prev[k] == ranges[k]);
            } else {
                assert(t.subrange(8 * k, 8 * k + 4) =~= digits_of(r.0 as nat, 4));
                assert(t.subrange(8 * k + 4, 8 * k + 8) =~= digits_of(r.1 as nat, 4));
            }
        }
    }
}

/// Every special case is written out whole: the table of `specials` is
/// twelve digits a case, and the `k`-th case's four fields read back as its
/// ends, its width and its information.
pub proof fn lemma_special_text_decodes(specials: Seq<(u32, u32, u8, u16)>)
    requires
        specials_fit(specials),
    ensures
        special_text(specials).len() == 12 * specials.len(),
        forall|k: int|
            0 <= k < specials.len() ==> {
                &&& digits_value(#[trigger] special_text(specials).subrange(12 * k, 12 * k + 4))
                    == specials[k].0
                &&& digits_value(special_text(specials).subrange(12 * k + 4, 12 * k + 8))
                    == specials[k].1
                &&& digits_value(special_text(specials).subrange(12 * k + 8, 12 * k + 9))
                    == specials[k].2
                &&& digits_value(special_text(specials).subrange(12 * k + 9, 12 * k + 12))
                    == specials[k].3
            },
    decreases specials.len(),
{
    if specials.len() > 0 {
        let prev = specials.drop_last();
        assert(specials_fit(prev)) by {
            assert forall|k: int| 0 <= k < prev.len() implies #[trigger] prev[k].0 < pow64(4)
                && prev[k].1 < pow64(4) && prev[k].2 < 64 by {
                assert(prev[k] == specials[k]);
            }
        }
        lemma_special_text_decodes(prev);
        let r = specials.last();
        assert(r == specials[specials.len() - 1]);
        assert(pow64(1) == 64 && pow64(3) == 262144) by {
            reveal_with_fuel(pow64, 4);
        }
        lemma_digits_roundtrip(r.0 as nat, 4);
        lemma_digits_roundtrip(r.1 as nat, 4);
        lemma_digits_roundtrip(r.2 as nat, 1);
        lemma_digits_roundtrip(r.3 as nat, 3);
        let t = special_text(specials);
        let p = special_text(prev);
        let n = specials.len() - 1;
        assert forall|k: int| 0 <= k < specials.len() implies {
            &&& digits_value(#[trigger] t.subrange(12 * k, 12 * k + 4)) == specials[k].0
            &&& digits_value(t.subrange(12 * k + 4, 12 * k + 8)) == specials[k].1
            &&& digits_value(t.subrange(12 * k + 8, 12 * k + 9)) == specials[k].2
            &&& digits_value(t.subrange(12 * k + 9, 12 * k + 12)) == specials[k].3
        } by {
            if k < n {
                assert(t.subrange(12 * k, 12 * k + 4) =~= p.subrange(12 * k, 12 * k + 4));
                assert(t.subrange(12 * k + 4, 12 * k + 8) =~= p.subrange(12 * k + 4, 12 * k + 8));
                assert(t.subrange(12 * k + 8, 12 * k + 9) =~= p.subrange(12 * k + 8, 12 * k + 9));
                assert(t.subrange(12 * k + 9, 12 * k + 12) =~= p.subrange(12 * k + 9, 12 * k + 12));
                assert(prev[k] == specials[k]);
            } else {
                assert(t.subrange(12 * k, 12 * k + 4) =~= digits_of(r.0 as nat, 4));
                assert(t.subrange(12 * k + 4, 12 * k + 8) =~= digits_of(r.1 as nat, 4));
                assert(t.subrange(12 * k + 8, 12 * k + 9) =~= digits_of(r.2 as nat, 1));
                assert(t.subrange(12 * k + 9, 12 * k + 12) =~= digits_of(r.3 as nat, 3));
            }
        }
    }
}


/// A character a continuation skips: a space, a tab, a newline or a
/// carriage return.
pub open spec fn is_blank(c: char) -> bool {
    c == ' ' || c == '\t' || c == '\n' || c == '\r'
}

/// `s` without its leading blanks.
pub open spec fn skip_blank(s: Seq<char>) -> Seq<char>
    decreases s.len(),
{
    if s.len() > 0 && is_blank(s[0]) {
        skip_blank(s.drop_first())
    } else {
        s
    }
}

pub proof fn lemma_skip_blank_len(s: Seq<char>)
    ensures
        skip_blank(s).len() <= s.len(),
    decreases s.len(),
{
    if s.len() > 0 && is_blank(s[0]) {
        lemma_skip_blank_len(s.drop_first());
    }
}

/// The number of hexadecimal digits `s` starts with.
pub open spec fn hex_run(s: Seq<char>) -> nat
    decreases s.len(),
{
    if s.len() > 0 && hex_digit(s[0]) is Some {
        1 + hex_run(s.drop_first())
    } else {
        0
    }
}

pub proof fn lemma_hex_run_len(s: Seq<char>)
    ensures
        hex_run(s) <= s.len(),
    decreases s.len(),
{
    if s.len() > 0 && hex_digit(s[0]) is Some {
        lemma_hex_run_len(s.drop_first());
    }
}

/// The text that the inside of a string literal stands for, as a reader of
/// the tables reads it: `\"`, `\\` and `\$` stand for the character after
/// the backslash, `\x` and two hexadecimal digits for the character with
/// that value, `\u{...}` for the character its hexadecimal digits name, a
/// backslash before a newline for nothing, the blanks that follow being
/// dropped too; every other character stands for itself.
pub open spec fn literal_value(s: Seq<char>) -> Seq<char>
    decreases s.len(),
{
    if s.len() == 0 {
        Seq::empty()
    } else if s[0] != '\\' || s.len() < 2 {
        seq![s[0]] + literal_value(s.drop_first())
    } else {
        let e = s[1];
        if e == '"' || e == '\\' || e == '$' {
            seq![e] + literal_value(s.skip(2))
        } else if e == 'x' && s.len() >= 4 && hex_digit(s[2]) is Some && hex_digit(s[3]) is Some {
            seq![(16 * hex_digit(s[2])->0 + hex_digit(s[3])->0) as char] + literal_value(s.skip(4))
        } else if e == 'u' && s.len() >= 3 && s[2] == '{' && 3 + hex_run(s.skip(3)) < s.len() && s[3
            + hex_run(s.skip(3)) as int] == '}' {
            let n = hex_run(s.skip(3)) as int;
            proof {
                lemma_hex_run_len(s.skip(3));
            }
            seq![(hex_digits_value(s.subrange(3, 3 + n))->0) as char] + literal_value(s.skip(4 + n))
        } else if e == '\n' {
            proof {
                lemma_skip_blank_len(s.skip(2));
            }
            literal_value(skip_blank(s.skip(2)))
        } else {
            seq![s[0]] + literal_value(s.drop_first())
        }
    }
}

/// The piece of the literal that stands for the character at index `i`:
/// a continuation first where `i` starts a line, then the character, escaped
/// as it needs.
pub open spec fn literal_piece(c: char, i: int, width: nat) -> Seq<char> {
    (if starts_line(i, width) {
        continuation()
    } else {
        Seq::empty()
    }) + escape_char(c, starts_line(i, width))
}

/// The inside of the literal for `text` whose first character is at index
/// `at` of the whole text, built from the front.
pub open spec fn body_from(text: Seq<char>, width: nat, at: int) -> Seq<char>
    decreases text.len(),
{
    if text.len() == 0 {
        Seq::empty()
    } else {
        literal_piece(text[0], at, width) + body_from(text.drop_first(), width, at + 1)
    }
}

proof fn lemma_body_from_push(text: Seq<char>, c: char, width: nat, at: int)
    ensures
        body_from(text.push(c), width, at) == body_from(text, width, at) + literal_piece(
            c,
            at + text.len(),
            width,
        ),
    decreases text.len(),
{
    if text.len() == 0 {
        assert(text.push(c).drop_first() =~= Seq::<char>::empty());
        assert(text.push(c)[0] == c);
        assert(body_from(text.push(c), width, at) == literal_piece(c, at, width) + body_from(
            Seq::<char>::empty(),
            width,
            at + 1,
        ));
        assert(body_from(text.push(c), width, at) =~= literal_piece(c, at, width));
    } else {
        lemma_body_from_push(text.drop_first(), c, width, at + 1);
        assert(text.push(c).drop_first() =~= text.drop_first().push(c));
        assert(body_from(text.push(c), width, at) =~= body_from(text, width, at) + literal_piece(
            c,
            at + text.len(),
            width,
        ));
    }
}

proof fn lemma_body_from_matches(text: Seq<char>, width: nat)
    ensures
        literal_body(text, width) == body_from(text, width, 0),
    decreases text.len(),
{
    if text.len() > 0 {
        let d = text.drop_last();
        lemma_body_from_matches(d, width);
        lemma_body_from_push(d, text.last(), width, 0);
        assert(d.push(text.last()) =~= text);
        assert(literal_body(text, width) =~= body_from(text, width, 0));
    }
}

proof fn lemma_hex_char(d: nat)
    requires
        d < 16,
    ensures
        hex_digit(hex_char(d)) == Some(d),
{
    if d < 10 {
        assert(((48 + d) as char) as int == 48 + d);
    } else {
        assert(((55 + d) as char) as int == 55 + d);
    }
}

proof fn lemma_hex_upper_digits(n: nat)
    ensures
        hex_upper(n).len() > 0,
        forall|i: int| 0 <= i < hex_upper(n).len() ==> #[trigger] hex_digit(hex_upper(n)[i]) is Some,
        hex_digits_value(hex_upper(n)) == Some(n),
    decreases n,
{
    lemma_hex_char(n % 16);
    if n < 16 {
        let h = hex_upper(n);
        assert(h.drop_last() =~= Seq::<char>::empty());
        assert(h.last() == hex_char(n));
        assert(n % 16 == n);
        assert(hex_digits_value(h.drop_last()) == Some(0nat));
        assert(hex_digits_value(h) == Some(16 * 0 + n));
    } else {
        lemma_hex_upper_digits(n / 16);
        let h = hex_upper(n);
        assert(h.drop_last() == hex_upper(n / 16));
        assert(h.last() == hex_char(n % 16));
        assert(n == 16 * (n / 16) + n % 16);
        assert(hex_digits_value(h) == Some(16 * (n / 16) + n % 16));
        assert forall|i: int| 0 <= i < h.len() implies #[trigger] hex_digit(h[i]) is Some by {
            if i < h.len() - 1 {
                assert(h[i] == hex_upper(n / 16)[i]);
            }
        }
    }
}

proof fn lemma_hex_run_of(h: Seq<char>, rest: Seq<char>)
    requires
        forall|i: int| 0 <= i < h.len() ==> #[trigger] hex_digit(h[i]) is Some,
        rest.len() > 0,
        hex_digit(rest[0]) is None,
    ensures
        hex_run(h + rest) == h.len(),
    decreases h.len(),
{
    if h.len() > 0 {
        assert((h + rest).drop_first() =~= h.drop_first() + rest);
        assert forall|i: int| 0 <= i < h.drop_first().len() implies #[trigger] hex_digit(
            h.drop_first()[i],
        ) is Some by {
            assert(h.drop_first()[i] == h[i + 1]);
        }
        lemma_hex_run_of(h.drop_first(), rest);
    } else {
        assert(h + rest =~= rest);
    }
}

/// What a character's escape stands for is the character.
proof fn lemma_escape_value(c: char, line_start: bool, rest: Seq<char>)
    ensures
        literal_value(escape_char(c, line_start) + rest) == seq![c] + literal_value(rest),
        escape_char(c, line_start).len() > 0,
        line_start ==> !is_blank((escape_char(c, line_start) + rest)[0]),
{
    let e = escape_char(c, line_start);
    let s = e + rest;
    if c == '"' || c == '\\' || c == '$' {
        assert(s.skip(2) =~= rest);
    } else if c == ' ' && line_start {
        assert(s.skip(4) =~= rest);
        assert(hex_digit('2') == Some(2nat));
        assert(hex_digit('0') == Some(0nat));
        assert((16 * 2 + 0) as char == ' ');
    } else if ' ' <= c <= '~' {
        assert(s.drop_first() =~= rest);
    } else {
        let v = (c as u32) as nat;
        let h = hex_upper(v);
        lemma_hex_upper_digits(v);
        assert(s =~= seq!['\\', 'u', '{'] + (h + (seq!['}'] + rest)));
        assert(s.skip(3) =~= h + (seq!['}'] + rest));
        lemma_hex_run_of(h, seq!['}'] + rest);
        assert(s[3 + h.len() as int] == '}');
        assert(s.subrange(3, 3 + h.len() as int) =~= h);
        assert(s.skip(4 + h.len() as int) =~= rest);
        assert((v as char) == c) by {
            vstd::utf8::char_u32_cast(c, c as u32);
        }
    }
}

/// A piece of the literal stands for its character.
proof fn lemma_piece_value(c: char, i: int, width: nat, rest: Seq<char>)
    ensures
        literal_value(literal_piece(c, i, width) + rest) == seq![c] + literal_value(rest),
{
    let ls = starts_line(i, width);
    let e = escape_char(c, ls);
    lemma_escape_value(c, ls, rest);
    if ls {
        let s = literal_piece(c, i, width) + rest;
        assert(s =~= continuation() + (e + rest));
        let t = s.skip(2);
        assert(t =~= seq![' ', ' ', ' ', ' '] + (e + rest));
        let t1 = t.drop_first();
        let t2 = t1.drop_first();
        let t3 = t2.drop_first();
        let t4 = t3.drop_first();
        assert(t4 =~= e + rest);
        assert(skip_blank(e + rest) == e + rest);
        assert(skip_blank(t3) == skip_blank(t4));
        assert(skip_blank(t2) == skip_blank(t3));
        assert(skip_blank(t1) == skip_blank(t2));
        assert(skip_blank(t) == skip_blank(t1));
        assert(s[0] == '\\' && s[1] == '\n');
    } else {
        assert(literal_piece(c, i, width) + rest =~= e + rest);
    }
}

proof fn lemma_body_from_value(text: Seq<char>, width: nat, at: int)
    ensures
        literal_value(body_from(text, width, at)) == text,
    decreases text.len(),
{
    if text.len() > 0 {
        lemma_body_from_value(text.drop_first(), width, at + 1);
        lemma_piece_value(text[0], at, width, body_from(text.drop_first(), width, at + 1));
        assert(seq![text[0]] + text.drop_first() =~= text);
    }
}

/// What `long_literal` writes stands for `text`: read between its quotes,
/// with its escapes and continuations read as a reader of the tables reads
/// them (see `literal_value`), the literal gives back `text` exactly,
/// whatever the width it was broken at.
pub proof fn lemma_long_literal_roundtrip(text: Seq<char>, width: nat)
    ensures
        literal_value(literal_of(text, width).subrange(1, literal_of(text, width).len() - 1))
            == text,
{
    lemma_body_from_matches(text, width);
    lemma_body_from_value(text, width, 0);
    let l = literal_of(text, width);
    assert(l.subrange(1, l.len() - 1) =~= literal_body(text, width));
}


/// A character a plain-text file may hold: printable ASCII or a newline.
pub open spec fn is_plain(c: char) -> bool {
    (' ' <= c <= '~') || c == '\n'
}

/// Whether every character of `s` is plain.
pub open spec fn all_plain(s: Seq<char>) -> bool {
    forall|i: int| 0 <= i < s.len() ==> is_plain(#[trigger] s[i])
}

proof fn lemma_plain_concat(a: Seq<char>, b: Seq<char>)
    requires
        all_plain(a),
        all_plain(b),
    ensures
        all_plain(a + b),
{
    assert forall|i: int| 0 <= i < (a + b).len() implies is_plain(#[trigger] (a + b)[i]) by {
        if i < a.len() {
            assert((a + b)[i] == a[i]);
        } else {
            assert((a + b)[i] == b[i - a.len()]);
        }
    }
}

proof fn lemma_hex_upper_plain(n: nat)
    ensures
        all_plain(hex_upper(n)),
    decreases n,
{
    let d = n % 16;
    if d < 10 {
        assert(((48 + d) as char) as int == 48 + d);
    } else {
        assert(((55 + d) as char) as int == 55 + d);
    }
    if n >= 16 {
        lemma_hex_upper_plain(n / 16);
        lemma_plain_concat(hex_upper(n / 16), seq![hex_char(d)]);
        assert(hex_upper(n) =~= hex_upper(n / 16) + seq![hex_char(d)]);
    }
}

proof fn lemma_piece_plain(c: char, i: int, width: nat)
    ensures
        all_plain(literal_piece(c, i, width)),
{
    let ls = starts_line(i, width);
    let e = escape_char(c, ls);
    if !(c == '"' || c == '\\' || c == '$' || (c == ' ' && ls) || (' ' <= c <= '~')) {
        let h = hex_upper((c as u32) as nat);
        lemma_hex_upper_plain((c as u32) as nat);
        lemma_plain_concat(seq!['\\', 'u', '{'], h);
        lemma_plain_concat(seq!['\\', 'u', '{'] + h, seq!['}']);
    }
    assert(all_plain(e));
    lemma_plain_concat(
        if ls {
            continuation()
        } else {
            Seq::empty()
        },
        e,
    );
}

proof fn lemma_body_from_plain(text: Seq<char>, width: nat, at: int)
    ensures
        all_plain(body_from(text, width, at)),
    decreases text.len(),
{
    if text.len() > 0 {
        lemma_body_from_plain(text.drop_first(), width, at + 1);
        lemma_piece_plain(text[0], at, width);
        lemma_plain_concat(literal_piece(text[0], at, width), body_from(text.drop_first(), width, at + 1));
    }
}

/// What `long_literal` writes is plain text: every character of it is
/// printable ASCII or a newline, whatever `text` holds.
pub proof fn lemma_long_literal_plain(text: Seq<char>, width: nat)
    ensures
        all_plain(literal_of(text, width)),
{
    lemma_body_from_matches(text, width);
    lemma_body_from_plain(text, width, 0);
    lemma_plain_concat(seq!['"'], literal_body(text, width));
    lemma_plain_concat(seq!['"'] + literal_body(text, width), seq!['"']);
}


/// Of the 64 digit characters only `\` needs escaping in a literal: every
/// other one is written as it is, and `"` and `$` are not digits.
pub proof fn lemma_digit_escape(d: nat, line_start: bool)
    requires
        d < 64,
    ensures
        digit_char(d) != '"' && digit_char(d) != '$' && digit_char(d) != ' ',
        digit_char(d) == '\\' <==> d == 44,
        escape_char(digit_char(d), line_start) == if d == 44 {
            seq!['\\', '\\']
        } else {
            seq![digit_char(d)]
        },
{
    assert(((48 + d) as char) as int == 48 + d);
}


/// A table of bytes survives being written as a literal: reading the
/// literal back (see `literal_value`) gives two digits a byte, and the two
/// digits of the `k`-th byte read back as that byte.
pub proof fn lemma_bytes_literal_roundtrip(bytes: Seq<u8>, width: nat)
    ensures
        ({
            let l = literal_of(bytes_text(bytes), width);
            let back = literal_value(l.subrange(1, l.len() - 1));
            &&& back.len() == 2 * bytes.len()
            &&& forall|k: int|
                0 <= k < bytes.len() ==> digits_value(#[trigger] back.subrange(2 * k, 2 * k + 2))
                    == bytes[k]
        }),
{
    lemma_long_literal_roundtrip(bytes_text(bytes), width);
    lemma_bytes_text_decodes(bytes);
}


/// `a` comes before `b` in the order of strings: at the first place where
/// they differ, `a` has the smaller character, or `a` is a proper prefix
/// of `b`.
pub open spec fn text_lt(a: Seq<char>, b: Seq<char>) -> bool
    decreases a.len(),
{
    if a.len() == 0 {
        b.len() > 0
    } else if b.len() == 0 {
        false
    } else if a[0] != b[0] {
        a[0] < b[0]
    } else {
        text_lt(a.drop_first(), b.drop_first())
    }
}

proof fn lemma_text_lt_push(a: Seq<char>, b: Seq<char>, c: char, d: char)
    requires
        a.len() == b.len(),
        text_lt(a, b) || (a == b && c < d),
    ensures
        text_lt(a.push(c), b.push(d)),
    decreases a.len(),
{
    if a.len() > 0 {
        assert(a.push(c).drop_first() =~= a.drop_first().push(c));
        assert(b.push(d).drop_first() =~= b.drop_first().push(d));
        if a[0] == b[0] {
            lemma_text_lt_push(a.drop_first(), b.drop_first(), c, d);
        }
    }
}

/// The digits keep the order of numbers: of two numbers that fit in `n`
/// digits, the smaller one's digits come first in the order of strings.
pub proof fn lemma_digits_order(x: nat, y: nat, n: nat)
    requires
        x < y < pow64(n),
    ensures
        text_lt(digits_of(x, n), digits_of(y, n)),
    decreases n,
{
    let m = (n - 1) as nat;
    assert(y / 64 < pow64(m)) by (nonlinear_arith)
        requires
            y < 64 * pow64(m),
    ;
    assert(x / 64 <= y / 64) by (nonlinear_arith)
        requires
            x < y,
    ;
    lemma_digits_roundtrip(x / 64, m);
    lemma_digits_roundtrip(y / 64, m);
    if x / 64 < y / 64 {
        lemma_digits_order(x / 64, y / 64, m);
    } else {
        assert(x % 64 < y % 64);
        assert(digit_char(x % 64) < digit_char(y % 64));
    }
    lemma_text_lt_push(digits_of(x / 64, m), digits_of(y / 64, m), digit_char(x % 64), digit_char(y % 64));
}

/// The table of two byte strings one after the other is the table of the
/// first followed by the table of the second.
pub proof fn lemma_bytes_text_concat(a: Seq<u8>, b: Seq<u8>)
    ensures
        bytes_text(a + b) == bytes_text(a) + bytes_text(b),
    decreases b.len(),
{
    if b.len() == 0 {
        assert(a + b =~= a);
    } else {
        assert((a + b).drop_last() =~= a + b.drop_last());
        lemma_bytes_text_concat(a, b.drop_last());
    }
}

/// The first of the two digits of every byte is `'0'` to `'3'`: a byte is
/// less than 4 times 64.
pub proof fn lemma_bytes_text_first_digit(bytes: Seq<u8>)
    ensures
        forall|k: int| 0 <= k < bytes.len() ==> '0' <= #[trigger] bytes_text(bytes)[2 * k] <= '3',
    decreases bytes.len(),
{
    if bytes.len() > 0 {
        let prev = bytes.drop_last();
        lemma_bytes_text_first_digit(prev);
        lemma_bytes_text_decodes(prev);
        let v = bytes.last() as nat;
        let d = digits_of(v, 2);
        assert(d[0] == digit_char(v / 64)) by {
            assert(digits_of(v / 64, 1) == digits_of(v / 64 / 64, 0).push(digit_char((v / 64) % 64)));
            assert((v / 64) % 64 == v / 64);
        }
        let t = bytes_text(bytes);
        assert forall|k: int| 0 <= k < bytes.len() implies '0' <= #[trigger] t[2 * k] <= '3' by {
            if k < prev.len() {
                assert(t[2 * k] == bytes_text(prev)[2 * k]);
            } else {
                assert(t[2 * k] == d[0]);
            }
        }
    }
}

/// How many newlines `s` holds.
pub open spec fn newline_count(s: Seq<char>) -> nat
    decreases s.len(),
{
    if s.len() == 0 {
        0
    } else {
        newline_count(s.drop_last()) + if s.last() == '\n' {
            1nat
        } else {
            0nat
        }
    }
}

proof fn lemma_newline_count_concat(a: Seq<char>, b: Seq<char>)
    ensures
        newline_count(a + b) == newline_count(a) + newline_count(b),
    decreases b.len(),
{
    if b.len() == 0 {
        assert(a + b =~= a);
    } else {
        assert((a + b).drop_last() =~= a + b.drop_last());
        lemma_newline_count_concat(a, b.drop_last());
    }
}

proof fn lemma_newline_count_none(s: Seq<char>)
    requires
        forall|i: int| 0 <= i < s.len() ==> #[trigger] s[i] != '\n',
    ensures
        newline_count(s) == 0,
    decreases s.len(),
{
    if s.len() > 0 {
        lemma_newline_count_none(s.drop_last());
    }
}

proof fn lemma_escape_no_newline(c: char, line_start: bool)
    ensures
        newline_count(escape_char(c, line_start)) == 0,
{
    let e = escape_char(c, line_start);
    if !(c == '"' || c == '\\' || c == '$' || (c == ' ' && line_start) || (' ' <= c <= '~')) {
        let h = hex_upper((c as u32) as nat);
        lemma_hex_upper_digits((c as u32) as nat);
        assert forall|i: int| 0 <= i < e.len() implies #[trigger] e[i] != '\n' by {
            if 3 <= i < 3 + h.len() {
                assert(e[i] == h[i - 3]);
                assert(hex_digit(h[i - 3]) is Some);
            }
        }
    }
    lemma_newline_count_none(e);
}

proof fn lemma_step_count(m: int, w: int)
    requires
        m >= 1,
        w >= 1,
    ensures
        m / w == (m - 1) / w + if m % w == 0 {
            1int
        } else {
            0int
        },
{
    let q = (m - 1) / w;
    let r = (m - 1) % w;
    assert(m - 1 == w * q + r && 0 <= r < w) by (nonlinear_arith)
        requires
            w >= 1,
            q == (m - 1) / w,
            r == (m - 1) % w,
    ;
    if r == w - 1 {
        assert(m == w * (q + 1)) by (nonlinear_arith)
            requires
                m - 1 == w * q + r,
                r == w - 1,
        ;
        assert(m / w == q + 1 && m % w == 0) by (nonlinear_arith)
            requires
                m == w * (q + 1),
                w >= 1,
        ;
    } else {
        assert(m == w * q + (r + 1) && 0 <= r + 1 < w);
        assert(m / w == q && m % w == r + 1) by (nonlinear_arith)
            requires
                m == w * q + (r + 1),
                0 <= r + 1 < w,
        ;
    }
}

proof fn lemma_body_newlines(text: Seq<char>, width: nat)
    requires
        width > 0,
    ensures
        newline_count(literal_body(text, width)) == if text.len() == 0 {
            0
        } else {
            ((text.len() - 1) / (width as int)) as nat
        },
    decreases text.len(),
{
    if text.len() > 0 {
        let prev = text.drop_last();
        let i = text.len() - 1;
        lemma_body_newlines(prev, width);
        let cont = if starts_line(i, width) {
            continuation()
        } else {
            Seq::empty()
        };
        lemma_escape_no_newline(text.last(), starts_line(i, width));
        lemma_newline_count_concat(literal_body(prev, width), cont);
        lemma_newline_count_concat(literal_body(prev, width) + cont, escape_char(text.last(), starts_line(i, width)));
        if starts_line(i, width) {
            assert(newline_count(continuation()) == 1) by {
                reveal_with_fuel(newline_count, 7);
            }
        }
        if i >= 1 {
            lemma_step_count(i, width as int);
        }
    }
}

/// What `long_literal` writes is one literal in double quotes whose text,
/// `n` characters long, is broken by exactly `(n - 1) / width` newlines, or
/// none where it is empty: one before each `width`-th character but the
/// first.
pub proof fn lemma_long_literal_lines(text: Seq<char>, width: nat)
    requires
        width > 0,
    ensures
        literal_of(text, width)[0] == '"',
        literal_of(text, width).last() == '"',
        newline_count(literal_of(text, width)) == if text.len() == 0 {
            0
        } else {
            ((text.len() - 1) / (width as int)) as nat
        },
{
    lemma_body_newlines(text, width);
    lemma_newline_count_concat(seq!['"'], literal_body(text, width));
    lemma_newline_count_concat(seq!['"'] + literal_body(text, width), seq!['"']);
    reveal_with_fuel(newline_count, 2);
}

} // verus!
