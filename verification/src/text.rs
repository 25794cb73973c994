//! Strings as sequences of characters.

use vstd::prelude::*;

verus! {

/// `String::push` appends one character.
pub assume_specification[ String::push ](s: &mut String, ch: char)
    ensures
        final(s)@ == old(s)@.push(ch),
;

/// `char::from_u32` gives the character with that scalar value, or `None`
/// where the value is a surrogate or above `0x10FFFF`.
pub assume_specification[ char::from_u32 ](i: u32) -> (c: Option<char>)
    ensures
        c == (if is_scalar(i as int) { Some(i as char) } else { None }),
;

/// A value that some `char` has: below `0x110000` and not a surrogate.
pub open spec fn is_scalar(cp: int) -> bool {
    0 <= cp < 0x110000 && !(0xD800 <= cp <= 0xDFFF)
}

/// The characters of `s`, in order.
pub fn chars_of(s: &str) -> (v: Vec<char>)
    ensures
        v@ == s@,
{
    let mut v: Vec<char> = Vec::new();
    for c in it: s.chars()
        invariant
            v@ == it.seq().take(it.index() as int),
    {
        v.push(c);
    }
    v
}

/// A `String` holding the characters of `v`.
pub fn string_of(v: &Vec<char>) -> (s: String)
    ensures
        s@ == v@,
{
    let mut s = String::new();
    let mut i: usize = 0;
    while i < v.len()
        invariant
            i <= v@.len(),
            s@ == v@.take(i as int),
        decreases v@.len() - i,
    {
        s.push(v[i]);
        i += 1;
        assert(s@ == v@.take(i as int));
    }
    assert(v@.take(i as int) == v@);
    s
}

/// Whether `c` has the Unicode `White_Space` property: the controls U+0009
/// to U+000D, U+0020, U+0085, U+00A0, U+1680, U+2000 to U+200A, U+2028,
/// U+2029, U+202F, U+205F and U+3000.
pub open spec fn white_space(c: char) -> bool {
    let n = c as u32;
    ||| 0x9 <= n <= 0xD
    ||| n == 0x20
    ||| n == 0x85
    ||| n == 0xA0
    ||| n == 0x1680
    ||| 0x2000 <= n <= 0x200A
    ||| n == 0x2028
    ||| n == 0x2029
    ||| n == 0x202F
    ||| n == 0x205F
    ||| n == 0x3000
}

/// Whether `c` has the Unicode `White_Space` property, as
/// `char::is_whitespace` answers.
pub fn is_whitespace(c: char) -> (b: bool)
    ensures
        b == white_space(c),
{
    let n = c as u32;
    (0x9 <= n && n <= 0xD) || n == 0x20 || n == 0x85 || n == 0xA0 || n == 0x1680 || (0x2000 <= n
        && n <= 0x200A) || n == 0x2028 || n == 0x2029 || n == 0x202F || n == 0x205F || n == 0x3000
}

/// Whether `s` begins with `p`.
pub open spec fn starts(s: Seq<char>, p: Seq<char>) -> bool {
    p.len() <= s.len() && s.take(p.len() as int) == p
}

/// Whether `s` ends with `p`.
pub open spec fn ends(s: Seq<char>, p: Seq<char>) -> bool {
    p.len() <= s.len() && s.skip(s.len() - p.len()) == p
}

/// Whether `p` occurs in `s`.
pub open spec fn has(s: Seq<char>, p: Seq<char>) -> bool {
    exists|i: int| 0 <= i <= s.len() - p.len() && #[trigger] s.subrange(i, i + p.len()) == p
}

/// The number of leading white-space characters of `s`.
pub open spec fn leading_space(s: Seq<char>) -> nat
    decreases s.len(),
{
    if s.len() > 0 && white_space(s[0]) {
        1 + leading_space(s.drop_first())
    } else {
        0
    }
}

/// `s` without its leading white space.
pub open spec fn trim_start(s: Seq<char>) -> Seq<char> {
    s.skip(leading_space(s) as int)
}

/// The pieces of `s` between newlines: one more than there are newlines.
pub open spec fn split_newlines(s: Seq<char>) -> Seq<Seq<char>>
    decreases s.len(),
{
    if s.len() == 0 {
        seq![Seq::empty()]
    } else if s.last() == '\n' {
        split_newlines(s.drop_last()).push(Seq::empty())
    } else {
        let p = split_newlines(s.drop_last());
        p.update(p.len() - 1, p.last().push(s.last()))
    }
}

/// `line` without one carriage return at its end.
pub open spec fn strip_cr(line: Seq<char>) -> Seq<char> {
    if line.len() > 0 && line.last() == '\r' {
        line.drop_last()
    } else {
        line
    }
}

/// The lines of `s`, as `str::lines` gives them: split at `\n` or `\r\n`,
/// which are not kept, and with no empty last line after a final line
/// ending. A carriage return not followed by a newline stays in its line.
pub open spec fn lines_of(s: Seq<char>) -> Seq<Seq<char>> {
    let p = split_newlines(s);
    let n = if p.last().len() == 0 {
        p.len() - 1
    } else {
        p.len() as int
    };
    Seq::new(n as nat, |i: int| if i < p.len() - 1 { strip_cr(p[i]) } else { p[i] })
}

pub proof fn lemma_split_nonempty(s: Seq<char>)
    ensures
        split_newlines(s).len() >= 1,
    decreases s.len(),
{
    if s.len() > 0 {
        lemma_split_nonempty(s.drop_last());
    }
}

/// The lines of `s` (see `lines_of`).
pub fn lines(s: &Vec<char>) -> (out: Vec<Vec<char>>)
    ensures
        out@.len() == lines_of(s@).len(),
        forall|i: int| 0 <= i < out@.len() ==> #[trigger] out@[i]@ == lines_of(s@)[i],
{
    let mut pieces: Vec<Vec<char>> = Vec::new();
    let mut cur: Vec<char> = Vec::new();
    let mut i: usize = 0;
    while i < s.len()
        invariant
            i <= s@.len(),
            pieces@.len() + 1 == split_newlines(s@.take(i as int)).len(),
            forall|k: int|
                0 <= k < pieces@.len() ==> #[trigger] pieces@[k]@ == split_newlines(
                    s@.take(i as int),
                )[k],
            cur@ == split_newlines(s@.take(i as int)).last(),
        decreases s@.len() - i,
    {
        proof {
            lemma_split_nonempty(s@.take(i as int));
        }
        let c = s[i];
        assert(s@.take(i as int + 1).drop_last() =~= s@.take(i as int));
        if c == '\n' {
            pieces.push(cur);
            cur = Vec::new();
        } else {
            cur.push(c);
        }
        i += 1;
        proof {
            lemma_split_nonempty(s@.take(i as int));
        }
    }
    assert(s@.take(i as int) =~= s@);
    proof {
        lemma_split_nonempty(s@);
    }
    let mut out: Vec<Vec<char>> = Vec::new();
    let mut k: usize = 0;
    while k < pieces.len()
        invariant
            k <= pieces@.len(),
            pieces@.len() + 1 == split_newlines(s@).len(),
            forall|j: int| 0 <= j < pieces@.len() ==> #[trigger] pieces@[j]@ == split_newlines(s@)[j],
            out@.len() == k,
            forall|j: int| 0 <= j < k ==> #[trigger] out@[j]@ == strip_cr(split_newlines(s@)[j]),
        decreases pieces@.len() - k,
    {
        let p = &pieces[k];
        let mut line: Vec<char> = Vec::new();
        let n = p.len();
        let keep = if n > 0 && p[n - 1] == '\r' { n - 1 } else { n };
        let mut j: usize = 0;
        while j < keep
            invariant
                j <= keep <= p@.len(),
                line@ == p@.take(j as int),
            decreases keep - j,
        {
            line.push(p[j]);
            j += 1;
            assert(line@ =~= p@.take(j as int));
        }
        assert(line@ =~= strip_cr(p@));
        out.push(line);
        k += 1;
    }
    if cur.len() > 0 {
        out.push(cur);
    }
    assert(out@.len() == lines_of(s@).len());
    out
}

/// The number of leading white-space characters of `s` from `from` on.
pub fn leading_space_from(s: &Vec<char>, from: usize) -> (n: usize)
    requires
        from <= s@.len(),
    ensures
        from + n <= s@.len(),
        n == leading_space(s@.skip(from as int)),
{
    let mut i: usize = from;
    while i < s.len() && is_whitespace(s[i])
        invariant
            from <= i <= s@.len(),
            leading_space(s@.skip(from as int)) == (i - from) + leading_space(s@.skip(i as int)),
        decreases s@.len() - i,
    {
        assert(s@.skip(i as int).drop_first() =~= s@.skip(i as int + 1));
        i += 1;
    }
    i - from
}

/// Whether `s` from index `from` on begins with `p`.
pub fn starts_at(s: &Vec<char>, from: usize, p: &str) -> (b: bool)
    requires
        from <= s@.len(),
    ensures
        b == starts(s@.skip(from as int), p@),
{
    let pc = chars_of(p);
    if pc.len() > s.len() - from {
        return false;
    }
    let mut j: usize = 0;
    while j < pc.len()
        invariant
            pc@ == p@,
            from <= s@.len() <= usize::MAX,
            pc@.len() <= s@.len() - from,
            j <= pc@.len(),
            forall|k: int| 0 <= k < j ==> s@[from + k] == pc@[k],
        decreases pc@.len() - j,
    {
        assert(from + j < s@.len() <= usize::MAX);
        if s[from + j] != pc[j] {
            assert(s@.skip(from as int).take(pc@.len() as int)[j as int] != pc@[j as int]);
            return false;
        }
        j += 1;
    }
    assert(s@.skip(from as int).take(pc@.len() as int) =~= pc@);
    true
}

/// Whether `s` ends with `p`.
pub fn ends_with(s: &Vec<char>, p: &str) -> (b: bool)
    ensures
        b == ends(s@, p@),
{
    let pc = chars_of(p);
    if pc.len() > s.len() {
        return false;
    }
    let from = s.len() - pc.len();
    let b = starts_at(s, from, p);
    assert(s@.skip(from as int).take(pc@.len() as int) =~= s@.skip(from as int));
    b
}

/// Whether `p` occurs in `s` from index `from` on.
pub fn has_at(s: &Vec<char>, from: usize, p: &str) -> (b: bool)
    requires
        from <= s@.len(),
    ensures
        b == has(s@.skip(from as int), p@),
{
    let pc = chars_of(p);
    let ghost t = s@.skip(from as int);
    if pc.len() > s.len() - from {
        return false;
    }
    let last = s.len() - pc.len();
    let mut i: usize = from;
    loop
        invariant
            pc@ == p@,
            from <= i <= last,
            last == s@.len() - pc@.len(),
            t == s@.skip(from as int),
            forall|k: int| 0 <= k < i - from ==> #[trigger] t.subrange(k, k + pc@.len()) != pc@,
        decreases last - i,
    {
        assert(t.subrange(i - from, i - from + pc@.len()) =~= s@.skip(i as int).take(
            pc@.len() as int,
        ));
        if starts_at(s, i, p) {
            return true;
        }
        if i == last {
            return false;
        }
        i += 1;
    }
}

} // verus!
