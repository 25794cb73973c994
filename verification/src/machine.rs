//! The fingerprint of a state machine's source.

use vstd::prelude::*;
use crate::text::{
    chars_of, ends, ends_with, has, has_at, leading_space, leading_space_from, lines, lines_of,
    split_newlines, starts, starts_at, string_of, trim_start, white_space,
};

verus! {

/// The FNV-1a offset basis.
pub const FNV_OFFSET: u64 = 0xcbf2_9ce4_8422_2325;

/// The FNV-1a prime.
pub const FNV_PRIME: u64 = 0x0100_0000_01b3;

/// FNV-1a over `bytes`: start at the offset basis, then for each byte xor it
/// in and multiply by the prime, modulo 2^64.
pub open spec fn fnv1a(bytes: Seq<u8>) -> u64
    decreases bytes.len(),
{
    if bytes.len() == 0 {
        FNV_OFFSET
    } else {
        let h = fnv1a(bytes.drop_last());
        (((h ^ (bytes.last() as u64)) as nat * FNV_PRIME as nat) % 0x1_0000_0000_0000_0000) as u64
    }
}

/// The FNV-1a hash of the UTF-8 bytes of `text`.
pub fn fingerprint(text: &str) -> (h: u64)
    ensures
        h == fnv1a(vstd::utf8::encode_utf8(text@)),
{
    let bytes = text.as_bytes();
    let mut h: u64 = FNV_OFFSET;
    let mut i: usize = 0;
    while i < bytes.len()
        invariant
            i <= bytes@.len(),
            bytes@ == vstd::utf8::encode_utf8(text@),
            h == fnv1a(bytes@.take(i as int)),
        decreases bytes@.len() - i,
    {
        assert(bytes@.take(i as int + 1).drop_last() == bytes@.take(i as int));
        h ^= bytes[i] as u64;
        h = h.wrapping_mul(FNV_PRIME);
        i += 1;
    }
    assert(bytes@.take(i as int) == bytes@);
    h
}


/// FNV-1a over `bytes`, starting from the state `h` in place of the offset
/// basis.
pub open spec fn fnv1a_from(h: u64, bytes: Seq<u8>) -> u64
    decreases bytes.len(),
{
    if bytes.len() == 0 {
        h
    } else {
        let g = fnv1a_from(h, bytes.drop_last());
        (((g ^ (bytes.last() as u64)) as nat * FNV_PRIME as nat) % 0x1_0000_0000_0000_0000) as u64
    }
}

proof fn lemma_fnv1a_concat(a: Seq<u8>, b: Seq<u8>)
    ensures
        fnv1a(a + b) == fnv1a_from(fnv1a(a), b),
    decreases b.len(),
{
    if b.len() == 0 {
        assert(a + b =~= a);
    } else {
        assert((a + b).drop_last() =~= a + b.drop_last());
        lemma_fnv1a_concat(a, b.drop_last());
    }
}

proof fn lemma_encode_utf8_concat(a: Seq<char>, b: Seq<char>)
    ensures
        vstd::utf8::encode_utf8(a + b) == vstd::utf8::encode_utf8(a) + vstd::utf8::encode_utf8(b),
    decreases a.len(),
{
    if a.len() == 0 {
        assert(a + b =~= b);
    } else {
        assert((a + b).drop_first() =~= a.drop_first() + b);
        assert((a + b)[0] == a[0]);
        lemma_encode_utf8_concat(a.drop_first(), b);
    }
}

/// The fingerprint is the whole state of the hash: two texts with the same
/// fingerprint keep the same fingerprint when the same text `u` is appended
/// to both.
pub proof fn lemma_fingerprint_suffix(s: Seq<char>, t: Seq<char>, u: Seq<char>)
    requires
        fnv1a(vstd::utf8::encode_utf8(s)) == fnv1a(vstd::utf8::encode_utf8(t)),
    ensures
        fnv1a(vstd::utf8::encode_utf8(s + u)) == fnv1a(vstd::utf8::encode_utf8(t + u)),
{
    lemma_encode_utf8_concat(s, u);
    lemma_encode_utf8_concat(t, u);
    lemma_fnv1a_concat(vstd::utf8::encode_utf8(s), vstd::utf8::encode_utf8(u));
    lemma_fnv1a_concat(vstd::utf8::encode_utf8(t), vstd::utf8::encode_utf8(u));
}


/// What reading one line of the tables source does, given whether a table
/// (`in_data`) or the ligature predicate (`in_ligature`) is open: the two
/// flags afterwards, and what is kept of the line (the line and a newline,
/// or nothing).
///
/// A table opens on a line that begins (after its indentation) with
/// `static ` or `pub static ` and does not close on the same line with `];`
/// or `]);`; it closes on a line that begins with one of those. Table lines
/// are dropped. Inside `fn is_ligature_transparent`, up to a line that is
/// just `}`, the `matches!` lines are dropped. Comments, the two table sizes,
/// the version number, and the match arms that name particular characters
/// (`'\u{...} => (...` and `0x.. => ...`) are dropped. Everything else is
/// kept.
pub open spec fn logic_step(state: (bool, bool), line: Seq<char>) -> ((bool, bool), Seq<char>) {
    let t = trim_start(line);
    let (in_data, in_ligature) = state;
    if in_data {
        ((!(starts(line, "]);"@) || starts(line, "];"@)), in_ligature), Seq::empty())
    } else if starts(t, "static "@) || starts(t, "pub static "@) {
        ((!(ends(line, "];"@) || ends(line, "]);"@)), in_ligature), Seq::empty())
    } else {
        let lig = in_ligature || starts(t, "fn is_ligature_transparent"@);
        if lig && starts(t, "matches!"@) {
            ((false, lig), Seq::empty())
        } else {
            let lig2 = if lig && line == "}"@ {
                false
            } else {
                lig
            };
            let data = starts(t, "//"@) || starts(t, "const WIDTH_MIDDLE_LEN"@) || starts(
                t,
                "const WIDTH_LEAVES_LEN"@,
            ) || starts(t, "pub const UNICODE_VERSION"@) || (starts(t, "'\\u{"@) && has(
                t,
                "=> ("@,
            )) || (starts(t, "0x"@) && has(t, " => "@));
            ((false, lig2), if data {
                Seq::empty()
            } else {
                line.push('\n')
            })
        }
    }
}

/// Reading `lines` one after another from the start, with no table and no
/// ligature predicate open: the flags at the end, and what is kept.
pub open spec fn logic_run(lines: Seq<Seq<char>>) -> ((bool, bool), Seq<char>)
    decreases lines.len(),
{
    if lines.len() == 0 {
        ((false, false), Seq::empty())
    } else {
        let (state, kept) = logic_run(lines.drop_last());
        let (next, piece) = logic_step(state, lines.last());
        (next, kept + piece)
    }
}

/// What is kept of the tables source `text`: its code with the data taken
/// out (see `logic_step`), each kept line ending in a newline.
pub open spec fn logic_text(text: Seq<char>) -> Seq<char> {
    logic_run(lines_of(text)).1
}

/// Reads one line (see `logic_step`) and appends what is kept of it.
fn logic_line(out: &mut Vec<char>, state: (bool, bool), line: &Vec<char>) -> (next: (bool, bool))
    ensures
        next == logic_step(state, line@).0,
        final(out)@ == old(out)@ + logic_step(state, line@).1,
{
    let lead = leading_space_from(line, 0);
    assert(line@.skip(0) =~= line@);
    let (in_data, in_ligature) = state;
    if in_data {
        let closes = starts_at(line, 0, "]);") || starts_at(line, 0, "];");
        return (!closes, in_ligature);
    }
    if starts_at(line, lead, "static ") || starts_at(line, lead, "pub static ") {
        let one_line = ends_with(line, "];") || ends_with(line, "]);");
        return (!one_line, in_ligature);
    }
    let mut lig = in_ligature;
    if starts_at(line, lead, "fn is_ligature_transparent") {
        lig = true;
    }
    if lig && starts_at(line, lead, "matches!") {
        return (false, lig);
    }
    let close_brace = line.len() == 1 && line[0] == '}';
    proof {
        reveal_strlit("}");
        if line@ == "}"@ {
            assert(line@[0] == '}');
        }
        if close_brace {
            assert(line@ =~= "}"@);
        }
    }
    if lig && close_brace {
        lig = false;
    }
    let data = starts_at(line, lead, "//") || starts_at(line, lead, "const WIDTH_MIDDLE_LEN")
        || starts_at(line, lead, "const WIDTH_LEAVES_LEN") || starts_at(
        line,
        lead,
        "pub const UNICODE_VERSION",
    ) || (starts_at(line, lead, "'\\u{") && has_at(line, lead, "=> (")) || (starts_at(
        line,
        lead,
        "0x",
    ) && has_at(line, lead, " => "));
    if !data {
        let mut j: usize = 0;
        let ghost start = out@;
        while j < line.len()
            invariant
                j <= line@.len(),
                out@ == start + line@.take(j as int),
            decreases line@.len() - j,
        {
            out.push(line[j]);
            j += 1;
            assert(out@ =~= start + line@.take(j as int));
        }
        out.push('\n');
        assert(line@.take(j as int) =~= line@);
        assert(out@ =~= start + line@.push('\n'));
    }
    (false, lig)
}

/// The code of the tables source `text` with its data taken out: the
/// tables themselves, the table sizes, the version number and the match
/// arms that name particular characters (see `logic_step`). What is left is
/// the logic that a port of the state machine has to agree with.
pub fn logic_of(text: &str) -> (out: String)
    ensures
        out@ == logic_text(text@),
{
    let cs = chars_of(text);
    let ls = lines(&cs);
    let mut out: Vec<char> = Vec::new();
    let mut state: (bool, bool) = (false, false);
    let mut i: usize = 0;
    while i < ls.len()
        invariant
            i <= ls@.len(),
            ls@.len() == lines_of(text@).len(),
            forall|k: int| 0 <= k < ls@.len() ==> #[trigger] ls@[k]@ == lines_of(text@)[k],
            (state, out@) == logic_run(lines_of(text@).take(i as int)),
        decreases ls@.len() - i,
    {
        assert(lines_of(text@).take(i as int + 1).drop_last() =~= lines_of(text@).take(i as int));
        assert(ls@[i as int]@ == lines_of(text@)[i as int]);
        state = logic_line(&mut out, state, &ls[i]);
        i += 1;
    }
    assert(lines_of(text@).take(i as int) =~= lines_of(text@));
    string_of(&out)
}


/// The fingerprint of the state machine that the tables' readers are
/// written against.
pub const MACHINE: u64 = 0x7371_6444_acff_fb7f;

/// The fingerprint of what is kept of the tables source `text` (see
/// `logic_text`).
pub open spec fn machine_print(text: Seq<char>) -> u64 {
    fnv1a(vstd::utf8::encode_utf8(logic_text(text)))
}

/// Whether the state machine in the tables source `text` is the one the
/// readers are written against: `Ok` when its fingerprint is `MACHINE`,
/// otherwise the fingerprint it has, so that `MACHINE` can be moved to it
/// once the readers agree.
pub fn check_machine(text: &str) -> (r: Result<(), u64>)
    ensures
        r is Ok <==> machine_print(text@) == MACHINE,
        r matches Err(p) ==> p == machine_print(text@),
{
    let logic = logic_of(text);
    let print = fingerprint(logic.as_str());
    if print != MACHINE {
        Err(print)
    } else {
        Ok(())
    }
}


proof fn lemma_starts_at(t: Seq<char>, p: Seq<char>, i: int)
    requires
        starts(t, p),
        0 <= i < p.len(),
    ensures
        t[i] == p[i],
{
    assert(t.take(p.len() as int)[i] == t[i]);
}

proof fn lemma_reveal_prefixes()
    ensures
        "//"@ =~= seq!['/', '/'],
        "const WIDTH_MIDDLE_LEN"@.len() > 1 && "const WIDTH_MIDDLE_LEN"@[0] == 'c',
        "const WIDTH_LEAVES_LEN"@.len() > 1 && "const WIDTH_LEAVES_LEN"@[0] == 'c',
        "pub const UNICODE_VERSION"@.len() > 4 && "pub const UNICODE_VERSION"@[0] == 'p'
            && "pub const UNICODE_VERSION"@[4] == 'c',
        "'\\u{"@.len() > 1 && "'\\u{"@[0] == '\'',
        "0x"@ =~= seq!['0', 'x'],
        "static "@.len() > 0 && "static "@[0] == 's',
        "pub static "@.len() > 4 && "pub static "@[4] == 's' && "pub static "@[0] == 'p',
        "fn is_ligature_transparent"@.len() > 0 && "fn is_ligature_transparent"@[0] == 'f',
        "matches!"@.len() > 0 && "matches!"@[0] == 'm',
        "}"@ =~= seq!['}'],
{
    reveal_strlit("//");
    reveal_strlit("const WIDTH_MIDDLE_LEN");
    reveal_strlit("const WIDTH_LEAVES_LEN");
    reveal_strlit("pub const UNICODE_VERSION");
    reveal_strlit("'\\u{");
    reveal_strlit("0x");
    reveal_strlit("static ");
    reveal_strlit("pub static ");
    reveal_strlit("fn is_ligature_transparent");
    reveal_strlit("matches!");
    reveal_strlit("}");
}

proof fn lemma_not_starts(t: Seq<char>, p: Seq<char>)
    requires
        p.len() > 0,
        t.len() == 0 || t[0] != p[0],
    ensures
        !starts(t, p),
{
    if starts(t, p) {
        lemma_starts_at(t, p, 0);
    }
}

/// Outside a table, a blank line, or one whose text after its indentation
/// starts with none of `/`, `c`, `p`, `s`, `m`, `0` and `'` (the first
/// characters of comments, table sizes, the version, tables, ligature
/// patterns and the match arms that name characters), is kept, followed by
/// a newline, and opens no table.
pub proof fn lemma_plain_line_kept(st: (bool, bool), l: Seq<char>)
    requires
        !st.0,
        ({
            let t = trim_start(l);
            t.len() == 0 || !(t[0] == '/' || t[0] == 'c' || t[0] == 'p' || t[0] == 's' || t[0]
                == 'm' || t[0] == '0' || t[0] == '\'')
        }),
    ensures
        logic_step(st, l).1 == l.push('\n'),
        !logic_step(st, l).0.0,
{
    lemma_reveal_prefixes();
    let t = trim_start(l);
    lemma_not_starts(t, "//"@);
    lemma_not_starts(t, "const WIDTH_MIDDLE_LEN"@);
    lemma_not_starts(t, "const WIDTH_LEAVES_LEN"@);
    lemma_not_starts(t, "pub const UNICODE_VERSION"@);
    lemma_not_starts(t, "'\\u{"@);
    lemma_not_starts(t, "0x"@);
    lemma_not_starts(t, "static "@);
    lemma_not_starts(t, "pub static "@);
    lemma_not_starts(t, "matches!"@);
}

/// Outside a table, a line whose text after its indentation starts with
/// `'\u{` is a pattern of characters: it is kept, followed by a newline,
/// unless it holds `=> (`, which makes it a match arm that names a
/// character's width (data, dropped). Either way it opens no table and
/// leaves the ligature flag as it was.
pub proof fn lemma_char_pattern_line(st: (bool, bool), l: Seq<char>)
    requires
        !st.0,
        starts(trim_start(l), "'\\u{"@),
    ensures
        logic_step(st, l) == ((false, st.1), if has(trim_start(l), "=> ("@) {
            Seq::<char>::empty()
        } else {
            l.push('\n')
        }),
{
    lemma_reveal_prefixes();
    let t = trim_start(l);
    lemma_starts_at(t, "'\\u{"@, 0);
    lemma_not_starts(t, "//"@);
    lemma_not_starts(t, "const WIDTH_MIDDLE_LEN"@);
    lemma_not_starts(t, "const WIDTH_LEAVES_LEN"@);
    lemma_not_starts(t, "pub const UNICODE_VERSION"@);
    lemma_not_starts(t, "0x"@);
    lemma_not_starts(t, "static "@);
    lemma_not_starts(t, "pub static "@);
    lemma_not_starts(t, "matches!"@);
    lemma_not_starts(t, "fn is_ligature_transparent"@);
    if l == "}"@ {
        lemma_brace_trim(l);
    }
}

/// Whether the line `l` starts (after its indentation) with one of the
/// prefixes of the lines that hold only data: a comment, one of the two
/// table sizes, or the version number.
pub open spec fn data_line(l: Seq<char>) -> bool {
    let t = trim_start(l);
    ||| starts(t, "//"@)
    ||| starts(t, "const WIDTH_MIDDLE_LEN"@)
    ||| starts(t, "const WIDTH_LEAVES_LEN"@)
    ||| starts(t, "pub const UNICODE_VERSION"@)
}

/// Whether reading the line `l`, inside a table (`in_data`) or not, leaves
/// no trace: a line inside a table that does not close it, or, outside
/// one, a data line (see `data_line`).
pub open spec fn inert_line(in_data: bool, l: Seq<char>) -> bool {
    if in_data {
        !(starts(l, "]);"@) || starts(l, "];"@))
    } else {
        data_line(l)
    }
}

/// The line `"}"` is not indented.
proof fn lemma_brace_trim(l: Seq<char>)
    requires
        l == "}"@,
    ensures
        trim_start(l) == l,
{
    lemma_reveal_prefixes();
    assert(!white_space(l[0]));
    assert(leading_space(l) == 0);
    assert(l.skip(0) =~= l);
}

/// What reading a line does: either it keeps nothing and leaves the
/// ligature flag as it was, or, outside a table, it keeps the line and a
/// newline and leaves no table open.
proof fn lemma_step_shape(st: (bool, bool), l: Seq<char>)
    ensures
        logic_step(st, l).1 == Seq::<char>::empty() ==> logic_step(st, l).0.1 == st.1,
        logic_step(st, l).1 != Seq::<char>::empty() ==> {
            &&& !st.0
            &&& !logic_step(st, l).0.0
            &&& logic_step(st, l).1 == l.push('\n')
        },
{
    lemma_reveal_prefixes();
    let t = trim_start(l);
    if !st.0 && !(starts(t, "static "@) || starts(t, "pub static "@)) {
        let f = "fn is_ligature_transparent"@;
        if starts(t, "matches!"@) && starts(t, f) {
            lemma_starts_at(t, "matches!"@, 0);
            lemma_starts_at(t, f, 0);
        }
        let data = starts(t, "//"@) || starts(t, "const WIDTH_MIDDLE_LEN"@) || starts(
            t,
            "const WIDTH_LEAVES_LEN"@,
        ) || starts(t, "pub const UNICODE_VERSION"@) || (starts(t, "'\\u{"@) && has(t, "=> ("@))
            || (starts(t, "0x"@) && has(t, " => "@));
        assert(!(starts(t, "matches!"@) && starts(t, f)));
        if data {
            if starts(t, f) {
                lemma_starts_at(t, f, 0);
                if starts(t, "//"@) {
                    lemma_starts_at(t, "//"@, 0);
                } else if starts(t, "const WIDTH_MIDDLE_LEN"@) {
                    lemma_starts_at(t, "const WIDTH_MIDDLE_LEN"@, 0);
                } else if starts(t, "const WIDTH_LEAVES_LEN"@) {
                    lemma_starts_at(t, "const WIDTH_LEAVES_LEN"@, 0);
                } else if starts(t, "pub const UNICODE_VERSION"@) {
                    lemma_starts_at(t, "pub const UNICODE_VERSION"@, 0);
                } else if starts(t, "'\\u{"@) {
                    lemma_starts_at(t, "'\\u{"@, 0);
                } else {
                    lemma_starts_at(t, "0x"@, 0);
                }
            }
            assert(!starts(t, f));
            if l == "}"@ {
                lemma_brace_trim(l);
                assert(t.len() == 1);
                assert(!data);
            }
            assert(l != "}"@);
        }
        let lig = st.1 || starts(t, f);
        if lig && starts(t, "matches!"@) {
            assert(lig == st.1);
            assert(logic_step(st, l) == ((false, lig), Seq::<char>::empty()));
        } else if data {
            assert(lig == st.1);
            assert(logic_step(st, l) == ((false, lig), Seq::<char>::empty()));
        } else {
            assert(logic_step(st, l).1 == l.push('\n'));
            assert(l.push('\n').len() > 0);
        }
    }
}

/// A line that leaves no trace keeps the state as it was and keeps nothing.
proof fn lemma_inert_step(st: (bool, bool), l: Seq<char>)
    requires
        inert_line(st.0, l),
    ensures
        logic_step(st, l) == (st, Seq::<char>::empty()),
{
    lemma_reveal_prefixes();
    lemma_step_shape(st, l);
    if !st.0 {
        let t = trim_start(l);
        if starts(t, "static "@) {
            lemma_starts_at(t, "static "@, 0);
            if starts(t, "//"@) {
                lemma_starts_at(t, "//"@, 0);
            } else if starts(t, "const WIDTH_MIDDLE_LEN"@) {
                lemma_starts_at(t, "const WIDTH_MIDDLE_LEN"@, 0);
            } else if starts(t, "const WIDTH_LEAVES_LEN"@) {
                lemma_starts_at(t, "const WIDTH_LEAVES_LEN"@, 0);
            } else {
                lemma_starts_at(t, "pub const UNICODE_VERSION"@, 0);
            }
        }
        if starts(t, "pub static "@) {
            lemma_starts_at(t, "pub static "@, 4);
            if starts(t, "//"@) {
                lemma_starts_at(t, "//"@, 0);
                lemma_starts_at(t, "pub static "@, 0);
                reveal_strlit("pub static ");
            } else if starts(t, "const WIDTH_MIDDLE_LEN"@) {
                lemma_starts_at(t, "const WIDTH_MIDDLE_LEN"@, 0);
                lemma_starts_at(t, "pub static "@, 0);
                reveal_strlit("pub static ");
            } else if starts(t, "const WIDTH_LEAVES_LEN"@) {
                lemma_starts_at(t, "const WIDTH_LEAVES_LEN"@, 0);
                lemma_starts_at(t, "pub static "@, 0);
                reveal_strlit("pub static ");
            } else {
                lemma_starts_at(t, "pub const UNICODE_VERSION"@, 4);
            }
        }
        let f = "fn is_ligature_transparent"@;
        if starts(t, "matches!"@) {
            lemma_starts_at(t, "matches!"@, 0);
            if starts(t, "//"@) {
                lemma_starts_at(t, "//"@, 0);
            } else if starts(t, "const WIDTH_MIDDLE_LEN"@) {
                lemma_starts_at(t, "const WIDTH_MIDDLE_LEN"@, 0);
            } else if starts(t, "const WIDTH_LEAVES_LEN"@) {
                lemma_starts_at(t, "const WIDTH_LEAVES_LEN"@, 0);
            } else {
                lemma_starts_at(t, "pub const UNICODE_VERSION"@, 0);
            }
        }
    }
}

/// Reading `lines` from the state and output `start` on.
pub open spec fn logic_run_from(start: ((bool, bool), Seq<char>), lines: Seq<Seq<char>>) -> (
    (bool, bool),
    Seq<char>,
)
    decreases lines.len(),
{
    if lines.len() == 0 {
        start
    } else {
        let (state, kept) = logic_run_from(start, lines.drop_last());
        let (next, piece) = logic_step(state, lines.last());
        (next, kept + piece)
    }
}

proof fn lemma_run_from_concat(a: Seq<Seq<char>>, b: Seq<Seq<char>>)
    ensures
        logic_run(a + b) == logic_run_from(logic_run(a), b),
    decreases b.len(),
{
    if b.len() == 0 {
        assert(a + b =~= a);
    } else {
        assert((a + b).drop_last() =~= a + b.drop_last());
        lemma_run_from_concat(a, b.drop_last());
    }
}

/// Comments, table sizes, the version number and what a table holds never
/// reach the logic: putting in a line that leaves no trace where it stands
/// (a data line outside a table, a line that does not close the table
/// inside one) changes nothing of what is kept, nor of the state reached.
pub proof fn lemma_inert_line(a: Seq<Seq<char>>, l: Seq<char>, b: Seq<Seq<char>>)
    requires
        inert_line(logic_run(a).0.0, l),
    ensures
        logic_run(a + seq![l] + b) == logic_run(a + b),
{
    lemma_inert_step(logic_run(a).0, l);
    assert((a + seq![l]).drop_last() =~= a);
    assert(logic_run(a + seq![l]).1 =~= logic_run(a).1 + Seq::<char>::empty());
    assert(logic_run(a + seq![l]) == logic_run(a));
    lemma_run_from_concat(a + seq![l], b);
    lemma_run_from_concat(a, b);
}

/// Replacing one line that leaves no trace by another that leaves none
/// changes nothing of what is kept, nor of the state reached.
pub proof fn lemma_inert_replace(
    a: Seq<Seq<char>>,
    l: Seq<char>,
    m: Seq<char>,
    b: Seq<Seq<char>>,
)
    requires
        inert_line(logic_run(a).0.0, l),
        inert_line(logic_run(a).0.0, m),
    ensures
        logic_run(a + seq![l] + b) == logic_run(a + seq![m] + b),
{
    lemma_inert_line(a, l, b);
    lemma_inert_line(a, m, b);
}

/// The same over whole texts: two texts whose lines differ only by a line
/// that leaves no trace where it stands have the same logic, hence the same
/// fingerprint.
pub proof fn lemma_inert_line_text(
    text: Seq<char>,
    text2: Seq<char>,
    a: Seq<Seq<char>>,
    l: Seq<char>,
    b: Seq<Seq<char>>,
)
    requires
        lines_of(text) == a + b,
        lines_of(text2) == a + seq![l] + b,
        inert_line(logic_run(a).0.0, l),
    ensures
        logic_text(text2) == logic_text(text),
        machine_print(text2) == machine_print(text),
{
    lemma_inert_line(a, l, b);
}

/// The lines of `lines` that leave a trace where they stand: each line that
/// leaves none (see `inert_line`), in the state reached by the lines before
/// it, is taken out.
pub open spec fn skeleton(lines: Seq<Seq<char>>) -> Seq<Seq<char>>
    decreases lines.len(),
{
    if lines.len() == 0 {
        Seq::empty()
    } else {
        let prev = lines.drop_last();
        if inert_line(logic_run(prev).0.0, lines.last()) {
            skeleton(prev)
        } else {
            skeleton(prev).push(lines.last())
        }
    }
}

/// Reading the lines that leave a trace reaches the state that reading all
/// of them reaches, and keeps what reading all of them keeps.
pub proof fn lemma_skeleton(lines: Seq<Seq<char>>)
    ensures
        logic_run(skeleton(lines)) == logic_run(lines),
    decreases lines.len(),
{
    if lines.len() > 0 {
        let prev = lines.drop_last();
        let l = lines.last();
        lemma_skeleton(prev);
        if inert_line(logic_run(prev).0.0, l) {
            lemma_inert_step(logic_run(prev).0, l);
            assert(logic_run(lines).1 =~= logic_run(prev).1 + Seq::<char>::empty());
        } else {
            assert(skeleton(prev).push(l).drop_last() =~= skeleton(prev));
        }
    }
}

/// Comments, table contents, table sizes and the version never reach the
/// logic, however many of them change: two texts whose lines differ only by
/// lines that leave no trace where they stand (inserted, taken out or
/// replaced, any number of them) have the same lines that leave a trace,
/// and then the same logic and the same fingerprint.
pub proof fn lemma_same_skeleton(text: Seq<char>, text2: Seq<char>)
    requires
        skeleton(lines_of(text)) == skeleton(lines_of(text2)),
    ensures
        logic_text(text2) == logic_text(text),
        machine_print(text2) == machine_print(text),
{
    lemma_skeleton(lines_of(text));
    lemma_skeleton(lines_of(text2));
}

/// A run of lines that each leave no trace, put in anywhere, changes
/// nothing: the lines of `a + mid + b` that leave a trace are those of
/// `a + b`, so the two have the same logic.
pub proof fn lemma_inert_block(a: Seq<Seq<char>>, mid: Seq<Seq<char>>, b: Seq<Seq<char>>)
    requires
        forall|k: int|
            0 <= k < mid.len() ==> inert_line(logic_run(a).0.0, #[trigger] mid[k]),
    ensures
        logic_run(a + mid + b) == logic_run(a + b),
    decreases mid.len(),
{
    if mid.len() > 0 {
        let rest = mid.drop_last();
        let l = mid.last();
        assert forall|k: int| 0 <= k < rest.len() implies inert_line(
            logic_run(a).0.0,
            #[trigger] rest[k],
        ) by {
            assert(rest[k] == mid[k]);
        }
        lemma_inert_block(a, rest, Seq::empty());
        assert(a + rest + Seq::<Seq<char>>::empty() =~= a + rest);
        assert(a + Seq::<Seq<char>>::empty() =~= a);
        assert(inert_line(logic_run(a + rest).0.0, mid[mid.len() - 1]));
        lemma_inert_line(a + rest, l, b);
        assert(a + rest + seq![l] + b =~= a + mid + b);
        lemma_inert_block(a, rest, b);
    }
}

/// Each line ending in a newline, one after another.
pub open spec fn joined(ls: Seq<Seq<char>>) -> Seq<char>
    decreases ls.len(),
{
    if ls.len() == 0 {
        Seq::empty()
    } else {
        joined(ls.drop_last()) + ls.last().push('\n')
    }
}

/// The lines that reading `lines` keeps.
pub open spec fn kept_lines(lines: Seq<Seq<char>>) -> Seq<Seq<char>>
    decreases lines.len(),
{
    if lines.len() == 0 {
        Seq::empty()
    } else {
        let prev = kept_lines(lines.drop_last());
        if logic_step(logic_run(lines.drop_last()).0, lines.last()).1 == Seq::<char>::empty() {
            prev
        } else {
            prev.push(lines.last())
        }
    }
}

/// A line holds neither a newline nor a carriage return.
pub open spec fn clean_line(l: Seq<char>) -> bool {
    forall|i: int| 0 <= i < l.len() ==> #[trigger] l[i] != '\n' && l[i] != '\r'
}

/// What is kept is the kept lines, each with a newline; and reading the
/// kept lines again keeps all of them, with the same ligature flag at the
/// end and no table open.
proof fn lemma_kept_lines(lines: Seq<Seq<char>>)
    ensures
        logic_run(lines).1 == joined(kept_lines(lines)),
        logic_run(kept_lines(lines)) == ((false, logic_run(lines).0.1), joined(kept_lines(lines))),
        (forall|j: int| 0 <= j < lines.len() ==> clean_line(#[trigger] lines[j])) ==> (forall|
            k: int,
        | 0 <= k < kept_lines(lines).len() ==> clean_line(#[trigger] kept_lines(lines)[k])),
    decreases lines.len(),
{
    if lines.len() > 0 {
        let prev = lines.drop_last();
        let l = lines.last();
        let st = logic_run(prev).0;
        lemma_kept_lines(prev);
        lemma_step_shape(st, l);
        let k = kept_lines(prev);
        if logic_step(st, l).1 != Seq::<char>::empty() {
            assert(k.push(l).drop_last() =~= k);
        }
        if forall|j: int| 0 <= j < lines.len() ==> clean_line(#[trigger] lines[j]) {
            assert forall|j: int| 0 <= j < prev.len() implies clean_line(#[trigger] prev[j]) by {
                assert(prev[j] == lines[j]);
            }
            assert(clean_line(lines[lines.len() - 1]));
            let kl = kept_lines(lines);
            assert forall|i: int| 0 <= i < kl.len() implies clean_line(#[trigger] kl[i]) by {
                if i < k.len() {
                    assert(kl[i] == k[i]);
                } else {
                    assert(kl[i] == l);
                }
            }
        }
    }
}

proof fn lemma_split_clean_extend(a: Seq<char>, l: Seq<char>)
    requires
        clean_line(l),
    ensures
        split_newlines(a + l).len() == split_newlines(a).len(),
        split_newlines(a + l).drop_last() == split_newlines(a).drop_last(),
        split_newlines(a + l).last() == split_newlines(a).last() + l,
    decreases l.len(),
{
    crate::text::lemma_split_nonempty(a);
    if l.len() == 0 {
        assert(a + l =~= a);
        assert(split_newlines(a).last() + l =~= split_newlines(a).last());
    } else {
        assert((a + l).drop_last() =~= a + l.drop_last());
        assert((a + l).last() == l.last());
        assert(clean_line(l.drop_last()));
        lemma_split_clean_extend(a, l.drop_last());
        crate::text::lemma_split_nonempty(a + l.drop_last());
        let p = split_newlines(a + l.drop_last());
        assert(split_newlines(a + l) == p.update(p.len() - 1, p.last().push(l.last())));
        assert(split_newlines(a + l).drop_last() =~= p.drop_last());
        assert(split_newlines(a).last() + l =~= (split_newlines(a).last() + l.drop_last()).push(
            l.last(),
        ));
    }
}

proof fn lemma_split_joined(ls: Seq<Seq<char>>)
    requires
        forall|k: int| 0 <= k < ls.len() ==> clean_line(#[trigger] ls[k]),
    ensures
        split_newlines(joined(ls)) == ls.push(Seq::<char>::empty()),
    decreases ls.len(),
{
    if ls.len() > 0 {
        let prev = ls.drop_last();
        let l = ls.last();
        assert(forall|k: int| 0 <= k < prev.len() ==> #[trigger] prev[k] == ls[k]);
        lemma_split_joined(prev);
        assert(clean_line(ls[ls.len() - 1]));
        lemma_split_clean_extend(joined(prev), l);
        let j = joined(prev) + l;
        assert(joined(ls) == j.push('\n'));
        assert(j.push('\n').drop_last() =~= j);
        let sp = split_newlines(joined(prev));
        assert(sp.last() =~= Seq::<char>::empty());
        assert(sp.drop_last() =~= prev);
        assert(Seq::<char>::empty() + l =~= l);
        let sj = split_newlines(j);
        assert forall|i: int| 0 <= i < sj.len() implies #[trigger] sj[i] == prev.push(l)[i] by {
            if i < sj.len() - 1 {
                assert(sj[i] == sj.drop_last()[i]);
                assert(sp.drop_last()[i] == prev[i]);
            }
        }
        assert(split_newlines(j) =~= prev.push(l));
        assert(split_newlines(joined(ls)) =~= ls.push(Seq::<char>::empty()));
    }
}

/// The lines of the kept lines joined are the kept lines.
proof fn lemma_lines_joined(ls: Seq<Seq<char>>)
    requires
        forall|k: int| 0 <= k < ls.len() ==> clean_line(#[trigger] ls[k]),
    ensures
        lines_of(joined(ls)) == ls,
{
    lemma_split_joined(ls);
    assert forall|k: int| 0 <= k < ls.len() implies crate::text::strip_cr(ls[k]) == ls[k] by {
        assert(clean_line(ls[k]));
        if ls[k].len() > 0 {
            assert(ls[k][ls[k].len() - 1] != '\r');
        }
    }
    assert(lines_of(joined(ls)) =~= ls);
}

proof fn lemma_split_clean(s: Seq<char>)
    requires
        !s.contains('\r'),
    ensures
        forall|k: int|
            0 <= k < split_newlines(s).len() ==> clean_line(#[trigger] split_newlines(s)[k]),
    decreases s.len(),
{
    if s.len() > 0 {
        let prev = s.drop_last();
        assert(!prev.contains('\r')) by {
            if prev.contains('\r') {
                let i = choose|i: int| 0 <= i < prev.len() && prev[i] == '\r';
                assert(s[i] == '\r');
            }
        }
        lemma_split_clean(prev);
        crate::text::lemma_split_nonempty(prev);
        assert(s[s.len() - 1] != '\r');
        let p = split_newlines(prev);
        if s.last() != '\n' {
            assert(clean_line(p[p.len() - 1]));
            assert(clean_line(p.last().push(s.last())));
        }
    }
}

/// Taking the data out of text that has no carriage return is done once and
/// for all: taking it out of what is left changes nothing.
pub proof fn lemma_logic_idempotent(text: Seq<char>)
    requires
        !text.contains('\r'),
    ensures
        logic_text(logic_text(text)) == logic_text(text),
{
    let ls = lines_of(text);
    lemma_split_clean(text);
    crate::text::lemma_split_nonempty(text);
    let p = split_newlines(text);
    assert(ls.len() <= p.len());
    assert forall|j: int| 0 <= j < ls.len() implies clean_line(#[trigger] ls[j]) by {
        let q = p[j];
        assert(clean_line(q));
        if j < p.len() - 1 && q.len() > 0 && q.last() == '\r' {
            let r = q.drop_last();
            assert forall|i: int| 0 <= i < r.len() implies #[trigger] r[i] != '\n' && r[i] != '\r' by {
                assert(r[i] == q[i]);
            }
        }
    }
    lemma_kept_lines(ls);
    lemma_lines_joined(kept_lines(ls));
}

} // verus!
