//! The lookup tables written out as definitions of string literals.
//!
//! Every table is a string of fixed-width records, each field written in the
//! base-64 digits `'0'` to `'o'`, most significant first.

use vstd::prelude::*;
use crate::encoding::{
    decimal, push_decimal,
    bytes_as_digits, bytes_text, le3, le3_ranges, lemma_long_literal_roundtrip, literal_of,
    literal_value, long_literal, pow64, range_table,
    range_text, ranges_fit, special_table, special_text, specials_fit,
};
use crate::text::is_scalar;
use crate::trie::{
    answers_once, is_runs_of, is_specials_of, lemma_runs_unique, lemma_specials_unique,
    looks_up_once, runs, specials, trie_total,
};

verus! {

/// The lookup data of the width crate that the tables are written from.
pub struct UpstreamTables {
    /// The Unicode version the data describes.
    pub unicode_version: (u8, u8, u8),
    /// The trie's first level, indexed by `cp >> 13`.
    pub root: [u8; 256],
    /// The same, for East Asian contexts, where ambiguous characters are wide.
    pub root_cjk: [u8; 256],
    /// The second level: 64 bytes a block.
    pub middle: Vec<[u8; 64]>,
    /// The third: 32 bytes a block, four 2-bit widths packed in each byte.
    pub leaves: Vec<[u8; 32]>,
    /// Ranges of zero-width code points that are not `Joining_Type=Transparent`,
    /// as three-byte little-endian numbers.
    pub non_transparent_zero_widths: Vec<([u8; 3], [u8; 3])>,
    /// Ranges of code points that do not stop U+0338 acting on its base, as
    /// three-byte little-endian numbers.
    pub solidus_transparent: Vec<([u8; 3], [u8; 3])>,
}

/// The bytes of `blocks`, one block after another.
pub open spec fn flatten<const N: usize>(blocks: Seq<[u8; N]>) -> Seq<u8>
    decreases blocks.len(),
{
    if blocks.len() == 0 {
        Seq::empty()
    } else {
        flatten(blocks.drop_last()) + blocks.last()@
    }
}

/// The flattened bytes are the blocks one after another: `N` bytes a block,
/// and byte `j` of block `k` at index `N * k + j`, for every block.
pub proof fn lemma_flatten_index<const N: usize>(blocks: Seq<[u8; N]>)
    ensures
        flatten(blocks).len() == N * blocks.len(),
        forall|k: int, j: int|
            0 <= k < blocks.len() && 0 <= j < N ==> #[trigger] flatten(blocks)[N * k + j]
                == blocks[k]@[j],
    decreases blocks.len(),
{
    if blocks.len() > 0 {
        let prev = blocks.drop_last();
        let n = blocks.len() - 1;
        lemma_flatten_index(prev);
        let f = flatten(blocks);
        assert(blocks.last()@.len() == N);
        assert(f.len() == N * n + N);
        assert(N * n + N == N * blocks.len()) by (nonlinear_arith)
            requires
                n == blocks.len() - 1,
        ;
        assert forall|k: int, j: int|
            0 <= k < blocks.len() && 0 <= j < N implies #[trigger] f[N * k + j] == blocks[k]@[j] by {
            if k < n {
                assert(N * k + j < N * n) by (nonlinear_arith)
                    requires
                        k < n,
                        j < N,
                ;
                assert(0 <= N * k) by (nonlinear_arith)
                    requires
                        0 <= k,
                ;
                assert(prev[k] == blocks[k]);
                assert(f[N * k + j] == flatten(prev)[N * k + j]);
            } else {
                assert(k == n);
                assert(f[N * k + j] == blocks.last()@[j]);
            }
        }
    }
}

/// One definition: its doc comment, the header naming it, the literal
/// holding `body` broken every 96 characters, and a blank line.
pub open spec fn def_text(doc: Seq<char>, name: Seq<char>, body: Seq<char>) -> Seq<char> {
    doc + "\n@pub(pkg) def "@ + name + " =\n  "@ + literal_of(body, 96) + "\n\n"@
}

/// The doc comment of a table of ranges of code points that `what`.
pub open spec fn range_doc(what: Seq<char>) -> Seq<char> {
    "-- Code points that "@ + what + ": `lo hi`, 4 digits each."@
}

/// The definition of the Unicode version.
pub open spec fn version_text(v: (u8, u8, u8)) -> Seq<char> {
    "-- The Unicode version the tables describe.\n@pub(pkg) def unicodeVersion = ("@ + decimal(
        v.0 as nat,
    ) + ", "@ + decimal(v.1 as nat) + ", "@ + decimal(v.2 as nat) + ")\n\n"@
}

/// The definitions of the trie's levels.
pub open spec fn trie_defs(t: UpstreamTables) -> Seq<char> {
    def_text(
        "-- The trie's first level, indexed by `cp >> 13`: 256 bytes, two digits each."@,
        "widthRoot"@,
        bytes_text(t.root@),
    ) + def_text(
        "-- The same, for East Asian contexts, where ambiguous characters are wide."@,
        "widthRootCjk"@,
        bytes_text(t.root_cjk@),
    ) + def_text(
        "-- The second level: 64 bytes a block, indexed by `cp >> 7 & 63`."@,
        "widthMiddle"@,
        bytes_text(flatten(t.middle@)),
    ) + def_text(
        "-- The third: 32 bytes a block, indexed by `cp >> 2 & 31`, four 2-bit\n-- widths packed in each byte."@,
        "widthLeaves"@,
        bytes_text(flatten(t.leaves@)),
    )
}

/// The definitions of the special cases.
pub open spec fn special_defs(
    special: Seq<(u32, u32, u8, u16)>,
    special_cjk: Seq<(u32, u32, u8, u16)>,
) -> Seq<char> {
    def_text(
        "-- Where the trie says 3: `lo hi` (4 digits each), then the width (1) and\n-- the state-machine information (3)."@,
        "specials"@,
        special_text(special),
    ) + def_text(
        "-- The same, for East Asian contexts."@,
        "specialsCjk"@,
        special_text(special_cjk),
    )
}

/// The definitions of the tables of ranges.
pub open spec fn range_defs(
    emoji_presentation: Seq<(u32, u32)>,
    text_presentation: Seq<(u32, u32)>,
    modifier_base: Seq<(u32, u32)>,
    ligature_transparent: Seq<(u32, u32)>,
    non_transparent: Seq<(u32, u32)>,
    solidus: Seq<(u32, u32)>,
) -> Seq<char> {
    def_text(
        range_doc("starts an emoji presentation sequence when followed by U+FE0F"@),
        "emojiPresentation"@,
        range_text(emoji_presentation),
    ) + def_text(
        range_doc(
            "is emoji by default but not ideographic, and starts a text presentation\n-- sequence when followed by U+FE0E"@,
        ),
        "textPresentation"@,
        range_text(text_presentation),
    ) + def_text(
        range_doc("is an Emoji_Modifier_Base"@),
        "emojiModifierBase"@,
        range_text(modifier_base),
    ) + def_text(
        range_doc(
            "is a default-ignorable combining mark or ZWJ, which does not interrupt a\n-- non-Arabic ligature"@,
        ),
        "ligatureTransparent"@,
        range_text(ligature_transparent),
    ) + def_text(
        range_doc("is zero-width but not Joining_Type=Transparent"@),
        "nonTransparentZeroWidths"@,
        range_text(non_transparent),
    ) + def_text(
        range_doc("does not stop U+0338 COMBINING LONG SOLIDUS OVERLAY acting on its base"@),
        "solidusTransparent"@,
        range_text(solidus),
    )
}

/// Three-byte little-endian ranges as pairs of numbers.
pub open spec fn le3_seq(table: Seq<([u8; 3], [u8; 3])>) -> Seq<(u32, u32)> {
    Seq::new(table.len(), |k: int| (le3(table[k].0@), le3(table[k].1@)))
}

/// The head of the tables file: `banner`, what the tables are, `notice`,
/// and a blank line.
pub open spec fn tables_head(banner: Seq<char>, notice: Seq<char>) -> Seq<char> {
    banner + "--\n-- Every table is a string of fixed-width records, each field written in the\n-- base-64 digits '0' ('0' + 0) to 'o' ('0' + 63), most significant first. A\n-- lookup reads the digits it needs with `stringByteAt`, which takes constant\n-- time; see `Lookup.mw`.\n--\n"@ + notice + "\n"@
}

/// The whole tables file: its head, the Unicode version, then each table,
/// separated by blank lines and ending in one newline.
pub open spec fn tables_text(
    t: UpstreamTables,
    banner: Seq<char>,
    notice: Seq<char>,
    special: Seq<(u32, u32, u8, u16)>,
    special_cjk: Seq<(u32, u32, u8, u16)>,
    emoji_presentation: Seq<(u32, u32)>,
    text_presentation: Seq<(u32, u32)>,
    modifier_base: Seq<(u32, u32)>,
    ligature_transparent: Seq<(u32, u32)>,
) -> Seq<char> {
    (tables_head(banner, notice) + version_text(t.unicode_version) + trie_defs(t) + special_defs(special, special_cjk)
        + range_defs(
        emoji_presentation,
        text_presentation,
        modifier_base,
        ligature_transparent,
        le3_seq(t.non_transparent_zero_widths@),
        le3_seq(t.solidus_transparent@),
    )).drop_last()
}


/// The bytes of `blocks`, one block after another.
fn flat<const N: usize>(blocks: &[[u8; N]]) -> (out: Vec<u8>)
    ensures
        out@ == flatten(blocks@),
{
    let mut out: Vec<u8> = Vec::new();
    let mut i: usize = 0;
    while i < blocks.len()
        invariant
            i <= blocks@.len(),
            out@ == flatten(blocks@.take(i as int)),
        decreases blocks@.len() - i,
    {
        let ghost before = out@;
        let block: &[u8; N] = &blocks[i];
        let mut j: usize = 0;
        while j < N
            invariant
                j <= N,
                block@.len() == N,
                out@ == before + block@.take(j as int),
            decreases N - j,
        {
            out.push(block[j]);
            j += 1;
            assert(out@ =~= before + block@.take(j as int));
        }
        assert(block@.take(N as int) =~= block@);
        assert(blocks@.take(i as int + 1).drop_last() =~= blocks@.take(i as int));
        i += 1;
    }
    assert(blocks@.take(i as int) =~= blocks@);
    out
}

/// Appends one definition: `doc`, the header naming `name`, and `body` as a
/// literal, then a blank line.
fn push_def(out: &mut String, name: &str, doc: &str, body: &str)
    ensures
        final(out)@ == old(out)@ + def_text(doc@, name@, body@),
{
    let lit = long_literal(body, 96);
    out.append(doc);
    out.append("\n@pub(pkg) def ");
    out.append(name);
    out.append(" =\n  ");
    out.append(lit.as_str());
    out.append("\n\n");
    assert(out@ =~= old(out)@ + def_text(doc@, name@, body@));
}

/// Appends one table of ranges of code points that `what`.
fn push_range_def(out: &mut String, name: &str, what: &str, ranges: &[(u32, u32)])
    requires
        ranges_fit(ranges@),
    ensures
        final(out)@ == old(out)@ + def_text(range_doc(what@), name@, range_text(ranges@)),
{
    let mut doc = String::new();
    doc.append("-- Code points that ");
    doc.append(what);
    doc.append(": `lo hi`, 4 digits each.");
    assert(doc@ =~= range_doc(what@));
    let body = range_table(ranges);
    push_def(out, name, doc.as_str(), body.as_str());
}

/// Whether every special case fits its record (see `specials_fit`) and every
/// range its four digits.
pub open spec fn render_fits(
    special: Seq<(u32, u32, u8, u16)>,
    special_cjk: Seq<(u32, u32, u8, u16)>,
    emoji_presentation: Seq<(u32, u32)>,
    text_presentation: Seq<(u32, u32)>,
    modifier_base: Seq<(u32, u32)>,
    ligature_transparent: Seq<(u32, u32)>,
) -> bool {
    &&& specials_fit(special)
    &&& specials_fit(special_cjk)
    &&& ranges_fit(emoji_presentation)
    &&& ranges_fit(text_presentation)
    &&& ranges_fit(modifier_base)
    &&& ranges_fit(ligature_transparent)
}

proof fn lemma_le3_fits(table: Seq<([u8; 3], [u8; 3])>)
    ensures
        ranges_fit(le3_seq(table)),
{
    assert(pow64(4) == 16777216) by {
        reveal_with_fuel(pow64, 5);
    }
}

/// Appends the head of the file and the definition of the Unicode version.
fn push_head(out: &mut String, banner: &str, notice: &str, v: (u8, u8, u8))
    ensures
        final(out)@ == old(out)@ + tables_head(banner@, notice@) + version_text(v),
{
    out.append(banner);
    out.append("--\n-- Every table is a string of fixed-width records, each field written in the\n-- base-64 digits '0' ('0' + 0) to 'o' ('0' + 63), most significant first. A\n-- lookup reads the digits it needs with `stringByteAt`, which takes constant\n-- time; see `Lookup.mw`.\n--\n");
    out.append(notice);
    out.append("\n");
    out.append("-- The Unicode version the tables describe.\n@pub(pkg) def unicodeVersion = (");
    push_decimal(out, v.0 as u64);
    out.append(", ");
    push_decimal(out, v.1 as u64);
    out.append(", ");
    push_decimal(out, v.2 as u64);
    out.append(")\n\n");
    assert(out@ =~= old(out)@ + tables_head(banner@, notice@) + version_text(v));
}

/// Appends the definitions of the trie's levels.
fn push_trie_defs(out: &mut String, t: &UpstreamTables)
    ensures
        final(out)@ == old(out)@ + trie_defs(*t),
{
    let middle = flat(t.middle.as_slice());
    let leaves = flat(t.leaves.as_slice());
    let b = bytes_as_digits(&t.root);
    push_def(
        out,
        "widthRoot",
        "-- The trie's first level, indexed by `cp >> 13`: 256 bytes, two digits each.",
        b.as_str(),
    );
    let b = bytes_as_digits(&t.root_cjk);
    push_def(
        out,
        "widthRootCjk",
        "-- The same, for East Asian contexts, where ambiguous characters are wide.",
        b.as_str(),
    );
    let b = bytes_as_digits(middle.as_slice());
    push_def(
        out,
        "widthMiddle",
        "-- The second level: 64 bytes a block, indexed by `cp >> 7 & 63`.",
        b.as_str(),
    );
    let b = bytes_as_digits(leaves.as_slice());
    push_def(
        out,
        "widthLeaves",
        "-- The third: 32 bytes a block, indexed by `cp >> 2 & 31`, four 2-bit\n-- widths packed in each byte.",
        b.as_str(),
    );
    assert(out@ =~= old(out)@ + trie_defs(*t));
}

/// Appends the definitions of the special cases.
fn push_special_defs(
    out: &mut String,
    special: &[(u32, u32, u8, u16)],
    special_cjk: &[(u32, u32, u8, u16)],
)
    requires
        specials_fit(special@),
        specials_fit(special_cjk@),
    ensures
        final(out)@ == old(out)@ + special_defs(special@, special_cjk@),
{
    let b = special_table(special);
    push_def(
        out,
        "specials",
        "-- Where the trie says 3: `lo hi` (4 digits each), then the width (1) and\n-- the state-machine information (3).",
        b.as_str(),
    );
    let b = special_table(special_cjk);
    push_def(out, "specialsCjk", "-- The same, for East Asian contexts.", b.as_str());
    assert(out@ =~= old(out)@ + special_defs(special@, special_cjk@));
}

/// Appends the definitions of the tables of ranges.
fn push_range_defs(
    out: &mut String,
    emoji_presentation: &[(u32, u32)],
    text_presentation: &[(u32, u32)],
    modifier_base: &[(u32, u32)],
    ligature_transparent: &[(u32, u32)],
    non_transparent: &[(u32, u32)],
    solidus: &[(u32, u32)],
)
    requires
        ranges_fit(emoji_presentation@),
        ranges_fit(text_presentation@),
        ranges_fit(modifier_base@),
        ranges_fit(ligature_transparent@),
        ranges_fit(non_transparent@),
        ranges_fit(solidus@),
    ensures
        final(out)@ == old(out)@ + range_defs(
            emoji_presentation@,
            text_presentation@,
            modifier_base@,
            ligature_transparent@,
            non_transparent@,
            solidus@,
        ),
{
    push_range_def(
        out,
        "emojiPresentation",
        "starts an emoji presentation sequence when followed by U+FE0F",
        emoji_presentation,
    );
    push_range_def(
        out,
        "textPresentation",
        "is emoji by default but not ideographic, and starts a text presentation\n-- sequence when followed by U+FE0E",
        text_presentation,
    );
    push_range_def(out, "emojiModifierBase", "is an Emoji_Modifier_Base", modifier_base);
    push_range_def(
        out,
        "ligatureTransparent",
        "is a default-ignorable combining mark or ZWJ, which does not interrupt a\n-- non-Arabic ligature",
        ligature_transparent,
    );
    push_range_def(
        out,
        "nonTransparentZeroWidths",
        "is zero-width but not Joining_Type=Transparent",
        non_transparent,
    );
    push_range_def(
        out,
        "solidusTransparent",
        "does not stop U+0338 COMBINING LONG SOLIDUS OVERLAY acting on its base",
        solidus,
    );
    assert(out@ =~= old(out)@ + range_defs(
        emoji_presentation@,
        text_presentation@,
        modifier_base@,
        ligature_transparent@,
        non_transparent@,
        solidus@,
    ));
}

/// `s` without its last character.
fn without_last(s: &str) -> (out: String)
    requires
        s@.len() > 0,
    ensures
        out@ == s@.drop_last(),
{
    let chars = crate::text::chars_of(s);
    let mut kept: Vec<char> = Vec::new();
    let mut i: usize = 0;
    while i < chars.len() - 1
        invariant
            chars@ == s@,
            i <= chars@.len() - 1,
            kept@ == chars@.take(i as int),
        decreases chars@.len() - i,
    {
        kept.push(chars[i]);
        i += 1;
        assert(kept@ =~= chars@.take(i as int));
    }
    assert(chars@.take(i as int) =~= s@.drop_last());
    crate::text::string_of(&kept)
}

/// Writes the tables file from the width data and the special cases and
/// ranges read off the crate's lookups.
pub fn render_tables(
    t: &UpstreamTables,
    banner: &str,
    notice: &str,
    special: &[(u32, u32, u8, u16)],
    special_cjk: &[(u32, u32, u8, u16)],
    emoji_presentation: &[(u32, u32)],
    text_presentation: &[(u32, u32)],
    modifier_base: &[(u32, u32)],
    ligature_transparent: &[(u32, u32)],
) -> (out: String)
    requires
        render_fits(
            special@,
            special_cjk@,
            emoji_presentation@,
            text_presentation@,
            modifier_base@,
            ligature_transparent@,
        ),
    ensures
        out@ == tables_text(
            *t,
            banner@,
            notice@,
            special@,
            special_cjk@,
            emoji_presentation@,
            text_presentation@,
            modifier_base@,
            ligature_transparent@,
        ),
{
    let mut out = String::new();
    push_head(&mut out, banner, notice, t.unicode_version);
    push_trie_defs(&mut out, t);
    push_special_defs(&mut out, special, special_cjk);
    let non_transparent = le3_ranges(t.non_transparent_zero_widths.as_slice());
    let solidus = le3_ranges(t.solidus_transparent.as_slice());
    proof {
        assert(non_transparent@ =~= le3_seq(t.non_transparent_zero_widths@));
        assert(solidus@ =~= le3_seq(t.solidus_transparent@));
        lemma_le3_fits(t.non_transparent_zero_widths@);
        lemma_le3_fits(t.solidus_transparent@);
    }
    push_range_defs(
        &mut out,
        emoji_presentation,
        text_presentation,
        modifier_base,
        ligature_transparent,
        non_transparent.as_slice(),
        solidus.as_slice(),
    );
    assert(out@ =~= tables_head(banner@, notice@) + version_text(t.unicode_version) + trie_defs(*t) + special_defs(
        special@,
        special_cjk@,
    ) + range_defs(
        emoji_presentation@,
        text_presentation@,
        modifier_base@,
        ligature_transparent@,
        le3_seq(t.non_transparent_zero_widths@),
        le3_seq(t.solidus_transparent@),
    ));
    without_last(out.as_str())
}


proof fn lemma_runs_fit<P: Fn(char) -> bool>(pred: P, r: Seq<(u32, u32)>)
    requires
        is_runs_of(pred, r),
    ensures
        ranges_fit(r),
{
    assert(pow64(4) == 16777216) by {
        reveal_with_fuel(pow64, 5);
    }
    assert forall|k: int| 0 <= k < r.len() implies #[trigger] r[k].0 < pow64(4) && r[k].1 < pow64(
        4,
    ) by {
        assert(is_scalar(r[k].0 as int) && is_scalar(r[k].1 as int));
    }
}

proof fn lemma_specials_fit<L: Fn(char) -> (u8, u16)>(
    root: Seq<u8>,
    middle: Seq<[u8; 64]>,
    leaves: Seq<[u8; 32]>,
    lookup: L,
    sp: Seq<(u32, u32, u8, u16)>,
)
    requires
        is_specials_of(root, middle, leaves, lookup, sp),
        forall|c: char, r: (u8, u16)| call_ensures(lookup, (c,), r) ==> r.0 < 64,
    ensures
        specials_fit(sp),
{
    assert(pow64(4) == 16777216) by {
        reveal_with_fuel(pow64, 5);
    }
    assert forall|k: int| 0 <= k < sp.len() implies #[trigger] sp[k].0 < pow64(4) && sp[k].1
        < pow64(4) && sp[k].2 < 64 by {
        assert(sp[k].0 <= sp[k].1);
        assert(crate::trie::in_special(sp, k, sp[k].0));
        assert(crate::trie::in_special(sp, k, sp[k].1));
    }
}

/// Writes the tables file: reads the special cases off `lookup_width` and
/// `lookup_width_cjk` through the two roots of the trie, and the ranges off
/// the four predicates, then writes them all out after `banner`, what the tables are, and
/// `notice`. The
/// widths the lookups answer must fit in one digit.
pub fn tables<L1, L2, P1, P2, P3, P4>(
    t: &UpstreamTables,
    banner: &str,
    notice: &str,
    lookup_width: L1,
    lookup_width_cjk: L2,
    starts_emoji_presentation_seq: P1,
    starts_non_ideographic_text_presentation_seq: P2,
    is_emoji_modifier_base: P3,
    is_ligature_transparent: P4,
) -> (out: String) where
    L1: Fn(char) -> (u8, u16),
    L2: Fn(char) -> (u8, u16),
    P1: Fn(char) -> bool,
    P2: Fn(char) -> bool,
    P3: Fn(char) -> bool,
    P4: Fn(char) -> bool,

    requires
        trie_total(t.root@, t.middle@, t.leaves@),
        trie_total(t.root_cjk@, t.middle@, t.leaves@),
        forall|c: char| #[trigger] lookup_width.requires((c,)),
        forall|c: char| #[trigger] lookup_width_cjk.requires((c,)),
        forall|c: char, r: (u8, u16)| call_ensures(lookup_width, (c,), r) ==> r.0 < 64,
        forall|c: char, r: (u8, u16)| call_ensures(lookup_width_cjk, (c,), r) ==> r.0 < 64,
        forall|c: char| #[trigger] starts_emoji_presentation_seq.requires((c,)),
        forall|c: char| #[trigger] starts_non_ideographic_text_presentation_seq.requires((c,)),
        forall|c: char| #[trigger] is_emoji_modifier_base.requires((c,)),
        forall|c: char| #[trigger] is_ligature_transparent.requires((c,)),
    ensures
        exists|
            special: Seq<(u32, u32, u8, u16)>,
            special_cjk: Seq<(u32, u32, u8, u16)>,
            emoji: Seq<(u32, u32)>,
            text: Seq<(u32, u32)>,
            modifier: Seq<(u32, u32)>,
            ligature: Seq<(u32, u32)>,
        |
            {
                &&& is_specials_of(t.root@, t.middle@, t.leaves@, lookup_width, special)
                &&& is_specials_of(t.root_cjk@, t.middle@, t.leaves@, lookup_width_cjk, special_cjk)
                &&& is_runs_of(starts_emoji_presentation_seq, emoji)
                &&& is_runs_of(starts_non_ideographic_text_presentation_seq, text)
                &&& is_runs_of(is_emoji_modifier_base, modifier)
                &&& is_runs_of(is_ligature_transparent, ligature)
                &&& out@ == #[trigger] tables_text(
                    *t,
                    banner@,
            notice@,
                    special,
                    special_cjk,
                    emoji,
                    text,
                    modifier,
                    ligature,
                )
            },
        ({
            &&& looks_up_once(lookup_width)
            &&& looks_up_once(lookup_width_cjk)
            &&& answers_once(starts_emoji_presentation_seq)
            &&& answers_once(starts_non_ideographic_text_presentation_seq)
            &&& answers_once(is_emoji_modifier_base)
            &&& answers_once(is_ligature_transparent)
        }) ==> forall|
            special: Seq<(u32, u32, u8, u16)>,
            special_cjk: Seq<(u32, u32, u8, u16)>,
            emoji: Seq<(u32, u32)>,
            text: Seq<(u32, u32)>,
            modifier: Seq<(u32, u32)>,
            ligature: Seq<(u32, u32)>,
        |
            {
                &&& is_specials_of(t.root@, t.middle@, t.leaves@, lookup_width, special)
                &&& is_specials_of(t.root_cjk@, t.middle@, t.leaves@, lookup_width_cjk, special_cjk)
                &&& is_runs_of(starts_emoji_presentation_seq, emoji)
                &&& is_runs_of(starts_non_ideographic_text_presentation_seq, text)
                &&& is_runs_of(is_emoji_modifier_base, modifier)
                &&& is_runs_of(is_ligature_transparent, ligature)
            } ==> out@ == #[trigger] tables_text(
                *t,
                banner@,
                notice@,
                special,
                special_cjk,
                emoji,
                text,
                modifier,
                ligature,
            ),
{
    let special = specials(&t.root, t.middle.as_slice(), t.leaves.as_slice(), lookup_width);
    let special_cjk = specials(
        &t.root_cjk,
        t.middle.as_slice(),
        t.leaves.as_slice(),
        lookup_width_cjk,
    );
    let emoji = runs(starts_emoji_presentation_seq);
    let text = runs(starts_non_ideographic_text_presentation_seq);
    let modifier = runs(is_emoji_modifier_base);
    let ligature = runs(is_ligature_transparent);
    proof {
        lemma_specials_fit(t.root@, t.middle@, t.leaves@, lookup_width, special@);
        lemma_specials_fit(t.root_cjk@, t.middle@, t.leaves@, lookup_width_cjk, special_cjk@);
        lemma_runs_fit(starts_emoji_presentation_seq, emoji@);
        lemma_runs_fit(starts_non_ideographic_text_presentation_seq, text@);
        lemma_runs_fit(is_emoji_modifier_base, modifier@);
        lemma_runs_fit(is_ligature_transparent, ligature@);
    }
    let out = render_tables(
        t,
        banner,
        notice,
        special.as_slice(),
        special_cjk.as_slice(),
        emoji.as_slice(),
        text.as_slice(),
        modifier.as_slice(),
        ligature.as_slice(),
    );
    assert(out@ == tables_text(
        *t,
        banner@,
        notice@,
        special@,
        special_cjk@,
        emoji@,
        text@,
        modifier@,
        ligature@,
    ));
    proof {
        if looks_up_once(lookup_width) && looks_up_once(lookup_width_cjk) && answers_once(
            starts_emoji_presentation_seq,
        ) && answers_once(starts_non_ideographic_text_presentation_seq) && answers_once(
            is_emoji_modifier_base,
        ) && answers_once(is_ligature_transparent) {
            assert forall|
                sp: Seq<(u32, u32, u8, u16)>,
                spc: Seq<(u32, u32, u8, u16)>,
                e: Seq<(u32, u32)>,
                x: Seq<(u32, u32)>,
                m: Seq<(u32, u32)>,
                l: Seq<(u32, u32)>,
            |
                {
                    &&& is_specials_of(t.root@, t.middle@, t.leaves@, lookup_width, sp)
                    &&& is_specials_of(t.root_cjk@, t.middle@, t.leaves@, lookup_width_cjk, spc)
                    &&& is_runs_of(starts_emoji_presentation_seq, e)
                    &&& is_runs_of(starts_non_ideographic_text_presentation_seq, x)
                    &&& is_runs_of(is_emoji_modifier_base, m)
                    &&& is_runs_of(is_ligature_transparent, l)
                } implies out@ == #[trigger] tables_text(
                *t,
                banner@,
                notice@,
                sp,
                spc,
                e,
                x,
                m,
                l,
            ) by {
                lemma_specials_unique(t.root@, t.middle@, t.leaves@, lookup_width, special@, sp);
                lemma_specials_unique(t.root_cjk@, t.middle@, t.leaves@, lookup_width_cjk, special_cjk@, spc);
                lemma_runs_unique(starts_emoji_presentation_seq, emoji@, e);
                lemma_runs_unique(starts_non_ideographic_text_presentation_seq, text@, x);
                lemma_runs_unique(is_emoji_modifier_base, modifier@, m);
                lemma_runs_unique(is_ligature_transparent, ligature@, l);
            }
        }
    }
    out
}


/// The header that a definition of `name` starts with, from the end of the
/// line before it to the indentation of its literal.
pub open spec fn def_header(name: Seq<char>) -> Seq<char> {
    "\n@pub(pkg) def "@ + name + " =\n  "@
}

/// Whether `text` holds, at index `i`, the header of the definition of
/// `name` followed by the literal `lit` in double quotes.
pub open spec fn def_at(text: Seq<char>, i: int, name: Seq<char>, lit: Seq<char>) -> bool {
    &&& 0 <= i
    &&& i + def_header(name).len() + lit.len() <= text.len()
    &&& text.subrange(i, i + def_header(name).len() + lit.len()) == def_header(name) + lit
    &&& lit.len() >= 2
    &&& lit[0] == '"'
    &&& lit.last() == '"'
}

/// Whether `text` defines `name` as a literal that reads back (see
/// `literal_value`) as `body`.
pub open spec fn defines(text: Seq<char>, name: Seq<char>, body: Seq<char>) -> bool {
    exists|i: int, lit: Seq<char>|
        #[trigger] def_at(text, i, name, lit) && literal_value(lit.subrange(1, lit.len() - 1))
            == body
}

proof fn lemma_def_alone(doc: Seq<char>, name: Seq<char>, body: Seq<char>)
    ensures
        defines(def_text(doc, name, body), name, body),
        defines(def_text(doc, name, body).drop_last(), name, body),
{
    let lit = literal_of(body, 96);
    let h = def_header(name);
    let d = def_text(doc, name, body);
    let i: int = doc.len() as int;
    reveal_strlit("\n\n");
    assert(d =~= doc + h + lit + "\n\n"@);
    assert(d.subrange(i, i + h.len() + lit.len() as int) =~= h + lit);
    assert(d.drop_last().subrange(i, i + h.len() + lit.len() as int) =~= h + lit);
    lemma_long_literal_roundtrip(body, 96);
    crate::encoding::lemma_long_literal_lines(body, 96);
    assert(def_at(d, i, name, lit));
    assert(def_at(d.drop_last(), i, name, lit));
}

proof fn lemma_defines_append(x: Seq<char>, q: Seq<char>, name: Seq<char>, body: Seq<char>)
    requires
        defines(x, name, body),
    ensures
        defines(x + q, name, body),
{
    let (i, lit) = choose|i: int, lit: Seq<char>|
        #[trigger] def_at(x, i, name, lit) && literal_value(lit.subrange(1, lit.len() - 1)) == body;
    let n = def_header(name).len() + lit.len();
    assert((x + q).subrange(i, i + n) =~= x.subrange(i, i + n));
    assert(def_at(x + q, i, name, lit));
}

proof fn lemma_defines_prepend(p: Seq<char>, x: Seq<char>, name: Seq<char>, body: Seq<char>)
    requires
        defines(x, name, body),
    ensures
        defines(p + x, name, body),
{
    let (i, lit) = choose|i: int, lit: Seq<char>|
        #[trigger] def_at(x, i, name, lit) && literal_value(lit.subrange(1, lit.len() - 1)) == body;
    let n = def_header(name).len() + lit.len();
    let j = p.len() + i;
    assert((p + x).subrange(j, j + n) =~= x.subrange(i, i + n));
    assert(def_at(p + x, j, name, lit));
}

/// Every definition of the tables file reads back: the literal after the
/// header of each table, with its escapes and continuations read, is that
/// table's text, two digits a byte for the trie, the records of the special
/// cases and of the ranges for the others.
pub proof fn lemma_tables_read_back(
    t: UpstreamTables,
    banner: Seq<char>,
    notice: Seq<char>,
    special: Seq<(u32, u32, u8, u16)>,
    special_cjk: Seq<(u32, u32, u8, u16)>,
    emoji_presentation: Seq<(u32, u32)>,
    text_presentation: Seq<(u32, u32)>,
    modifier_base: Seq<(u32, u32)>,
    ligature_transparent: Seq<(u32, u32)>,
)
    ensures
        ({
            let f = tables_text(
                t,
                banner,
                notice,
                special,
                special_cjk,
                emoji_presentation,
                text_presentation,
                modifier_base,
                ligature_transparent,
            );
            &&& defines(f, "widthRoot"@, bytes_text(t.root@))
            &&& defines(f, "widthRootCjk"@, bytes_text(t.root_cjk@))
            &&& defines(f, "widthMiddle"@, bytes_text(flatten(t.middle@)))
            &&& defines(f, "widthLeaves"@, bytes_text(flatten(t.leaves@)))
            &&& defines(f, "specials"@, special_text(special))
            &&& defines(f, "specialsCjk"@, special_text(special_cjk))
            &&& defines(f, "emojiPresentation"@, range_text(emoji_presentation))
            &&& defines(f, "textPresentation"@, range_text(text_presentation))
            &&& defines(f, "emojiModifierBase"@, range_text(modifier_base))
            &&& defines(f, "ligatureTransparent"@, range_text(ligature_transparent))
            &&& defines(
                f,
                "nonTransparentZeroWidths"@,
                range_text(le3_seq(t.non_transparent_zero_widths@)),
            )
            &&& defines(f, "solidusTransparent"@, range_text(le3_seq(t.solidus_transparent@)))
        }),
{
    let hv = tables_head(banner, notice) + version_text(t.unicode_version);
    let doc1 = "-- The trie's first level, indexed by `cp >> 13`: 256 bytes, two digits each."@;
    let body1 = bytes_text(t.root@);
    let d1 = def_text(doc1, "widthRoot"@, body1);
    let doc2 = "-- The same, for East Asian contexts, where ambiguous characters are wide."@;
    let body2 = bytes_text(t.root_cjk@);
    let d2 = def_text(doc2, "widthRootCjk"@, body2);
    let doc3 = "-- The second level: 64 bytes a block, indexed by `cp >> 7 & 63`."@;
    let body3 = bytes_text(flatten(t.middle@));
    let d3 = def_text(doc3, "widthMiddle"@, body3);
    let doc4 = "-- The third: 32 bytes a block, indexed by `cp >> 2 & 31`, four 2-bit\n-- widths packed in each byte."@;
    let body4 = bytes_text(flatten(t.leaves@));
    let d4 = def_text(doc4, "widthLeaves"@, body4);
    let doc5 = "-- Where the trie says 3: `lo hi` (4 digits each), then the width (1) and\n-- the state-machine information (3)."@;
    let body5 = special_text(special);
    let d5 = def_text(doc5, "specials"@, body5);
    let doc6 = "-- The same, for East Asian contexts."@;
    let body6 = special_text(special_cjk);
    let d6 = def_text(doc6, "specialsCjk"@, body6);
    let doc7 = range_doc("starts an emoji presentation sequence when followed by U+FE0F"@);
    let body7 = range_text(emoji_presentation);
    let d7 = def_text(doc7, "emojiPresentation"@, body7);
    let doc8 = range_doc(
        "is emoji by default but not ideographic, and starts a text presentation\n-- sequence when followed by U+FE0E"@,
    );
    let body8 = range_text(text_presentation);
    let d8 = def_text(doc8, "textPresentation"@, body8);
    let doc9 = range_doc("is an Emoji_Modifier_Base"@);
    let body9 = range_text(modifier_base);
    let d9 = def_text(doc9, "emojiModifierBase"@, body9);
    let doc10 = range_doc(
        "is a default-ignorable combining mark or ZWJ, which does not interrupt a\n-- non-Arabic ligature"@,
    );
    let body10 = range_text(ligature_transparent);
    let d10 = def_text(doc10, "ligatureTransparent"@, body10);
    let doc11 = range_doc("is zero-width but not Joining_Type=Transparent"@);
    let body11 = range_text(le3_seq(t.non_transparent_zero_widths@));
    let d11 = def_text(doc11, "nonTransparentZeroWidths"@, body11);
    let doc12 = range_doc("does not stop U+0338 COMBINING LONG SOLIDUS OVERLAY acting on its base"@);
    let body12 = range_text(le3_seq(t.solidus_transparent@));
    let d12 = def_text(doc12, "solidusTransparent"@, body12);
    let tt = d1 + d2 + d3 + d4;
    let ss = d5 + d6;
    let r5 = d7 + d8 + d9 + d10 + d11;
    let d12t = d12.drop_last();
    let head = hv + tt + ss;
    let tail = r5 + d12t;
    let full = head + (r5 + d12);
    assert(trie_defs(t) == tt);
    assert(special_defs(special, special_cjk) == ss);
    assert(range_defs(
        emoji_presentation,
        text_presentation,
        modifier_base,
        ligature_transparent,
        le3_seq(t.non_transparent_zero_widths@),
        le3_seq(t.solidus_transparent@),
    ) == r5 + d12);
    reveal_strlit("\n\n");
    assert(d12.len() > 0);
    assert(full.drop_last() =~= head + tail);
    lemma_def_alone(doc1, "widthRoot"@, body1);
    lemma_def_alone(doc2, "widthRootCjk"@, body2);
    lemma_def_alone(doc3, "widthMiddle"@, body3);
    lemma_def_alone(doc4, "widthLeaves"@, body4);
    lemma_def_alone(doc5, "specials"@, body5);
    lemma_def_alone(doc6, "specialsCjk"@, body6);
    lemma_def_alone(doc7, "emojiPresentation"@, body7);
    lemma_def_alone(doc8, "textPresentation"@, body8);
    lemma_def_alone(doc9, "emojiModifierBase"@, body9);
    lemma_def_alone(doc10, "ligatureTransparent"@, body10);
    lemma_def_alone(doc11, "nonTransparentZeroWidths"@, body11);
    lemma_def_alone(doc12, "solidusTransparent"@, body12);
    // The trie's levels, inside `tt`.
    lemma_defines_append(d1, d2, "widthRoot"@, body1);
    lemma_defines_append(d1 + d2, d3, "widthRoot"@, body1);
    lemma_defines_append(d1 + d2 + d3, d4, "widthRoot"@, body1);
    lemma_defines_prepend(d1, d2, "widthRootCjk"@, body2);
    lemma_defines_append(d1 + d2, d3, "widthRootCjk"@, body2);
    lemma_defines_append(d1 + d2 + d3, d4, "widthRootCjk"@, body2);
    lemma_defines_prepend(d1 + d2, d3, "widthMiddle"@, body3);
    lemma_defines_append(d1 + d2 + d3, d4, "widthMiddle"@, body3);
    lemma_defines_prepend(d1 + d2 + d3, d4, "widthLeaves"@, body4);
    // The special cases, inside `ss`.
    lemma_defines_append(d5, d6, "specials"@, body5);
    lemma_defines_prepend(d5, d6, "specialsCjk"@, body6);
    // The ranges, inside `r5` or at the end.
    lemma_defines_append(d7, d8, "emojiPresentation"@, body7);
    lemma_defines_append(d7 + d8, d9, "emojiPresentation"@, body7);
    lemma_defines_append(d7 + d8 + d9, d10, "emojiPresentation"@, body7);
    lemma_defines_append(d7 + d8 + d9 + d10, d11, "emojiPresentation"@, body7);
    lemma_defines_prepend(d7, d8, "textPresentation"@, body8);
    lemma_defines_append(d7 + d8, d9, "textPresentation"@, body8);
    lemma_defines_append(d7 + d8 + d9, d10, "textPresentation"@, body8);
    lemma_defines_append(d7 + d8 + d9 + d10, d11, "textPresentation"@, body8);
    lemma_defines_prepend(d7 + d8, d9, "emojiModifierBase"@, body9);
    lemma_defines_append(d7 + d8 + d9, d10, "emojiModifierBase"@, body9);
    lemma_defines_append(d7 + d8 + d9 + d10, d11, "emojiModifierBase"@, body9);
    lemma_defines_prepend(d7 + d8 + d9, d10, "ligatureTransparent"@, body10);
    lemma_defines_append(d7 + d8 + d9 + d10, d11, "ligatureTransparent"@, body10);
    lemma_defines_prepend(d7 + d8 + d9 + d10, d11, "nonTransparentZeroWidths"@, body11);
    // Each definition of `tt` and `ss` inside `head`, then in the whole.
    lemma_defines_prepend(hv, tt, "widthRoot"@, body1);
    lemma_defines_prepend(hv, tt, "widthRootCjk"@, body2);
    lemma_defines_prepend(hv, tt, "widthMiddle"@, body3);
    lemma_defines_prepend(hv, tt, "widthLeaves"@, body4);
    lemma_defines_append(hv + tt, ss, "widthRoot"@, body1);
    lemma_defines_append(hv + tt, ss, "widthRootCjk"@, body2);
    lemma_defines_append(hv + tt, ss, "widthMiddle"@, body3);
    lemma_defines_append(hv + tt, ss, "widthLeaves"@, body4);
    lemma_defines_prepend(hv + tt, ss, "specials"@, body5);
    lemma_defines_prepend(hv + tt, ss, "specialsCjk"@, body6);
    lemma_defines_append(head, tail, "widthRoot"@, body1);
    lemma_defines_append(head, tail, "widthRootCjk"@, body2);
    lemma_defines_append(head, tail, "widthMiddle"@, body3);
    lemma_defines_append(head, tail, "widthLeaves"@, body4);
    lemma_defines_append(head, tail, "specials"@, body5);
    lemma_defines_append(head, tail, "specialsCjk"@, body6);
    // Each definition of `tail` in the whole.
    lemma_defines_append(r5, d12t, "emojiPresentation"@, body7);
    lemma_defines_append(r5, d12t, "textPresentation"@, body8);
    lemma_defines_append(r5, d12t, "emojiModifierBase"@, body9);
    lemma_defines_append(r5, d12t, "ligatureTransparent"@, body10);
    lemma_defines_append(r5, d12t, "nonTransparentZeroWidths"@, body11);
    lemma_defines_prepend(r5, d12t, "solidusTransparent"@, body12);
    lemma_defines_prepend(head, tail, "emojiPresentation"@, body7);
    lemma_defines_prepend(head, tail, "textPresentation"@, body8);
    lemma_defines_prepend(head, tail, "emojiModifierBase"@, body9);
    lemma_defines_prepend(head, tail, "ligatureTransparent"@, body10);
    lemma_defines_prepend(head, tail, "nonTransparentZeroWidths"@, body11);
    lemma_defines_prepend(head, tail, "solidusTransparent"@, body12);
}

} // verus!
