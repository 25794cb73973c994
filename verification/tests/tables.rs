use widthgen::tables::{tables, UpstreamTables};
use widthgen::trie::{runs, specials, trie};

fn zero_tables() -> UpstreamTables {
    UpstreamTables {
        unicode_version: (17, 0, 0),
        root: [0; 256],
        root_cjk: [0; 256],
        middle: vec![[0; 64]],
        leaves: vec![[0; 32]],
        non_transparent_zero_widths: vec![([1, 0, 0], [2, 0, 0])],
        solidus_transparent: vec![],
    }
}

#[test]
fn trie_walks_three_levels() {
    let mut root = [0u8; 256];
    root[1] = 1;
    let middle = vec![[0u8; 64], {
        let mut m = [0u8; 64];
        m[2] = 1;
        m
    }];
    let leaves = vec![[0u8; 32], {
        let mut l = [0u8; 32];
        l[3] = 0b11_10_01_00;
        l
    }];
    // cp = 1 << 13 | 2 << 7 | 3 << 2 | slot
    let base = (1u32 << 13) | (2 << 7) | (3 << 2);
    assert_eq!(trie(&root, &middle, &leaves, base), 0);
    assert_eq!(trie(&root, &middle, &leaves, base + 1), 1);
    assert_eq!(trie(&root, &middle, &leaves, base + 2), 2);
    assert_eq!(trie(&root, &middle, &leaves, base + 3), 3);
    assert_eq!(trie(&root, &middle, &leaves, 3), 0);
}

#[test]
fn runs_are_maximal() {
    assert_eq!(runs(|c: char| c.is_ascii_digit()), vec![(0x30, 0x39)]);
    assert_eq!(runs(|c: char| c == 'a' || c == 'c'), vec![(0x61, 0x61), (0x63, 0x63)]);
    assert_eq!(runs(|_c: char| false), vec![]);
    assert_eq!(runs(|_c: char| true), vec![(0, 0x10FFFF)]);
}

#[test]
fn runs_merge_across_surrogates() {
    assert_eq!(runs(|c: char| ('\u{D7FF}'..='\u{E000}').contains(&c)), vec![(0xD7FF, 0xE000)]);
    assert_eq!(runs(|c: char| c == '\u{D7FE}' || c == '\u{E000}'), vec![(0xD7FE, 0xD7FE), (0xE000, 0xE000)]);
}

#[test]
fn specials_where_trie_says_three() {
    let root = [0u8; 256];
    let middle = vec![[0u8; 64]];
    let mut leaf = [0u8; 32];
    leaf[0] = 0b11;
    let leaves = vec![leaf];
    let sp = specials(&root, &middle, &leaves, |_c: char| (1u8, 0u16));
    assert_eq!(sp.len(), 8704 - 16);
    assert_eq!(sp[0], (0, 0, 1, 0));
    assert_eq!(sp[1], (128, 128, 1, 0));
}

#[test]
fn specials_runs_of_equal_answers() {
    let root = [0u8; 256];
    let middle = vec![[0u8; 64]];
    let leaves = vec![[0xFFu8; 32]];
    let sp = specials(&root, &middle, &leaves, |c: char| (if c < 'a' { 1u8 } else { 2u8 }, 7u16));
    assert_eq!(sp, vec![(0, 0x60, 1, 7), (0x61, 0xD7FF, 2, 7), (0xE000, 0x10FFFF, 2, 7)]);
}

#[test]
fn tables_file() {
    let t = zero_tables();
    let out = tables(
        &t,
        "B\n",
        "N\n",
        |_c: char| (0u8, 0u16),
        |_c: char| (0u8, 0u16),
        |c: char| c == 'a' || c == 'b',
        |c: char| ('\u{D7FE}'..='\u{E001}').contains(&c),
        |_c: char| false,
        |c: char| c == '\u{10FFFF}',
    );
    let want = r#"B
--
-- Every table is a string of fixed-width records, each field written in the
-- base-64 digits '0' ('0' + 0) to 'o' ('0' + 63), most significant first. A
-- lookup reads the digits it needs with `stringByteAt`, which takes constant
-- time; see `Lookup.mw`.
--
N

-- The Unicode version the tables describe.
@pub(pkg) def unicodeVersion = (17, 0, 0)

-- The trie's first level, indexed by `cp >> 13`: 256 bytes, two digits each.
@pub(pkg) def widthRoot =
  "000000000000000000000000000000000000000000000000000000000000000000000000000000000000000000000000\
    000000000000000000000000000000000000000000000000000000000000000000000000000000000000000000000000\
    000000000000000000000000000000000000000000000000000000000000000000000000000000000000000000000000\
    000000000000000000000000000000000000000000000000000000000000000000000000000000000000000000000000\
    000000000000000000000000000000000000000000000000000000000000000000000000000000000000000000000000\
    00000000000000000000000000000000"

-- The same, for East Asian contexts, where ambiguous characters are wide.
@pub(pkg) def widthRootCjk =
  "000000000000000000000000000000000000000000000000000000000000000000000000000000000000000000000000\
    000000000000000000000000000000000000000000000000000000000000000000000000000000000000000000000000\
    000000000000000000000000000000000000000000000000000000000000000000000000000000000000000000000000\
    000000000000000000000000000000000000000000000000000000000000000000000000000000000000000000000000\
    000000000000000000000000000000000000000000000000000000000000000000000000000000000000000000000000\
    00000000000000000000000000000000"

-- The second level: 64 bytes a block, indexed by `cp >> 7 & 63`.
@pub(pkg) def widthMiddle =
  "000000000000000000000000000000000000000000000000000000000000000000000000000000000000000000000000\
    00000000000000000000000000000000"

-- The third: 32 bytes a block, indexed by `cp >> 2 & 31`, four 2-bit
-- widths packed in each byte.
@pub(pkg) def widthLeaves =
  "0000000000000000000000000000000000000000000000000000000000000000"

-- Where the trie says 3: `lo hi` (4 digits each), then the width (1) and
-- the state-machine information (3).
@pub(pkg) def specials =
  ""

-- The same, for East Asian contexts.
@pub(pkg) def specialsCjk =
  ""

-- Code points that starts an emoji presentation sequence when followed by U+FE0F: `lo hi`, 4 digits each.
@pub(pkg) def emojiPresentation =
  "001Q001R"

-- Code points that is emoji by default but not ideographic, and starts a text presentation
-- sequence when followed by U+FE0E: `lo hi`, 4 digits each.
@pub(pkg) def textPresentation =
  "0=On0>01"

-- Code points that is an Emoji_Modifier_Base: `lo hi`, 4 digits each.
@pub(pkg) def emojiModifierBase =
  ""

-- Code points that is a default-ignorable combining mark or ZWJ, which does not interrupt a
-- non-Arabic ligature: `lo hi`, 4 digits each.
@pub(pkg) def ligatureTransparent =
  "4?oo4?oo"

-- Code points that is zero-width but not Joining_Type=Transparent: `lo hi`, 4 digits each.
@pub(pkg) def nonTransparentZeroWidths =
  "00010002"

-- Code points that does not stop U+0338 COMBINING LONG SOLIDUS OVERLAY acting on its base: `lo hi`, 4 digits each.
@pub(pkg) def solidusTransparent =
  ""
"#;
    assert_eq!(out, want);
}

/// The text of the literal that `out` defines `name` as, with its escapes
/// and line continuations read.
fn definition(out: &str, name: &str) -> String {
    let header = format!("\n@pub(pkg) def {name} =\n  \"");
    let start = out.find(&header).expect("definition present") + header.len();
    let s: Vec<char> = out[start..].chars().collect();
    let mut text = String::new();
    let mut i = 0;
    while s[i] != '"' {
        if s[i] != '\\' {
            text.push(s[i]);
            i += 1;
            continue;
        }
        match s[i + 1] {
            '\n' => {
                i += 2;
                while s[i] == ' ' {
                    i += 1;
                }
            }
            c => {
                text.push(c);
                i += 2;
            }
        }
    }
    text
}

#[test]
fn definitions_read_back() {
    let mut t = zero_tables();
    t.leaves = vec![std::array::from_fn(|k| (k * 8) as u8)];
    t.solidus_transparent = vec![([0x38, 0x03, 0], [0x40, 0x03, 0])];
    let out = tables(
        &t,
        "B\n",
        "N\n",
        |c: char| (if c == 'a' { 2u8 } else { 1u8 }, 0x5C),
        |_c: char| (1u8, 7u16),
        |c: char| c == 'a' || c == 'b',
        |_c: char| false,
        |c: char| c == '\u{10FFFF}',
        |_c: char| false,
    );
    let leaves: Vec<u8> = t.leaves.concat();
    assert_eq!(definition(&out, "widthLeaves"), widthgen::encoding::bytes_as_digits(&leaves));
    assert_eq!(definition(&out, "widthRoot"), widthgen::encoding::bytes_as_digits(&t.root));
    let sp = specials(&t.root, &t.middle, &t.leaves, |c: char| (if c == 'a' { 2u8 } else { 1u8 }, 0x5C));
    assert_eq!(definition(&out, "specials"), widthgen::encoding::special_table(&sp));
    assert_eq!(
        definition(&out, "solidusTransparent"),
        widthgen::encoding::range_table(&[(0x338, 0x340)])
    );
    assert_eq!(definition(&out, "emojiModifierBase"), widthgen::encoding::range_table(&[(0x10FFFF, 0x10FFFF)]));
    assert_eq!(
        definition(&out, "emojiPresentation"),
        widthgen::encoding::range_table(&runs(|c: char| c == 'a' || c == 'b'))
    );
    let sp_cjk = specials(&t.root_cjk, &t.middle, &t.leaves, |_c: char| (1u8, 7u16));
    assert_eq!(definition(&out, "specialsCjk"), widthgen::encoding::special_table(&sp_cjk));
}
