use widthgen::machine::{check_machine, fingerprint, logic_of, MACHINE};
use widthgen::rng::Rng;

#[test]
fn fingerprint_is_fnv1a() {
    assert_eq!(fingerprint(""), 0xcbf2_9ce4_8422_2325);
    assert_eq!(fingerprint("a"), 0xaf63_dc4c_8601_ec8c);
    assert_eq!(fingerprint("fn main() {}\n"), 0x3554_63d2_db8c_9b7f);
}

#[test]
fn fingerprint_of_utf8_bytes() {
    assert_ne!(fingerprint("é"), fingerprint("e"));
    assert_eq!(fingerprint("é"), fingerprint("\u{e9}"));
}

#[test]
fn logic_drops_data() {
    let text = "// NOTE: generated\n\
                use core::cmp::Ordering;\n\
                static WIDTH_ROOT: [u8; 2] = [\n\
                    1, 2,\n\
                ];\n\
                static ONE_LINE: [u8; 1] = [0];\n\
                const WIDTH_MIDDLE_LEN: usize = 20;\n\
                pub const UNICODE_VERSION: (u8, u8, u8) = (17, 0, 0);\n\
                fn lookup(c: char) -> u8 {\n\
                \x20   match c {\n\
                \x20       '\\u{A}' => (1, X),\n\
                \x20       0x23 => &LEAF,\n\
                \x20       _ => 2,\n\
                \x20   }\n\
                }\n";
    let want = "use core::cmp::Ordering;\n\
                fn lookup(c: char) -> u8 {\n\
                \x20   match c {\n\
                \x20       _ => 2,\n\
                \x20   }\n\
                }\n";
    assert_eq!(logic_of(text), want);
}

#[test]
fn logic_drops_ligature_matches() {
    let text = "fn is_ligature_transparent(c: char) -> bool {\n    matches!(c, 'a')\n}\n    matches!(x)\n";
    let want = "fn is_ligature_transparent(c: char) -> bool {\n}\n    matches!(x)\n";
    assert_eq!(logic_of(text), want);
}

#[test]
fn logic_trims_unicode_white_space() {
    assert_eq!(logic_of("\t\u{3000}// comment\nkeep\r\n"), "keep\n");
    assert_eq!(logic_of("a\rb"), "a\rb\n");
    assert_eq!(logic_of(""), "");
}

#[test]
fn machine_check() {
    let r = check_machine("fn other() {}\n");
    assert_eq!(r, Err(fingerprint("fn other() {}\n")));
    assert_ne!(fingerprint("fn other() {}\n"), MACHINE);
}

#[test]
fn rng_next() {
    let mut r = Rng(0x5eed_ba11_c0ff_ee42);
    assert_eq!(r.next(), 0x5f39_22e6_6c98_d503);
    assert_eq!(r.0, 0xca2b_9310_5c91_809f);
    let mut r = Rng(1);
    assert_eq!(r.next(), 0x47e4_ce4b_896c_dd1d);
    assert_eq!(r.0, 0x200_0001);
}

#[test]
fn rng_below() {
    let mut a = Rng(0x5eed_ba11_c0ff_ee42);
    let mut b = Rng(0x5eed_ba11_c0ff_ee42);
    for n in 1..50usize {
        let x = a.below(n);
        assert!(x < n);
        assert_eq!(x as u64, b.next() % n as u64);
    }
}

#[test]
fn logic_taken_out_once() {
    let text = "// comment\nstatic T: [u8; 2] = [\n    1, 2,\n];\nfn f() {}\n    0x23 => &X,\nconst WIDTH_MIDDLE_LEN: usize = 3;\n}\n";
    let once = logic_of(text);
    assert_eq!(once, "fn f() {}\n}\n");
    assert_eq!(logic_of(&once), once);
}

#[test]
fn inert_lines_do_not_change_the_fingerprint() {
    let base = "fn f() {}\nstatic T: [u8; 2] = [\n    1, 2,\n];\nfn g() {}\n";
    let more = "fn f() {}\n    // a new comment\nstatic T: [u8; 2] = [\n    1, 2,\n    3, 4,\n];\npub const UNICODE_VERSION: (u8, u8, u8) = (18, 0, 0);\nfn g() {}\n";
    assert_eq!(logic_of(base), logic_of(more));
    assert_eq!(check_machine(base), check_machine(more));
}

#[test]
fn fingerprint_suffix() {
    let (s, t) = ("abc", "abc");
    assert_eq!(fingerprint(s), fingerprint(t));
    assert_eq!(fingerprint(&format!("{s}xyz")), fingerprint(&format!("{t}xyz")));
    assert_ne!(fingerprint("abc"), fingerprint("abd"));
}

#[test]
fn many_inert_lines_at_once() {
    let base = "fn f() {}\nstatic T: [u8; 1] = [\n    1,\n];\nfn g() {}\n";
    let changed = "// one\nfn f() {}\n  // two\nstatic T: [u8; 3] = [\n    7,\n    8,\n    9,\n];\nconst WIDTH_LEAVES_LEN: usize = 9;\n// three\nfn g() {}\nconst WIDTH_MIDDLE_LEN: usize = 2;\n";
    assert_eq!(logic_of(base), logic_of(changed));
    assert_eq!(check_machine(base), check_machine(changed));
}
