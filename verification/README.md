# widthgen

Writes the character-width data of the `unicode-width` crate (0.2.2) as
string-literal tables for a Meadow package, and collects test inputs with the
widths the crate gives them. The library is verified with Verus; `app/` is the
command-line program around it.

## Layout

- `src/encoding.rs`: numbers as base-64 digits (`'0'` to `'o'`, most
  significant first), tables of bytes, ranges and special cases as runs of
  fixed-width records, and text as a string literal broken into lines. Proved:
  digits read back as the number and keep the order of numbers, every table
  record reads back, a byte table of two byte strings is the two tables one
  after the other, and a literal is plain ASCII that reads back as its text,
  with exactly one line break per `width` characters after the first.
- `src/trie.rs`: the crate's three-level width trie, and the maximal runs of
  code points that a predicate or a lookup picks out of it. Proved: for a
  predicate or lookup that answers each character one way, those runs are
  unique.
- `src/tables.rs`: the tables file, from the crate's trie, lookups and
  predicates. Proved: every definition in it reads back as its table, and for
  lookups and predicates that answer each character one way, the tables are
  those of the special cases and runs that `specials` and `runs` find.
- `src/machine.rs`: the code of the crate's table source with its data taken
  out, and its FNV-1a fingerprint, which tells when the state machine changed.
  Proved: taking the data out twice is taking it out once, comments, table
  contents, table sizes and the version never reach the fingerprint, however
  many of those lines change, and equal
  fingerprints stay equal when the same text is appended.
- `src/literals.rs`: the string and character literals of Rust source text;
  byte strings and raw strings are skipped whole.
- `src/rng.rs`: the xorshift64* generator that draws the random inputs.
- `src/order.rs`: sorting strings in the order of their UTF-8 bytes, and
  numbers, each kept once.
- `src/cases.rs`: the cases file: the strings of the crate's tests, its emoji
  test file and random sequences, and the code points on each side of every
  width change, each with the widths the crate gives them.
- `src/text.rs`: lines, prefixes and white space of text.
- `app/main.rs`: reads the crate's sources (the directory given as second
  argument or in `UPSTREAM_DIR`), checks the fingerprint of its state machine
  (printing the fingerprinted code when `DUMP_LOGIC` is set), and writes the
  cases file.
