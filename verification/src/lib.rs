//! Tables of character widths written as string literals, and test inputs
//! with the widths the `unicode-width` crate gives them.
//!
//! Every table is a string of fixed-width records whose fields are written
//! in base-64 digits, the characters `'0'` to `'o'`, most significant first
//! (`encoding`). The tables are the width crate's three-level trie, the
//! special cases it sends to its state machine, and ranges of code points
//! picked out by its predicates (`trie`, `tables`). The test inputs are the
//! strings of the crate's own tests, its emoji test file, random sequences
//! of the characters its state machine cares about, and the code points on
//! each side of every width change, each with the widths the crate gives
//! them (`cases`). A fingerprint of the crate's state machine tells when it
//! has changed (`machine`).

pub mod text;
pub mod encoding;
pub mod literals;
pub mod order;
pub mod rng;
pub mod trie;
pub mod tables;
pub mod machine;
pub mod cases;
