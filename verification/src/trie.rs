//! The three-level width trie, and the code points that predicates and
//! lookups pick out of it, as maximal runs.

use vstd::prelude::*;
use crate::text::is_scalar;

verus! {

/// The number of values a `char` can be built from: `0` to `0x10FFFF`.
pub const SCALARS: u32 = 0x11_0000;

/// Where the trie looks for `cp`: the root index, the entry in the middle
/// block, the entry in the leaf block, and the slot of the packed byte.
pub open spec fn root_index(cp: u32) -> int {
    (cp >> 13u32) as int
}

/// The index into a middle block.
pub open spec fn middle_index(cp: u32) -> int {
    ((cp >> 7u32) & 0x3Fu32) as int
}

/// The index into a leaf block.
pub open spec fn leaf_index(cp: u32) -> int {
    ((cp >> 2u32) & 0x1Fu32) as int
}

/// Whether the trie can be walked for `cp`: every index on the way is in
/// bounds.
pub open spec fn trie_defined(
    root: Seq<u8>,
    middle: Seq<[u8; 64]>,
    leaves: Seq<[u8; 32]>,
    cp: u32,
) -> bool {
    &&& root_index(cp) < root.len()
    &&& (root[root_index(cp)] as int) < middle.len()
    &&& (middle[root[root_index(cp)] as int]@[middle_index(cp)] as int) < leaves.len()
}

/// The value the trie gives `cp`: the two bits of the packed leaf byte that
/// belong to `cp`.
pub open spec fn trie_value(
    root: Seq<u8>,
    middle: Seq<[u8; 64]>,
    leaves: Seq<[u8; 32]>,
    cp: u32,
) -> u8 {
    let t1 = root[root_index(cp)];
    let t2 = middle[t1 as int]@[middle_index(cp)];
    let packed = leaves[t2 as int]@[leaf_index(cp)];
    (packed >> (2 * (cp & 3u32)) as u8) & 3u8
}

/// How the trie is walked, in numbers: the root is indexed by `cp / 8192`,
/// the middle block it names by `cp / 128 % 64` (so every one of a block's
/// 64 entries is reached), the leaf block that names by `cp / 4 % 32`, and
/// the value is the two bits of that byte at place `cp % 4`, counted from
/// the low end.
pub proof fn lemma_trie_walk(root: Seq<u8>, middle: Seq<[u8; 64]>, leaves: Seq<[u8; 32]>, cp: u32)
    requires
        cp as int / 8192 < root.len(),
        root[cp as int / 8192] < middle.len(),
        middle[root[cp as int / 8192] as int]@[(cp as int / 128) % 64] < leaves.len(),
    ensures
        trie_defined(root, middle, leaves, cp),
        ({
            let n = cp as int;
            let packed = leaves[middle[root[n / 8192] as int]@[(n / 128) % 64] as int]@[(n / 4)
                % 32];
            let place: int = if n % 4 == 0 {
                1
            } else if n % 4 == 1 {
                4
            } else if n % 4 == 2 {
                16
            } else {
                64
            };
            trie_value(root, middle, leaves, cp) == (packed as int / place) % 4
        }),
{
    let n = cp as int;
    assert((cp >> 13u32) == cp / 8192) by (bit_vector);
    assert(((cp >> 7u32) & 0x3Fu32) == (cp / 128) % 64) by (bit_vector);
    assert(((cp >> 2u32) & 0x1Fu32) == (cp / 4) % 32) by (bit_vector);
    assert((cp & 3u32) == cp % 4) by (bit_vector);
    let packed = leaves[middle[root[n / 8192] as int]@[(n / 128) % 64] as int]@[(n / 4) % 32];
    assert((packed >> 0u8) & 3u8 == packed % 4) by (bit_vector);
    assert((packed >> 2u8) & 3u8 == (packed / 4) % 4) by (bit_vector);
    assert((packed >> 4u8) & 3u8 == (packed / 16) % 4) by (bit_vector);
    assert((packed >> 6u8) & 3u8 == (packed / 64) % 4) by (bit_vector);
}

/// Whether the trie can be walked for every scalar value.
pub open spec fn trie_total(root: Seq<u8>, middle: Seq<[u8; 64]>, leaves: Seq<[u8; 32]>) -> bool {
    forall|cp: u32| is_scalar(cp as int) ==> #[trigger] trie_defined(root, middle, leaves, cp)
}

/// The value the trie gives `cp`, before the special cases: 0, 1 or 2, or 3
/// for "look it up in the special cases". `root` is the first level,
/// indexed by `cp >> 13`; `middle` the second, 64 bytes a block, indexed by
/// `cp >> 7 & 63`; `leaves` the third, 32 bytes a block, indexed by
/// `cp >> 2 & 31`, with four 2-bit values packed in each byte.
pub fn trie(root: &[u8; 256], middle: &[[u8; 64]], leaves: &[[u8; 32]], cp: u32) -> (v: u8)
    requires
        trie_defined(root@, middle@, leaves@, cp),
    ensures
        v == trie_value(root@, middle@, leaves@, cp),
        v < 4,
{
    assert(((cp >> 7u32) & 0x3Fu32) < 64) by (bit_vector);
    assert(((cp >> 2u32) & 0x1Fu32) < 32) by (bit_vector);
    assert((cp & 3u32) < 4) by (bit_vector);
    let t1 = root[(cp >> 13u32) as usize];
    let t2 = middle[t1 as usize][((cp >> 7u32) & 0x3Fu32) as usize];
    let packed = leaves[t2 as usize][((cp >> 2u32) & 0x1Fu32) as usize];
    let shift = (2 * (cp & 3u32)) as u8;
    let v = (packed >> shift) & 3u8;
    assert(v < 4) by (bit_vector)
        requires
            v == (packed >> shift) & 3u8,
    ;
    v
}

/// Whether `cp` lies in the `k`-th run of `runs`.
pub open spec fn in_run(runs: Seq<(u32, u32)>, k: int, cp: u32) -> bool {
    runs[k].0 <= cp <= runs[k].1
}

/// Whether `cp` lies in some run of `runs`.
pub open spec fn in_some_run(runs: Seq<(u32, u32)>, cp: u32) -> bool {
    exists|k: int| 0 <= k < runs.len() && #[trigger] in_run(runs, k, cp)
}

/// Whether two runs in a row are apart: more than one value lies between
/// them, and they are not separated by the surrogates alone.
pub open spec fn runs_apart(a: (u32, u32), b: (u32, u32)) -> bool {
    &&& a.1 + 1 < b.0
    &&& !(a.1 == 0xD7FF && b.0 == 0xE000)
}

/// Whether `runs` are the maximal runs of the scalar values for which `pred`
/// answers `true`, runs that only the surrogates separate being one run:
/// each run starts and ends at a scalar value, runs come in order and apart,
/// every scalar value in a run is one that `pred` answered `true` for, and
/// every scalar value outside them is one it answered `false` for.
pub open spec fn is_runs_of<P: Fn(char) -> bool>(pred: P, runs: Seq<(u32, u32)>) -> bool {
    &&& forall|k: int|
        #![trigger runs[k]]
        0 <= k < runs.len() ==> {
            &&& is_scalar(runs[k].0 as int)
            &&& is_scalar(runs[k].1 as int)
            &&& runs[k].0 <= runs[k].1
        }
    &&& forall|k: int| 0 <= k < runs.len() - 1 ==> runs_apart(#[trigger] runs[k], runs[k + 1])
    &&& forall|cp: u32|
        is_scalar(cp as int) ==> (#[trigger] in_some_run(runs, cp) ==> call_ensures(
            pred,
            (cp as char,),
            true,
        )) && (!in_some_run(runs, cp) ==> call_ensures(pred, (cp as char,), false))
}

/// `is_runs_of` for the values below `cp`, with every run ending below `cp`.
#[verifier::opaque]
spec fn runs_upto<P: Fn(char) -> bool>(pred: P, runs: Seq<(u32, u32)>, cp: u32) -> bool {
    &&& forall|k: int|
        #![trigger runs[k]]
        0 <= k < runs.len() ==> {
            &&& is_scalar(runs[k].0 as int)
            &&& is_scalar(runs[k].1 as int)
            &&& runs[k].0 <= runs[k].1
            &&& runs[k].1 < cp
        }
    &&& forall|k: int| 0 <= k < runs.len() - 1 ==> runs_apart(#[trigger] runs[k], runs[k + 1])
    &&& forall|q: u32|
        q < cp && is_scalar(q as int) ==> (#[trigger] in_some_run(runs, q) ==> call_ensures(
            pred,
            (q as char,),
            true,
        )) && (!in_some_run(runs, q) ==> call_ensures(pred, (q as char,), false))
}

proof fn lemma_runs_start<P: Fn(char) -> bool>(pred: P)
    ensures
        runs_upto(pred, Seq::empty(), 0),
{
    reveal(runs_upto);
}

proof fn lemma_runs_end<P: Fn(char) -> bool>(pred: P, runs: Seq<(u32, u32)>)
    requires
        runs_upto(pred, runs, SCALARS),
    ensures
        is_runs_of(pred, runs),
{
    reveal(runs_upto);
}

proof fn lemma_runs_last_below<P: Fn(char) -> bool>(pred: P, runs: Seq<(u32, u32)>, cp: u32)
    requires
        runs_upto(pred, runs, cp),
        runs.len() > 0,
    ensures
        runs.last().1 < cp,
{
    reveal(runs_upto);
    assert(runs[runs.len() - 1].1 < cp);
}

/// A value that is not a scalar, or one that `pred` answered `false` for,
/// leaves the runs as they are.
proof fn lemma_runs_skip<P: Fn(char) -> bool>(pred: P, runs: Seq<(u32, u32)>, cp: u32)
    requires
        runs_upto(pred, runs, cp),
        cp < SCALARS,
        is_scalar(cp as int) ==> call_ensures(pred, (cp as char,), false),
    ensures
        runs_upto(pred, runs, (cp + 1) as u32),
{
    reveal(runs_upto);
    let next = (cp + 1) as u32;
    assert forall|q: u32|
        q < next && is_scalar(q as int) implies (#[trigger] in_some_run(runs, q) ==> call_ensures(
        pred,
        (q as char,),
        true,
    )) && (!in_some_run(runs, q) ==> call_ensures(pred, (q as char,), false)) by {
        if q == cp {
            assert forall|k: int| 0 <= k < runs.len() implies !#[trigger] in_run(runs, k, q) by {
                assert(runs[k].1 < cp);
            }
        }
    }
}

/// A value that `pred` answered `true` for extends the last run when it
/// follows it directly or across the surrogates alone.
proof fn lemma_runs_extend<P: Fn(char) -> bool>(pred: P, runs: Seq<(u32, u32)>, cp: u32)
    requires
        runs_upto(pred, runs, cp),
        cp < SCALARS,
        is_scalar(cp as int),
        call_ensures(pred, (cp as char,), true),
        runs.len() > 0,
        runs.last().1 + 1 == cp || (runs.last().1 == 0xD7FF && cp == 0xE000),
    ensures
        runs_upto(pred, runs.update(runs.len() - 1, (runs.last().0, cp)), (cp + 1) as u32),
{
    reveal(runs_upto);
    let n = runs.len() - 1;
    let out = runs.update(n, (runs.last().0, cp));
    let next = (cp + 1) as u32;
    assert(runs[n].1 < cp);
    assert forall|q: u32|
        q < next && is_scalar(q as int) implies (#[trigger] in_some_run(out, q) ==> call_ensures(
        pred,
        (q as char,),
        true,
    )) && (!in_some_run(out, q) ==> call_ensures(pred, (q as char,), false)) by {
        if q < cp {
            if in_some_run(out, q) {
                let k = choose|k: int| 0 <= k < out.len() && #[trigger] in_run(out, k, q);
                if k < n {
                    assert(in_run(runs, k, q));
                } else if q <= runs[n].1 {
                    assert(in_run(runs, n, q));
                } else {
                    assert(!is_scalar(q as int));
                }
                assert(in_some_run(runs, q));
            } else {
                assert forall|k: int| 0 <= k < runs.len() implies !#[trigger] in_run(runs, k, q) by {
                    assert(!in_run(out, k, q));
                }
                assert(!in_some_run(runs, q));
            }
        } else {
            assert(in_run(out, n, q));
            assert(in_some_run(out, q));
        }
    }
}

/// A value that `pred` answered `true` for and that does not extend the last
/// run starts a new one.
proof fn lemma_runs_push<P: Fn(char) -> bool>(pred: P, runs: Seq<(u32, u32)>, cp: u32)
    requires
        runs_upto(pred, runs, cp),
        cp < SCALARS,
        is_scalar(cp as int),
        call_ensures(pred, (cp as char,), true),
        runs.len() > 0 ==> !(runs.last().1 + 1 == cp || (runs.last().1 == 0xD7FF && cp == 0xE000)),
    ensures
        runs_upto(pred, runs.push((cp, cp)), (cp + 1) as u32),
{
    reveal(runs_upto);
    let n = runs.len();
    let out = runs.push((cp, cp));
    let next = (cp + 1) as u32;
    if n > 0 {
        assert(runs[n - 1].1 < cp);
    }
    assert forall|q: u32|
        q < next && is_scalar(q as int) implies (#[trigger] in_some_run(out, q) ==> call_ensures(
        pred,
        (q as char,),
        true,
    )) && (!in_some_run(out, q) ==> call_ensures(pred, (q as char,), false)) by {
        if q < cp {
            if in_some_run(out, q) {
                let k = choose|k: int| 0 <= k < out.len() && #[trigger] in_run(out, k, q);
                assert(k < n);
                assert(in_run(runs, k, q));
                assert(in_some_run(runs, q));
            } else {
                assert forall|k: int| 0 <= k < runs.len() implies !#[trigger] in_run(runs, k, q) by {
                    assert(!in_run(out, k, q));
                }
                assert(!in_some_run(runs, q));
            }
        } else {
            assert(in_run(out, n as int, q));
            assert(in_some_run(out, q));
        }
    }
}

/// Code points `c` for which `pred` holds, as maximal runs. Runs separated
/// only by the surrogates, which no string can hold and so no lookup can ask
/// about, are one run.
pub fn runs<P: Fn(char) -> bool>(pred: P) -> (out: Vec<(u32, u32)>)
    requires
        forall|c: char| #[trigger] pred.requires((c,)),
    ensures
        is_runs_of(pred, out@),
{
    let mut out: Vec<(u32, u32)> = Vec::new();
    let mut cp: u32 = 0;
    proof {
        lemma_runs_start(pred);
    }
    while cp < SCALARS
        invariant
            cp <= SCALARS,
            forall|c: char| #[trigger] pred.requires((c,)),
            runs_upto(pred, out@, cp),
        decreases SCALARS - cp,
    {
        match char::from_u32(cp) {
            None => {
                proof {
                    lemma_runs_skip(pred, out@, cp);
                }
            },
            Some(c) => {
                if pred(c) {
                    let n = out.len();
                    if n > 0 {
                        proof {
                            lemma_runs_last_below(pred, out@, cp);
                        }
                    }
                    if n > 0 && (out[n - 1].1 + 1 == cp || (out[n - 1].1 == 0xD7FF && cp
                        == 0xE000)) {
                        let lo = out[n - 1].0;
                        proof {
                            lemma_runs_extend(pred, out@, cp);
                        }
                        out.set(n - 1, (lo, cp));
                    } else {
                        proof {
                            lemma_runs_push(pred, out@, cp);
                        }
                        out.push((cp, cp));
                    }
                } else {
                    proof {
                        lemma_runs_skip(pred, out@, cp);
                    }
                }
            },
        }
        cp += 1;
    }
    proof {
        lemma_runs_end(pred, out@);
    }
    out
}

/// Whether `cp` lies in the `k`-th run of `specials`.
pub open spec fn in_special(specials: Seq<(u32, u32, u8, u16)>, k: int, cp: u32) -> bool {
    specials[k].0 <= cp <= specials[k].1
}

/// Whether `specials` are the maximal runs, in order, of the scalar values
/// that the trie sends to the special cases, each run with the one answer
/// `(width, information)` that `lookup` gave for every value in it: every
/// value in a run is such a value and got the run's answer, every such
/// value is in a run, and two runs that touch differ in their answers.
pub open spec fn is_specials_of<L: Fn(char) -> (u8, u16)>(
    root: Seq<u8>,
    middle: Seq<[u8; 64]>,
    leaves: Seq<[u8; 32]>,
    lookup: L,
    specials: Seq<(u32, u32, u8, u16)>,
) -> bool {
    &&& forall|k: int| #![trigger specials[k]] 0 <= k < specials.len() ==> specials[k].0 <= specials[k].1
    &&& forall|k: int, cp: u32|
        0 <= k < specials.len() && #[trigger] in_special(specials, k, cp) ==> {
            &&& is_scalar(cp as int)
            &&& trie_value(root, middle, leaves, cp) == 3
            &&& call_ensures(lookup, (cp as char,), (specials[k].2, specials[k].3))
        }
    &&& forall|k: int|
        #![trigger specials[k]]
        0 <= k < specials.len() - 1 ==> {
            &&& specials[k].1 < specials[k + 1].0
            &&& specials[k].1 + 1 == specials[k + 1].0 ==> (specials[k].2, specials[k].3) != (
                specials[k + 1].2,
                specials[k + 1].3,
            )
        }
    &&& forall|cp: u32|
        is_scalar(cp as int) && #[trigger] trie_value(root, middle, leaves, cp) == 3 ==> exists|
            k: int,
        |
            0 <= k < specials.len() && #[trigger] in_special(specials, k, cp)
}

/// The code points the trie sends to the special cases, with what `lookup`
/// answers for each: `(lo, hi, width, information)`, maximal runs of equal
/// answers.
#[verifier::rlimit(40)]
pub fn specials<L: Fn(char) -> (u8, u16)>(
    root: &[u8; 256],
    middle: &[[u8; 64]],
    leaves: &[[u8; 32]],
    lookup: L,
) -> (out: Vec<(u32, u32, u8, u16)>)
    requires
        trie_total(root@, middle@, leaves@),
        forall|c: char| #[trigger] lookup.requires((c,)),
    ensures
        is_specials_of(root@, middle@, leaves@, lookup, out@),
{
    let mut out: Vec<(u32, u32, u8, u16)> = Vec::new();
    let mut cp: u32 = 0;
    while cp < SCALARS
        invariant
            cp <= SCALARS,
            trie_total(root@, middle@, leaves@),
            forall|c: char| #[trigger] lookup.requires((c,)),
            forall|k: int|
                #![trigger out@[k]]
                0 <= k < out@.len() ==> out@[k].0 <= out@[k].1 && out@[k].1 < cp,
            forall|k: int, q: u32|
                0 <= k < out@.len() && #[trigger] in_special(out@, k, q) ==> {
                    &&& is_scalar(q as int)
                    &&& trie_value(root@, middle@, leaves@, q) == 3
                    &&& call_ensures(lookup, (q as char,), (out@[k].2, out@[k].3))
                },
            forall|k: int|
                #![trigger out@[k]]
                0 <= k < out@.len() - 1 ==> {
                    &&& out@[k].1 < out@[k + 1].0
                    &&& out@[k].1 + 1 == out@[k + 1].0 ==> (out@[k].2, out@[k].3) != (
                        out@[k + 1].2,
                        out@[k + 1].3,
                    )
                },
            forall|q: u32|
                q < cp && is_scalar(q as int) && #[trigger] trie_value(root@, middle@, leaves@, q)
                    == 3 ==> exists|k: int| 0 <= k < out@.len() && #[trigger] in_special(out@, k, q),
        decreases SCALARS - cp,
    {
        let ghost old_out = out@;
        match char::from_u32(cp) {
            None => {},
            Some(c) => {
                assert(trie_defined(root@, middle@, leaves@, cp));
                if trie(root, middle, leaves, cp) == 3 {
                    let (w, info) = lookup(c);
                    let n = out.len();
                    if n > 0 {
                        assert(out@[n - 1].1 < cp);
                    }
                    let merge = n > 0 && out[n - 1].1 + 1 == cp && out[n - 1].2 == w && out[n
                        - 1].3 == info;
                    if merge {
                        let lo = out[n - 1].0;
                        out.set(n - 1, (lo, cp, w, info));
                        proof {
                            assert forall|k: int, q: u32|
                                0 <= k < out@.len() && #[trigger] in_special(
                                    out@,
                                    k,
                                    q,
                                ) implies {
                                &&& is_scalar(q as int)
                                &&& trie_value(root@, middle@, leaves@, q) == 3
                                &&& call_ensures(lookup, (q as char,), (out@[k].2, out@[k].3))
                            } by {
                                if q != cp {
                                    assert(in_special(old_out, k, q));
                                }
                            }
                            assert forall|q: u32|
                                q < cp + 1 && is_scalar(q as int) && #[trigger] trie_value(
                                    root@,
                                    middle@,
                                    leaves@,
                                    q,
                                ) == 3 implies exists|k: int|
                                0 <= k < out@.len() && #[trigger] in_special(out@, k, q) by {
                                if q < cp {
                                    let k = choose|k: int|
                                        0 <= k < old_out.len() && #[trigger] in_special(
                                            old_out,
                                            k,
                                            q,
                                        );
                                    assert(in_special(out@, k, q));
                                } else {
                                    assert(in_special(out@, n - 1, q));
                                }
                            }
                        }
                    } else {
                        out.push((cp, cp, w, info));
                        proof {
                            assert forall|k: int, q: u32|
                                0 <= k < out@.len() && #[trigger] in_special(
                                    out@,
                                    k,
                                    q,
                                ) implies {
                                &&& is_scalar(q as int)
                                &&& trie_value(root@, middle@, leaves@, q) == 3
                                &&& call_ensures(lookup, (q as char,), (out@[k].2, out@[k].3))
                            } by {
                                if k < n {
                                    assert(in_special(old_out, k, q));
                                }
                            }
                            assert forall|q: u32|
                                q < cp + 1 && is_scalar(q as int) && #[trigger] trie_value(
                                    root@,
                                    middle@,
                                    leaves@,
                                    q,
                                ) == 3 implies exists|k: int|
                                0 <= k < out@.len() && #[trigger] in_special(out@, k, q) by {
                                if q < cp {
                                    let k = choose|k: int|
                                        0 <= k < old_out.len() && #[trigger] in_special(
                                            old_out,
                                            k,
                                            q,
                                        );
                                    assert(in_special(out@, k, q));
                                } else {
                                    assert(in_special(out@, n as int, q));
                                }
                            }
                        }
                    }
                }
            },
        }
        cp += 1;
    }
    out
}


/// Whether `pred` answers each character one way: never both `true` and
/// `false` for the same character.
pub open spec fn answers_once<P: Fn(char) -> bool>(pred: P) -> bool {
    forall|c: char|
        !(#[trigger] call_ensures(pred, (c,), true) && call_ensures(pred, (c,), false))
}

/// Whether `lookup` gives each character one answer.
pub open spec fn looks_up_once<L: Fn(char) -> (u8, u16)>(lookup: L) -> bool {
    forall|c: char, a: (u8, u16), b: (u8, u16)|
        #[trigger] call_ensures(lookup, (c,), a) && #[trigger] call_ensures(lookup, (c,), b) ==> a
            == b
}

proof fn lemma_runs_sorted(r: Seq<(u32, u32)>, i: int, j: int)
    requires
        forall|k: int| #![trigger r[k]] 0 <= k < r.len() ==> r[k].0 <= r[k].1,
        forall|k: int| 0 <= k < r.len() - 1 ==> runs_apart(#[trigger] r[k], r[k + 1]),
        0 <= i < j < r.len(),
    ensures
        r[i].1 < r[j].0,
    decreases j - i,
{
    assert(runs_apart(r[j - 1], r[j]));
    if i < j - 1 {
        lemma_runs_sorted(r, i, j - 1);
        assert(r[j - 1].0 <= r[j - 1].1);
    }
}

/// A value in a run of `r1` that both run sequences answer for lies in a
/// run of `r2`.
proof fn lemma_runs_cover<P: Fn(char) -> bool>(pred: P, r1: Seq<(u32, u32)>, r2: Seq<(u32, u32)>, cp: u32) -> (j: int)
    requires
        is_runs_of(pred, r1),
        is_runs_of(pred, r2),
        answers_once(pred),
        is_scalar(cp as int),
        in_some_run(r1, cp),
    ensures
        0 <= j < r2.len(),
        in_run(r2, j, cp),
{
    assert(call_ensures(pred, (cp as char,), true));
    if !in_some_run(r2, cp) {
        assert(call_ensures(pred, (cp as char,), false));
        assert(false);
    }
    choose|j: int| 0 <= j < r2.len() && #[trigger] in_run(r2, j, cp)
}

proof fn lemma_same_start<P: Fn(char) -> bool>(pred: P, r1: Seq<(u32, u32)>, r2: Seq<(u32, u32)>, k: int)
    requires
        is_runs_of(pred, r1),
        is_runs_of(pred, r2),
        answers_once(pred),
        0 <= k < r1.len(),
        k < r2.len(),
        forall|j: int| 0 <= j < k ==> r1[j] == r2[j],
    ensures
        r2[k].0 <= r1[k].0,
{
    let x = r1[k].0;
    assert(is_scalar(r1[k].0 as int) && r1[k].0 <= r1[k].1);
    if x < r2[k].0 {
        assert(in_run(r1, k, x));
        let j = lemma_runs_cover(pred, r1, r2, x);
        if j < k {
            lemma_runs_sorted(r1, j, k);
            assert(r1[j] == r2[j]);
        } else if j > k {
            lemma_runs_sorted(r2, k, j);
            assert(r2[k].0 <= r2[k].1);
        }
    }
}

proof fn lemma_same_end<P: Fn(char) -> bool>(pred: P, r1: Seq<(u32, u32)>, r2: Seq<(u32, u32)>, k: int)
    requires
        is_runs_of(pred, r1),
        is_runs_of(pred, r2),
        answers_once(pred),
        0 <= k < r1.len(),
        k < r2.len(),
        r1[k].0 == r2[k].0,
        forall|j: int| 0 <= j < k ==> r1[j] == r2[j],
    ensures
        r2[k].1 <= r1[k].1,
{
    let e = r1[k].1;
    assert(is_scalar(r1[k].0 as int) && is_scalar(r1[k].1 as int) && r1[k].0 <= r1[k].1);
    assert(is_scalar(r2[k].0 as int) && is_scalar(r2[k].1 as int) && r2[k].0 <= r2[k].1);
    if e < r2[k].1 {
        let y: u32 = if e == 0xD7FF {
            0xE000
        } else {
            (e + 1) as u32
        };
        assert(is_scalar(y as int));
        assert(in_run(r2, k, y));
        let j = lemma_runs_cover(pred, r2, r1, y);
        if j < k {
            lemma_runs_sorted(r1, j, k);
        } else if j > k {
            assert(runs_apart(r1[k], r1[k + 1]));
            assert(is_scalar(r1[k + 1].0 as int));
            if j > k + 1 {
                lemma_runs_sorted(r1, k + 1, j);
                assert(r1[k + 1].0 <= r1[k + 1].1);
            }
        }
    }
}

/// The maximal runs of a predicate are one sequence: where `pred` answers
/// each character one way, two sequences of runs that both are its maximal
/// runs (see `is_runs_of`) are the same.
pub proof fn lemma_runs_unique<P: Fn(char) -> bool>(pred: P, r1: Seq<(u32, u32)>, r2: Seq<(u32, u32)>)
    requires
        answers_once(pred),
        is_runs_of(pred, r1),
        is_runs_of(pred, r2),
    ensures
        r1 == r2,
{
    let n = if r1.len() < r2.len() {
        r1.len()
    } else {
        r2.len()
    };
    lemma_runs_prefix(pred, r1, r2, n as int);
    if r1.len() < r2.len() {
        lemma_runs_same_len(pred, r1, r2);
    } else if r2.len() < r1.len() {
        lemma_runs_same_len(pred, r2, r1);
    }
    assert(r1 =~= r2);
}

proof fn lemma_runs_prefix<P: Fn(char) -> bool>(pred: P, r1: Seq<(u32, u32)>, r2: Seq<(u32, u32)>, n: int)
    requires
        answers_once(pred),
        is_runs_of(pred, r1),
        is_runs_of(pred, r2),
        0 <= n <= r1.len(),
        n <= r2.len(),
    ensures
        forall|j: int| 0 <= j < n ==> r1[j] == r2[j],
    decreases n,
{
    if n > 0 {
        let k = n - 1;
        lemma_runs_prefix(pred, r1, r2, k);
        lemma_same_start(pred, r1, r2, k);
        lemma_same_start(pred, r2, r1, k);
        lemma_same_end(pred, r1, r2, k);
        lemma_same_end(pred, r2, r1, k);
    }
}

proof fn lemma_runs_same_len<P: Fn(char) -> bool>(pred: P, r1: Seq<(u32, u32)>, r2: Seq<(u32, u32)>)
    requires
        answers_once(pred),
        is_runs_of(pred, r1),
        is_runs_of(pred, r2),
        r1.len() <= r2.len(),
        forall|j: int| 0 <= j < r1.len() ==> r1[j] == r2[j],
    ensures
        r1.len() == r2.len(),
{
    if r1.len() < r2.len() {
        let n = r1.len() as int;
        let x = r2[n].0;
        assert(is_scalar(r2[n].0 as int) && r2[n].0 <= r2[n].1);
        assert(in_run(r2, n, x));
        let j = lemma_runs_cover(pred, r2, r1, x);
        lemma_runs_sorted(r2, j, n);
        assert(r1[j] == r2[j]);
    }
}


proof fn lemma_specials_sorted(sp: Seq<(u32, u32, u8, u16)>, i: int, j: int)
    requires
        forall|k: int| #![trigger sp[k]] 0 <= k < sp.len() ==> sp[k].0 <= sp[k].1,
        forall|k: int| #![trigger sp[k]] 0 <= k < sp.len() - 1 ==> sp[k].1 < sp[k + 1].0,
        0 <= i < j < sp.len(),
    ensures
        sp[i].1 < sp[j].0,
    decreases j - i,
{
    assert(sp[j - 1].1 < sp[j].0);
    if i < j - 1 {
        lemma_specials_sorted(sp, i, j - 1);
        assert(sp[j - 1].0 <= sp[j - 1].1);
    }
}

/// A value in a special run of `s1` lies in a special run of `s2`.
proof fn lemma_specials_cover<L: Fn(char) -> (u8, u16)>(
    root: Seq<u8>,
    middle: Seq<[u8; 64]>,
    leaves: Seq<[u8; 32]>,
    lookup: L,
    s1: Seq<(u32, u32, u8, u16)>,
    s2: Seq<(u32, u32, u8, u16)>,
    i: int,
    cp: u32,
) -> (j: int)
    requires
        is_specials_of(root, middle, leaves, lookup, s1),
        is_specials_of(root, middle, leaves, lookup, s2),
        0 <= i < s1.len(),
        in_special(s1, i, cp),
    ensures
        0 <= j < s2.len(),
        in_special(s2, j, cp),
        call_ensures(lookup, (cp as char,), (s1[i].2, s1[i].3)),
        call_ensures(lookup, (cp as char,), (s2[j].2, s2[j].3)),
{
    assert(is_scalar(cp as int) && trie_value(root, middle, leaves, cp) == 3);
    let j = choose|j: int| 0 <= j < s2.len() && #[trigger] in_special(s2, j, cp);
    j
}

proof fn lemma_specials_step<L: Fn(char) -> (u8, u16)>(
    root: Seq<u8>,
    middle: Seq<[u8; 64]>,
    leaves: Seq<[u8; 32]>,
    lookup: L,
    s1: Seq<(u32, u32, u8, u16)>,
    s2: Seq<(u32, u32, u8, u16)>,
    k: int,
)
    requires
        looks_up_once(lookup),
        is_specials_of(root, middle, leaves, lookup, s1),
        is_specials_of(root, middle, leaves, lookup, s2),
        0 <= k < s1.len(),
        k < s2.len(),
        forall|j: int| 0 <= j < k ==> s1[j] == s2[j],
    ensures
        s2[k].0 <= s1[k].0,
        s1[k].0 == s2[k].0 ==> s2[k].1 <= s1[k].1 && s1[k].2 == s2[k].2 && s1[k].3 == s2[k].3,
{
    let x = s1[k].0;
    assert(s1[k].0 <= s1[k].1 && s2[k].0 <= s2[k].1);
    assert(in_special(s1, k, x));
    let j = lemma_specials_cover(root, middle, leaves, lookup, s1, s2, k, x);
    if x < s2[k].0 {
        if j < k {
            lemma_specials_sorted(s1, j, k);
            assert(s1[j] == s2[j]);
        } else if j > k {
            lemma_specials_sorted(s2, k, j);
        }
    }
    if x == s2[k].0 {
        assert(in_special(s2, k, x));
        lemma_specials_cover(root, middle, leaves, lookup, s2, s1, k, x);
        assert((s1[k].2, s1[k].3) == (s2[k].2, s2[k].3));
        let e = s1[k].1;
        if e < s2[k].1 {
            let y = (e + 1) as u32;
            assert(in_special(s2, k, y));
            let j1 = lemma_specials_cover(root, middle, leaves, lookup, s2, s1, k, y);
            if j1 < k {
                lemma_specials_sorted(s1, j1, k);
            } else if j1 > k + 1 {
                lemma_specials_sorted(s1, k + 1, j1);
                assert(s1[k + 1].0 <= s1[k + 1].1);
                assert(s1[k].1 < s1[k + 1].0);
            } else if j1 == k + 1 {
                assert(s1[k].1 < s1[k + 1].0);
                assert(s1[k].1 + 1 == s1[k + 1].0);
                assert((s1[k + 1].2, s1[k + 1].3) == (s2[k].2, s2[k].3));
            }
        }
    }
}

proof fn lemma_specials_prefix<L: Fn(char) -> (u8, u16)>(
    root: Seq<u8>,
    middle: Seq<[u8; 64]>,
    leaves: Seq<[u8; 32]>,
    lookup: L,
    s1: Seq<(u32, u32, u8, u16)>,
    s2: Seq<(u32, u32, u8, u16)>,
    n: int,
)
    requires
        looks_up_once(lookup),
        is_specials_of(root, middle, leaves, lookup, s1),
        is_specials_of(root, middle, leaves, lookup, s2),
        0 <= n <= s1.len(),
        n <= s2.len(),
    ensures
        forall|j: int| 0 <= j < n ==> s1[j] == s2[j],
    decreases n,
{
    if n > 0 {
        let k = n - 1;
        lemma_specials_prefix(root, middle, leaves, lookup, s1, s2, k);
        lemma_specials_step(root, middle, leaves, lookup, s1, s2, k);
        lemma_specials_step(root, middle, leaves, lookup, s2, s1, k);
    }
}

proof fn lemma_specials_same_len<L: Fn(char) -> (u8, u16)>(
    root: Seq<u8>,
    middle: Seq<[u8; 64]>,
    leaves: Seq<[u8; 32]>,
    lookup: L,
    s1: Seq<(u32, u32, u8, u16)>,
    s2: Seq<(u32, u32, u8, u16)>,
)
    requires
        is_specials_of(root, middle, leaves, lookup, s1),
        is_specials_of(root, middle, leaves, lookup, s2),
        s1.len() <= s2.len(),
        forall|j: int| 0 <= j < s1.len() ==> s1[j] == s2[j],
    ensures
        s1.len() == s2.len(),
{
    if s1.len() < s2.len() {
        let n = s1.len() as int;
        let x = s2[n].0;
        assert(s2[n].0 <= s2[n].1);
        assert(in_special(s2, n, x));
        let j = lemma_specials_cover(root, middle, leaves, lookup, s2, s1, n, x);
        lemma_specials_sorted(s2, j, n);
        assert(s1[j] == s2[j]);
    }
}

/// The special cases are one sequence: where `lookup` gives each character
/// one answer, two sequences that both are the maximal runs of the trie's
/// special cases with their answers (see `is_specials_of`) are the same.
pub proof fn lemma_specials_unique<L: Fn(char) -> (u8, u16)>(
    root: Seq<u8>,
    middle: Seq<[u8; 64]>,
    leaves: Seq<[u8; 32]>,
    lookup: L,
    s1: Seq<(u32, u32, u8, u16)>,
    s2: Seq<(u32, u32, u8, u16)>,
)
    requires
        looks_up_once(lookup),
        is_specials_of(root, middle, leaves, lookup, s1),
        is_specials_of(root, middle, leaves, lookup, s2),
    ensures
        s1 == s2,
{
    let n = if s1.len() < s2.len() {
        s1.len()
    } else {
        s2.len()
    };
    lemma_specials_prefix(root, middle, leaves, lookup, s1, s2, n as int);
    if s1.len() <= s2.len() {
        lemma_specials_same_len(root, middle, leaves, lookup, s1, s2);
    } else {
        lemma_specials_same_len(root, middle, leaves, lookup, s2, s1);
    }
    assert(s1 =~= s2);
}

} // verus!
