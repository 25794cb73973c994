//! Sorting with duplicates removed: strings in the order of their UTF-8
//! bytes (the order of `str`), and numbers.

use vstd::prelude::*;
use vstd::utf8::encode_utf8;

verus! {

/// Whether `a` comes before `b` in lexicographic order of bytes, a proper
/// prefix coming first.
pub open spec fn lex_lt(a: Seq<u8>, b: Seq<u8>) -> bool
    decreases a.len(),
{
    if a.len() == 0 {
        b.len() > 0
    } else if b.len() == 0 {
        false
    } else if a[0] != b[0] {
        a[0] < b[0]
    } else {
        lex_lt(a.drop_first(), b.drop_first())
    }
}

/// Of two different byte strings, one comes first, and not both.
pub proof fn lemma_lex_total(a: Seq<u8>, b: Seq<u8>)
    ensures
        a != b ==> (lex_lt(a, b) || lex_lt(b, a)),
        !(lex_lt(a, b) && lex_lt(b, a)),
    decreases a.len(),
{
    if a.len() > 0 && b.len() > 0 && a[0] == b[0] {
        lemma_lex_total(a.drop_first(), b.drop_first());
        if a != b {
            assert(a.drop_first() != b.drop_first()) by {
                if a.drop_first() == b.drop_first() {
                    assert(a =~= seq![a[0]] + a.drop_first());
                    assert(b =~= seq![b[0]] + b.drop_first());
                }
            }
        }
    } else if a.len() == 0 && b.len() == 0 {
        assert(a =~= b);
    }
}

/// `lex_lt` is transitive.
pub proof fn lemma_lex_transitive(a: Seq<u8>, b: Seq<u8>, c: Seq<u8>)
    requires
        lex_lt(a, b),
        lex_lt(b, c),
    ensures
        lex_lt(a, c),
    decreases a.len(),
{
    if a.len() > 0 && b.len() > 0 && c.len() > 0 && a[0] == b[0] && b[0] == c[0] {
        lemma_lex_transitive(a.drop_first(), b.drop_first(), c.drop_first());
    }
}

/// `-1`, `0` or `1` as `a` comes before, is equal to, or comes after `b`.
pub fn compare_bytes(a: &[u8], b: &[u8]) -> (r: i8)
    ensures
        r == -1 <==> lex_lt(a@, b@),
        r == 0 <==> a@ == b@,
        r == 1 <==> lex_lt(b@, a@),
        -1 <= r <= 1,
{
    let mut i: usize = 0;
    assert(a@.skip(0) =~= a@);
    assert(b@.skip(0) =~= b@);
    while i < a.len() && i < b.len()
        invariant
            i <= a@.len(),
            i <= b@.len(),
            a@.take(i as int) == b@.take(i as int),
            lex_lt(a@, b@) == lex_lt(a@.skip(i as int), b@.skip(i as int)),
            lex_lt(b@, a@) == lex_lt(b@.skip(i as int), a@.skip(i as int)),
        decreases a@.len() - i,
    {
        if a[i] != b[i] {
            proof {
                lemma_lex_total(a@, b@);
            }
            if a[i] < b[i] {
                return -1;
            } else {
                return 1;
            }
        }
        assert(a@.skip(i as int).drop_first() =~= a@.skip(i as int + 1));
        assert(b@.skip(i as int).drop_first() =~= b@.skip(i as int + 1));
        assert(a@.take(i as int + 1) =~= a@.take(i as int).push(a@[i as int]));
        assert(b@.take(i as int + 1) =~= b@.take(i as int).push(b@[i as int]));
        i += 1;
    }
    proof {
        lemma_lex_total(a@, b@);
    }
    if a.len() == b.len() {
        assert(a@ =~= a@.take(i as int));
        assert(b@ =~= b@.take(i as int));
        0
    } else if a.len() < b.len() {
        -1
    } else {
        1
    }
}

/// Whether `v` is in strictly increasing order of the bytes of its strings.
pub open spec fn strictly_sorted(v: Seq<String>) -> bool {
    forall|i: int, j: int|
        0 <= i < j < v.len() ==> lex_lt(encode_utf8(#[trigger] v[i]@), encode_utf8(#[trigger] v[j]@))
}

/// Whether the characters `x` are those of some string of `b`.
pub open spec fn holds_string(b: Seq<String>, x: Seq<char>) -> bool {
    exists|j: int| 0 <= j < b.len() && #[trigger] b[j]@ == x
}

/// Whether every string of `a` is, by its characters, one of `b`.
pub open spec fn covered(a: Seq<String>, b: Seq<String>) -> bool {
    forall|i: int| 0 <= i < a.len() ==> holds_string(b, #[trigger] a[i]@)
}

/// `strings` sorted in the order of `str`, with each string kept once: the
/// result is in strictly increasing order and holds the same strings.
pub fn sort_dedup(strings: Vec<String>) -> (out: Vec<String>)
    ensures
        strictly_sorted(out@),
        covered(strings@, out@),
        covered(out@, strings@),
{
    let mut out: Vec<String> = Vec::new();
    let mut k: usize = 0;
    while k < strings.len()
        invariant
            k <= strings@.len(),
            strictly_sorted(out@),
            forall|i: int| 0 <= i < k ==> holds_string(out@, #[trigger] strings@[i]@),
            covered(out@, strings@),
        decreases strings@.len() - k,
    {
        let s = strings[k].clone();
        let ghost sv = strings@[k as int]@;
        assert(s@ == sv);
        let sb = s.as_str().as_bytes();
        let mut lo: usize = 0;
        let mut hi: usize = out.len();
        let mut found = false;
        while lo < hi
            invariant_except_break
                0 <= lo <= hi <= out@.len(),
                !found,
                forall|i: int| 0 <= i < lo ==> lex_lt(encode_utf8(#[trigger] out@[i]@), sb@),
                forall|i: int| hi <= i < out@.len() ==> lex_lt(sb@, encode_utf8(#[trigger] out@[i]@)),
            invariant
                sb@ == encode_utf8(sv),
                strictly_sorted(out@),
            ensures
                found ==> lo < out@.len() && out@[lo as int]@ == sv,
                !found ==> {
                    &&& lo <= out@.len()
                    &&& forall|i: int| 0 <= i < lo ==> lex_lt(encode_utf8(#[trigger] out@[i]@), sb@)
                    &&& forall|i: int|
                        lo <= i < out@.len() ==> lex_lt(sb@, encode_utf8(#[trigger] out@[i]@))
                },
            decreases hi - lo,
        {
            let mid = lo + (hi - lo) / 2;
            let r = compare_bytes(out[mid].as_str().as_bytes(), sb);
            if r == 0 {
                proof {
                    vstd::utf8::encode_utf8_decode_utf8(out@[mid as int]@);
                    vstd::utf8::encode_utf8_decode_utf8(sv);
                }
                found = true;
                lo = mid;
                assert(out@[mid as int]@ == sv);
                break;
            } else if r < 0 {
                proof {
                    assert forall|i: int| 0 <= i < mid + 1 implies lex_lt(
                        encode_utf8(#[trigger] out@[i]@),
                        sb@,
                    ) by {
                        if i < mid {
                            lemma_lex_transitive(
                                encode_utf8(out@[i]@),
                                encode_utf8(out@[mid as int]@),
                                sb@,
                            );
                        }
                    }
                }
                lo = mid + 1;
            } else {
                proof {
                    assert forall|i: int| mid <= i < out@.len() implies lex_lt(
                        sb@,
                        encode_utf8(#[trigger] out@[i]@),
                    ) by {
                        if i > mid {
                            lemma_lex_transitive(
                                sb@,
                                encode_utf8(out@[mid as int]@),
                                encode_utf8(out@[i]@),
                            );
                        }
                    }
                }
                hi = mid;
            }
        }
        let ghost old_out = out@;
        if !found {
            out.insert(lo, s);
            proof {
                assert forall|i: int, j: int| 0 <= i < j < out@.len() implies lex_lt(
                    encode_utf8(#[trigger] out@[i]@),
                    encode_utf8(#[trigger] out@[j]@),
                ) by {
                    if i < lo && j > lo {
                        assert(out@[i] == old_out[i]);
                        assert(out@[j] == old_out[j - 1]);
                    } else if i < lo && j == lo {
                    } else if i == lo {
                        assert(out@[j] == old_out[j - 1]);
                    } else if i < lo {
                        assert(out@[i] == old_out[i]);
                        assert(out@[j] == old_out[j]);
                    } else {
                        assert(out@[i] == old_out[i - 1]);
                        assert(out@[j] == old_out[j - 1]);
                    }
                }
                assert forall|i: int| 0 <= i < k + 1 implies holds_string(
                    out@,
                    #[trigger] strings@[i]@,
                ) by {
                    if i < k {
                        assert(holds_string(old_out, strings@[i]@));
                        let j = choose|j: int| 0 <= j < old_out.len() && #[trigger] old_out[j]@ == strings@[i]@;
                        if j < lo {
                            assert(out@[j] == old_out[j]);
                            assert(out@[j]@ == strings@[i]@);
                        } else {
                            assert(out@[j + 1] == old_out[j]);
                            assert(out@[j + 1]@ == strings@[i]@);
                        }
                    } else {
                        assert(out@[lo as int]@ == strings@[i]@);
                    }
                }
                assert forall|j: int| 0 <= j < out@.len() implies holds_string(
                    strings@,
                    #[trigger] out@[j]@,
                ) by {
                    if j < lo {
                        assert(out@[j] == old_out[j]);
                        assert(holds_string(strings@, old_out[j]@));
                    } else if j == lo {
                        assert(strings@[k as int]@ == out@[j]@);
                    } else {
                        assert(out@[j] == old_out[j - 1]);
                        assert(holds_string(strings@, old_out[j - 1]@));
                    }
                }
            }
        } else {
            proof {
                assert forall|i: int| 0 <= i < k + 1 implies holds_string(
                    out@,
                    #[trigger] strings@[i]@,
                ) by {
                    if i == k {
                        assert(out@[lo as int]@ == strings@[i]@);
                    }
                }
            }
        }
        k += 1;
    }
    out
}


/// `v` sorted, with each number kept once: the result is strictly
/// increasing and holds the same numbers.
pub fn sort_dedup_u32(v: &Vec<u32>) -> (out: Vec<u32>)
    ensures
        forall|i: int, j: int| 0 <= i < j < out@.len() ==> #[trigger] out@[i] < #[trigger] out@[j],
        forall|i: int| 0 <= i < v@.len() ==> out@.contains(#[trigger] v@[i]),
        forall|j: int| 0 <= j < out@.len() ==> v@.contains(#[trigger] out@[j]),
{
    let mut out: Vec<u32> = Vec::new();
    let mut k: usize = 0;
    while k < v.len()
        invariant
            k <= v@.len(),
            forall|i: int, j: int| 0 <= i < j < out@.len() ==> #[trigger] out@[i] < #[trigger] out@[j],
            forall|i: int| 0 <= i < k ==> out@.contains(#[trigger] v@[i]),
            forall|j: int| 0 <= j < out@.len() ==> v@.contains(#[trigger] out@[j]),
        decreases v@.len() - k,
    {
        let x = v[k];
        let mut lo: usize = 0;
        let mut hi: usize = out.len();
        let mut found = false;
        while lo < hi
            invariant_except_break
                0 <= lo <= hi <= out@.len(),
                !found,
                forall|i: int| 0 <= i < lo ==> #[trigger] out@[i] < x,
                forall|i: int| hi <= i < out@.len() ==> x < #[trigger] out@[i],
            invariant
                forall|i: int, j: int|
                    0 <= i < j < out@.len() ==> #[trigger] out@[i] < #[trigger] out@[j],
            ensures
                found ==> lo < out@.len() && out@[lo as int] == x,
                !found ==> {
                    &&& lo <= out@.len()
                    &&& forall|i: int| 0 <= i < lo ==> #[trigger] out@[i] < x
                    &&& forall|i: int| lo <= i < out@.len() ==> x < #[trigger] out@[i]
                },
            decreases hi - lo,
        {
            let mid = lo + (hi - lo) / 2;
            if out[mid] == x {
                found = true;
                lo = mid;
                break;
            } else if out[mid] < x {
                lo = mid + 1;
            } else {
                hi = mid;
            }
        }
        let ghost old_out = out@;
        if !found {
            out.insert(lo, x);
            proof {
                assert forall|i: int, j: int| 0 <= i < j < out@.len() implies #[trigger] out@[i]
                    < #[trigger] out@[j] by {
                    if i < lo && j > lo {
                        assert(out@[i] == old_out[i]);
                        assert(out@[j] == old_out[j - 1]);
                    } else if i < lo && j == lo {
                        assert(out@[i] == old_out[i]);
                    } else if i == lo {
                        assert(out@[j] == old_out[j - 1]);
                    } else if i < lo {
                        assert(out@[i] == old_out[i]);
                        assert(out@[j] == old_out[j]);
                    } else {
                        assert(out@[i] == old_out[i - 1]);
                        assert(out@[j] == old_out[j - 1]);
                    }
                }
                assert forall|i: int| 0 <= i < k + 1 implies out@.contains(#[trigger] v@[i]) by {
                    if i < k {
                        assert(old_out.contains(v@[i]));
                        let j = choose|j: int| 0 <= j < old_out.len() && old_out[j] == v@[i];
                        if j < lo {
                            assert(out@[j] == old_out[j]);
                        } else {
                            assert(out@[j + 1] == old_out[j]);
                        }
                    } else {
                        assert(out@[lo as int] == v@[i]);
                    }
                }
                assert forall|j: int| 0 <= j < out@.len() implies v@.contains(#[trigger] out@[j]) by {
                    if j < lo {
                        assert(out@[j] == old_out[j]);
                        assert(v@.contains(old_out[j]));
                    } else if j == lo {
                        assert(v@[k as int] == out@[j]);
                    } else {
                        assert(out@[j] == old_out[j - 1]);
                        assert(v@.contains(old_out[j - 1]));
                    }
                }
            }
        } else {
            proof {
                assert forall|i: int| 0 <= i < k + 1 implies out@.contains(#[trigger] v@[i]) by {
                    if i == k {
                        assert(out@[lo as int] == v@[i]);
                    }
                }
            }
        }
        k += 1;
    }
    out
}

} // verus!
