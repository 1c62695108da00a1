use vstd::prelude::*;
use vstd::set_lib::{lemma_int_range, lemma_len_subset, set_int_range};
use crate::index::BM25S;

verus! {

/// The sign bit of a binary64 bit pattern.
pub const SIGN_BIT: u64 = 0x8000_0000_0000_0000;

/// The exponent field of a binary64 bit pattern.
pub const EXPONENT_BITS: u64 = 0x7FF0_0000_0000_0000;

/// The fraction field of a binary64 bit pattern.
pub const FRACTION_BITS: u64 = 0x000F_FFFF_FFFF_FFFF;

/// The bit pattern is a NaN: all exponent bits set and a nonzero fraction.
pub open spec fn is_nan_bits(bits: u64) -> bool {
    bits & EXPONENT_BITS == EXPONENT_BITS && bits & FRACTION_BITS != 0
}

/// Ordering key of a score: greater key, greater score. Every NaN gets the
/// lowest key, so it ranks last; negative zero gets the key of positive zero;
/// otherwise the key follows the numeric order of binary64 values.
pub open spec fn key_of(bits: u64) -> u64 {
    if is_nan_bits(bits) {
        0
    } else if bits == SIGN_BIT {
        SIGN_BIT
    } else if bits & SIGN_BIT != 0 {
        !bits
    } else {
        bits | SIGN_BIT
    }
}

/// The magnitude bits (exponent and fraction) of a binary64 bit pattern.
pub open spec fn magnitude(bits: u64) -> u64 {
    bits & !SIGN_BIT
}

/// The value is below zero: sign bit set and a nonzero magnitude (negative
/// zero counts as zero).
pub open spec fn below_zero(bits: u64) -> bool {
    bits & SIGN_BIT != 0 && magnitude(bits) != 0
}

/// Numeric order of binary64 values, read from sign and magnitude: a value
/// below zero precedes every other, and a larger magnitude is larger above
/// zero and smaller below it.
pub open spec fn binary64_lt(a: u64, b: u64) -> bool {
    if below_zero(a) {
        !below_zero(b) || magnitude(b) < magnitude(a)
    } else {
        !below_zero(b) && magnitude(a) < magnitude(b)
    }
}

/// Numeric equality of binary64 values: same sign and magnitude, with both
/// zeros equal.
pub open spec fn binary64_eq(a: u64, b: u64) -> bool {
    below_zero(a) == below_zero(b) && magnitude(a) == magnitude(b)
}

/// `key_of` follows the numeric order of binary64 values: a smaller value has
/// a smaller key, equal values have equal keys, and NaN has a smaller key than
/// every other value.
pub proof fn key_of_follows_binary64_order(a: u64, b: u64)
    ensures
        !is_nan_bits(a) && !is_nan_bits(b) && binary64_lt(a, b) ==> key_of(a) < key_of(b),
        !is_nan_bits(a) && !is_nan_bits(b) && binary64_eq(a, b) ==> key_of(a) == key_of(b),
        is_nan_bits(a) && !is_nan_bits(b) ==> key_of(a) < key_of(b),
{
    lemma_key_bounds(a);
    lemma_key_bounds(b);
    if !is_nan_bits(a) && !is_nan_bits(b) {
        if below_zero(a) && below_zero(b) {
            assert(magnitude(b) < magnitude(a) ==> !a < !b) by (bit_vector)
                requires
                    a & 0x8000_0000_0000_0000u64 != 0,
                    b & 0x8000_0000_0000_0000u64 != 0,
            ;
            assert(magnitude(b) == magnitude(a) ==> a == b) by (bit_vector)
                requires
                    a & 0x8000_0000_0000_0000u64 != 0,
                    b & 0x8000_0000_0000_0000u64 != 0,
            ;
        } else if !below_zero(a) && !below_zero(b) {
            if magnitude(a) != 0 && magnitude(b) != 0 {
                assert(a & SIGN_BIT == 0 && b & SIGN_BIT == 0);
                assert(magnitude(a) < magnitude(b) ==> (a | 0x8000_0000_0000_0000u64) < (b | 0x8000_0000_0000_0000u64)) by (bit_vector)
                    requires
                        a & 0x8000_0000_0000_0000u64 == 0,
                        b & 0x8000_0000_0000_0000u64 == 0,
                ;
                assert(magnitude(a) == magnitude(b) ==> a == b) by (bit_vector)
                    requires
                        a & 0x8000_0000_0000_0000u64 == 0,
                        b & 0x8000_0000_0000_0000u64 == 0,
                ;
            }
        }
    }
}

/// Where each kind of bit pattern puts its key: NaN at zero, values below
/// zero under the sign bit, both zeros at the sign bit, values above zero over
/// it, ordered by magnitude.
proof fn lemma_key_bounds(x: u64)
    ensures
        is_nan_bits(x) ==> key_of(x) == 0,
        !is_nan_bits(x) && below_zero(x) ==> 0 < key_of(x) < SIGN_BIT,
        !is_nan_bits(x) && !below_zero(x) && magnitude(x) == 0 ==> key_of(x) == SIGN_BIT,
        !is_nan_bits(x) && !below_zero(x) && magnitude(x) != 0 ==> key_of(x) > SIGN_BIT && x & SIGN_BIT == 0,
{
    assert(x & 0x8000_0000_0000_0000u64 != 0 && x & !0x8000_0000_0000_0000u64 != 0
        && !(x & 0x7FF0_0000_0000_0000u64 == 0x7FF0_0000_0000_0000u64 && x & 0x000F_FFFF_FFFF_FFFFu64 != 0)
        ==> 0 < !x && !x < 0x8000_0000_0000_0000u64 && x != 0x8000_0000_0000_0000u64) by (bit_vector);
    assert(x & !0x8000_0000_0000_0000u64 == 0 ==> x == 0 || x == 0x8000_0000_0000_0000u64) by (bit_vector);
    assert(x & 0x8000_0000_0000_0000u64 == 0 && x & !0x8000_0000_0000_0000u64 != 0
        ==> (x | 0x8000_0000_0000_0000u64) > 0x8000_0000_0000_0000u64) by (bit_vector);
    assert(x == 0 ==> (x | 0x8000_0000_0000_0000u64) == 0x8000_0000_0000_0000u64 && x & 0x8000_0000_0000_0000u64 == 0
        && x & 0x7FF0_0000_0000_0000u64 == 0) by (bit_vector);
    assert(x & 0x8000_0000_0000_0000u64 == 0 ==> x != 0x8000_0000_0000_0000u64) by (bit_vector);
    assert(x & 0x8000_0000_0000_0000u64 == 0 || x & !0x8000_0000_0000_0000u64 == 0 || below_zero(x));
}

/// `a` comes before `b` in a ranking: a higher score key, or an equal key and
/// a lower document identifier.
pub open spec fn ranks_before(a: (usize, u64), b: (usize, u64)) -> bool {
    key_of(a.1) > key_of(b.1) || (key_of(a.1) == key_of(b.1) && a.0 < b.0)
}

/// `r` is the ranking of the first `k` documents of `scores`: it has
/// `min(k, scores.len())` entries, each a document with its own score, in
/// strictly ranking order, and every document left out ranks after each entry.
pub open spec fn is_top_k(scores: Seq<u64>, k: nat, r: Seq<(usize, u64)>) -> bool {
    &&& r.len() == (if k < scores.len() { k } else { scores.len() })
    &&& forall|i: int| 0 <= i < r.len() ==> #[trigger] r[i].0 < scores.len() && r[i].1 == scores[r[i].0 as int]
    &&& forall|i: int, j: int| 0 <= i < j < r.len() ==> ranks_before(#[trigger] r[i], #[trigger] r[j])
    &&& forall|i: int, d: int|
        0 <= i < r.len() && 0 <= d < scores.len() && (forall|j: int| 0 <= j < r.len() ==> r[j].0 != d)
            ==> ranks_before(#[trigger] r[i], (d as usize, #[trigger] scores[d]))
}

/// Computes the ordering key of a score given as a binary64 bit pattern.
pub fn score_key(bits: u64) -> (r: u64)
    ensures
        r == key_of(bits),
{
    if bits & EXPONENT_BITS == EXPONENT_BITS && bits & FRACTION_BITS != 0 {
        0
    } else if bits == SIGN_BIT {
        SIGN_BIT
    } else if bits & SIGN_BIT != 0 {
        !bits
    } else {
        bits | SIGN_BIT
    }
}

/// A sequence shorter than `n` cannot hold every integer below `n`.
proof fn lemma_missing_below(s: Seq<usize>, n: usize)
    requires
        s.len() < n,
    ensures
        exists|d: usize| d < n && !#[trigger] s.contains(d),
{
    let ints = s.map_values(|x: usize| x as int);
    if forall|d: usize| d < n ==> #[trigger] s.contains(d) {
        assert(set_int_range(0, n as int).subset_of(ints.to_set())) by {
            assert forall|d: int| set_int_range(0, n as int).contains(d) implies ints.to_set().contains(d) by {
                assert(s.contains(d as usize));
                let j = choose|j: int| 0 <= j < s.len() && s[j] == d as usize;
                assert(ints[j] == d);
            }
        }
        lemma_int_range(0, n as int);
        ints.lemma_cardinality_of_set();
        lemma_len_subset(set_int_range(0, n as int), ints.to_set());
    }
}

impl BM25S {
    /// Ranks documents by score, highest first, and keeps the first `k`. Equal
    /// keys are ordered by ascending document identifier; NaN scores rank last.
    pub fn top_k(&self, scores: Vec<u64>, k: usize) -> (r: Vec<(usize, u64)>)
        ensures
            is_top_k(scores@, k as nat, r@),
    {
        let n = scores.len();
        let m = if k < n { k } else { n };
        let mut taken: Vec<bool> = Vec::new();
        while taken.len() < n
            invariant
                taken.len() <= n,
                forall|d: int| 0 <= d < taken.len() ==> !taken@[d],
            decreases n - taken.len(),
        {
            taken.push(false);
        }
        let mut out: Vec<(usize, u64)> = Vec::new();
        while out.len() < m
            invariant
                n == scores.len(),
                m == (if k < n { k } else { n }),
                taken.len() == n,
                out.len() <= m,
                forall|i: int| 0 <= i < out.len() ==> #[trigger] out@[i].0 < n && out@[i].1 == scores@[out@[i].0 as int],
                forall|i: int, j: int| 0 <= i < j < out.len() ==> ranks_before(#[trigger] out@[i], #[trigger] out@[j]),
                forall|d: int| 0 <= d < n ==> (#[trigger] taken@[d] <==> exists|i: int| 0 <= i < out.len() && out@[i].0 == d),
                forall|i: int, d: int|
                    0 <= i < out.len() && 0 <= d < n && !taken@[d]
                        ==> ranks_before(#[trigger] out@[i], (d as usize, #[trigger] scores@[d])),
            decreases m - out.len(),
        {
            let mut found = false;
            let mut best: usize = 0;
            let mut best_key: u64 = 0;
            let mut j: usize = 0;
            while j < n
                invariant
                    n == scores.len(),
                    taken.len() == n,
                    j <= n,
                    found ==> best < j && !taken@[best as int] && best_key == key_of(scores@[best as int]),
                    found ==> forall|e: int| 0 <= e < j && !taken@[e] && e != best
                        ==> ranks_before((best, scores@[best as int]), (e as usize, #[trigger] scores@[e])),
                    !found ==> forall|e: int| 0 <= e < j ==> #[trigger] taken@[e],
                decreases n - j,
            {
                if !taken[j] {
                    let key = score_key(scores[j]);
                    if !found || key > best_key {
                        found = true;
                        best = j;
                        best_key = key;
                    }
                }
                j = j + 1;
            }
            proof {
                if !found {
                    let docs = out@.map_values(|p: (usize, u64)| p.0);
                    lemma_missing_below(docs, n);
                    let d = choose|d: usize| d < n && !docs.contains(d);
                    assert(taken@[d as int]);
                    let i = choose|i: int| 0 <= i < out.len() && out@[i].0 == d;
                    assert(docs[i] == d);
                }
            }
            let ghost prev = out@;
            let ghost prev_taken = taken@;
            taken.set(best, true);
            out.push((best, scores[best]));
            proof {
                assert forall|d: int| 0 <= d < n implies (#[trigger] taken@[d] <==> exists|i: int|
                    0 <= i < out.len() && out@[i].0 == d) by {
                    if d != best {
                        if taken@[d] {
                            let i = choose|i: int| 0 <= i < prev.len() && prev[i].0 == d;
                            assert(out@[i] == prev[i]);
                        }
                    } else {
                        assert(out@[prev.len() as int].0 == d);
                    }
                }
                assert forall|i: int, d: int|
                    0 <= i < out.len() && 0 <= d < n && !taken@[d]
                    implies ranks_before(#[trigger] out@[i], (d as usize, #[trigger] scores@[d])) by {
                    if i < prev.len() {
                        assert(out@[i] == prev[i]);
                        assert(!prev_taken[d]);
                    }
                }
            }
        }
        out
    }
}

} // verus!
