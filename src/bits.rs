//! Bits stored eight to a byte, and counting them.
use vstd::prelude::*;

verus! {

/// Bit `k` (0 = least significant) of a byte.
pub open spec fn unit_bit(u: u8, k: u8) -> bool {
    (u >> k) & 1u8 == 1u8
}

/// Logical bit `i` of a byte sequence: bit `i % 8` of byte `i / 8`.
pub open spec fn bit_at(units: Seq<u8>, i: int) -> bool {
    unit_bit(units[i / 8], (i % 8) as u8)
}

/// The first `n` logical bits of a byte sequence.
pub open spec fn bits_of(units: Seq<u8>, n: nat) -> Seq<bool> {
    Seq::new(n, |i: int| bit_at(units, i))
}

/// Number of entries equal to `b` among the first `p` entries of `s`.
pub open spec fn occ(s: Seq<bool>, p: int, b: bool) -> nat
    decreases p,
{
    if p <= 0 {
        0
    } else {
        occ(s, p - 1, b) + if s[p - 1] == b {
            1nat
        } else {
            0nat
        }
    }
}

/// Number of set bits of `u` at offsets below `k`.
pub open spec fn pop_below(u: u8, k: int) -> nat
    decreases k,
{
    if k <= 0 {
        0
    } else {
        pop_below(u, k - 1) + if unit_bit(u, (k - 1) as u8) {
            1nat
        } else {
            0nat
        }
    }
}

/// Number of set bits in the first `q` bytes.
pub open spec fn ones_in_units(units: Seq<u8>, q: int) -> nat
    decreases q,
{
    if q <= 0 {
        0
    } else {
        ones_in_units(units, q - 1) + pop_below(units[q - 1], 8)
    }
}

/// Number of chunks of width `cw` that `n` bits take, the last one partial.
pub open spec fn chunks_for(n: nat, cw: nat) -> nat {
    if n % cw == 0 {
        n / cw
    } else {
        n / cw + 1
    }
}

pub proof fn lemma_pop_below_bound(u: u8, k: int)
    requires
        0 <= k,
    ensures
        pop_below(u, k) <= k,
    decreases k,
{
    if k > 0 {
        lemma_pop_below_bound(u, k - 1);
    }
}

/// The ones of the bytes in `[a, b)` number at most eight per byte.
pub proof fn lemma_ones_in_units_diff(units: Seq<u8>, a: int, b: int)
    requires
        0 <= a <= b,
    ensures
        ones_in_units(units, a) <= ones_in_units(units, b),
        ones_in_units(units, b) - ones_in_units(units, a) <= 8 * (b - a),
    decreases b - a,
{
    if a < b {
        lemma_ones_in_units_diff(units, a, b - 1);
        lemma_pop_below_bound(units[b - 1], 8);
    }
}

/// Counting either value over a prefix adds up to its length.
pub proof fn lemma_occ_split(s: Seq<bool>, p: int)
    requires
        0 <= p <= s.len(),
    ensures
        occ(s, p, true) + occ(s, p, false) == p,
    decreases p,
{
    if p > 0 {
        lemma_occ_split(s, p - 1);
    }
}

/// Counting over a longer prefix never gives less.
pub proof fn lemma_occ_monotone(s: Seq<bool>, p1: int, p2: int, b: bool)
    requires
        p1 <= p2,
    ensures
        occ(s, p1, b) <= occ(s, p2, b),
    decreases p2 - p1,
{
    if p1 < p2 {
        lemma_occ_monotone(s, p1, p2 - 1, b);
    }
}

/// When `[0, m)` holds at least `k >= 1` entries equal to `b`, the `k`-th of them lies in it.
pub proof fn lemma_kth_exists(s: Seq<bool>, m: int, k: nat, b: bool)
    requires
        1 <= k <= occ(s, m, b),
        m <= s.len(),
    ensures
        exists|p: int| 0 <= p < m && s[p] == b && #[trigger] occ(s, p + 1, b) == k,
    decreases m,
{
    if occ(s, m - 1, b) >= k {
        lemma_kth_exists(s, m - 1, k, b);
        let p = choose|p: int| 0 <= p < m - 1 && s[p] == b && #[trigger] occ(s, p + 1, b) == k;
        assert(0 <= p < m && s[p] == b && occ(s, p + 1, b) == k);
    } else {
        let p = m - 1;
        assert(s[p] == b && occ(s, p + 1, b) == k);
    }
}

/// At most one position holds the `k`-th entry equal to `b`.
pub proof fn lemma_kth_unique(s: Seq<bool>, k: nat, b: bool, p: int, q: int)
    requires
        0 <= p < s.len() && s[p] == b && occ(s, p + 1, b) == k,
        0 <= q < s.len() && s[q] == b && occ(s, q + 1, b) == k,
    ensures
        p == q,
{
    if p < q {
        lemma_occ_monotone(s, p + 1, q, b);
    } else if q < p {
        lemma_occ_monotone(s, q + 1, p, b);
    }
}

/// Bits of `u & mask`, where `mask == (1 << off) - 1`, are those of `u` below `off`.
proof fn lemma_mask_bits(u: u8, off: u8, mask: u8)
    requires
        off < 8,
        mask == (1u8 << off) - 1,
    ensures
        forall|j: u8| j < 8 ==> (#[trigger] unit_bit(u & mask, j) <==> (j < off && unit_bit(u, j))),
{
    assert forall|j: u8| j < 8 implies (#[trigger] unit_bit(u & mask, j) <==> (j < off && unit_bit(
        u,
        j,
    ))) by {
        assert(((u & mask) >> j) & 1u8 == 1u8 <==> (j < off && (u >> j) & 1u8 == 1u8))
            by (bit_vector)
            requires
                j < 8,
                off < 8,
                mask == (1u8 << off) - 1,
        ;
    }
}

proof fn lemma_pop_below_masked(u: u8, off: u8, mask: u8, k: int)
    requires
        off < 8,
        mask == (1u8 << off) - 1,
        0 <= k <= 8,
    ensures
        pop_below(u & mask, k) == pop_below(u, if k < off { k } else { off as int }),
    decreases k,
{
    lemma_mask_bits(u, off, mask);
    if k > 0 {
        lemma_pop_below_masked(u, off, mask, k - 1);
        assert(unit_bit(u & mask, (k - 1) as u8) <==> ((k - 1) < off && unit_bit(u, (k - 1) as u8)));
    }
}

/// The set bits of `u & mask`, where `mask == (1 << off) - 1`, number those of `u` below `off`.
pub proof fn lemma_masked_count(u: u8, off: u8, mask: u8)
    requires
        off < 8,
        mask == (1u8 << off) - 1,
    ensures
        pop_below(u & mask, 8) == pop_below(u, off as int),
{
    lemma_pop_below_masked(u, off, mask, 8);
}

/// The ones before logical bit `p` are those of the whole bytes before it and
/// those below its offset in its own byte.
pub proof fn lemma_occ_units(units: Seq<u8>, n: nat, p: int)
    requires
        0 <= p <= n,
        n <= 8 * units.len(),
    ensures
        occ(bits_of(units, n), p, true) == ones_in_units(units, p / 8) + pop_below(
            units[p / 8],
            p % 8,
        ),
    decreases p,
{
    if p > 0 {
        lemma_occ_units(units, n, p - 1);
        let q = (p - 1) / 8;
        let r = (p - 1) % 8;
        assert(bits_of(units, n)[p - 1] == unit_bit(units[q], r as u8));
        if r < 7 {
            assert(p / 8 == q && p % 8 == r + 1);
        } else {
            assert(p / 8 == q + 1 && p % 8 == 0);
        }
    }
}

/// Number of set bits in a byte.
pub fn popcount(u: u8) -> (r: u8)
    ensures
        r == pop_below(u, 8),
{
    let mut c: u8 = 0;
    let mut k: u8 = 0;
    while k < 8
        invariant
            k <= 8,
            c == pop_below(u, k as int),
            c <= k,
        decreases 8 - k,
    {
        if (u >> k) & 1u8 == 1u8 {
            c = c + 1;
        }
        k = k + 1;
    }
    c
}

} // verus!
