use crate::bits::{lemma_occ_monotone, lemma_occ_split, occ};
use crate::fid::fully_indexable_dictionary::FullyIndexableDictionary;
use crate::wv::fid_builder::FIDBuilder;
use crate::wv::fid_size::FIDSize;
use vstd::prelude::*;

verus! {

/// Bit `d` of `v`.
pub open spec fn bit_of(v: usize, d: usize) -> bool {
    (v >> d) & 1usize == 1usize
}

/// Values whose bit `d` is `b`.
pub open spec fn has_bit(d: usize, b: bool) -> spec_fn(usize) -> bool {
    |v: usize| bit_of(v, d) == b
}

/// Values that agree with `x` on every bit from `d` up.
pub open spec fn agrees_from(x: usize, d: usize) -> spec_fn(usize) -> bool {
    |v: usize| v >> d == x >> d
}

/// `v` is expressible in `depth` bits.
pub open spec fn fits(v: usize, depth: usize) -> bool {
    v >> depth == 0
}

/// Bit `d` of every entry of `t`.
pub open spec fn bit_plane(t: Seq<usize>, d: usize) -> Seq<bool> {
    Seq::new(t.len(), |i: int| bit_of(t[i], d))
}

/// The entries of `t` whose bit `d` is zero, then those whose bit `d` is one,
/// each in their order in `t`.
pub open spec fn stable_partition(t: Seq<usize>, d: usize) -> Seq<usize> {
    t.filter(has_bit(d, false)) + t.filter(has_bit(d, true))
}

/// Where position `p` of `t` lands in `stable_partition(t, d)`, following the
/// entries whose bit `d` is `b`.
pub open spec fn descend(t: Seq<usize>, d: usize, p: int, b: bool) -> int {
    occ(bit_plane(t, d), p, b) + if b {
        occ(bit_plane(t, d), t.len() as int, false) as int
    } else {
        0
    }
}

/// Values equal to `x`.
pub open spec fn equals(x: usize) -> spec_fn(usize) -> bool {
    |v: usize| v == x
}

/// Number of entries of `s` equal to `x`.
pub open spec fn count_of(s: Seq<usize>, x: usize) -> nat {
    s.filter(equals(x)).len()
}

/// Where position `p` of `levels[depth]` lands in `levels[d]`, descending by
/// the bits of `x` from `depth - 1` down to `d`.
pub open spec fn descend_from(levels: Seq<Seq<usize>>, x: usize, p: int, d: int, depth: int) -> int
    decreases depth - d,
{
    if d >= depth {
        p
    } else {
        descend(
            levels[d + 1],
            d as usize,
            descend_from(levels, x, p, d + 1, depth),
            bit_of(x, d as usize),
        )
    }
}

/// `levels[depth]` is `vals`, and each `levels[d]` is `levels[d + 1]`
/// stably partitioned by bit `d`.
pub open spec fn levels_of(levels: Seq<Seq<usize>>, vals: Seq<usize>, depth: usize) -> bool {
    &&& levels.len() == depth + 1
    &&& levels[depth as int] == vals
    &&& forall|d: int|
        0 <= d < depth ==> #[trigger] levels[d] == stable_partition(levels[d + 1], d as usize)
}

/// The entries of the first `p` of `t` whose bit `d` is `b` number as the
/// bits equal to `b` in the first `p` of its bit plane.
proof fn lemma_filter_take_len(t: Seq<usize>, d: usize, b: bool, p: int)
    requires
        0 <= p <= t.len(),
    ensures
        t.take(p).filter(has_bit(d, b)).len() == occ(bit_plane(t, d), p, b),
    decreases p,
{
    reveal(Seq::filter);
    if p > 0 {
        lemma_filter_take_len(t, d, b, p - 1);
        assert(t.take(p).drop_last() =~= t.take(p - 1));
    }
}

/// A stable partition keeps the length.
pub proof fn lemma_partition_len(t: Seq<usize>, d: usize)
    ensures
        stable_partition(t, d).len() == t.len(),
        t.filter(has_bit(d, false)).len() == occ(bit_plane(t, d), t.len() as int, false),
{
    lemma_filter_take_len(t, d, false, t.len() as int);
    lemma_filter_take_len(t, d, true, t.len() as int);
    assert(t.take(t.len() as int) =~= t);
    lemma_occ_split(bit_plane(t, d), t.len() as int);
}

/// Descending both ends of `[a, e)` of `t` by bit value `b` gives the range of
/// `stable_partition(t, d)` that holds exactly the entries of `t[a..e]` whose bit
/// `d` is `b`, in order.
pub proof fn lemma_partition_range(t: Seq<usize>, d: usize, a: int, e: int, b: bool)
    requires
        0 <= a <= e <= t.len(),
    ensures
        0 <= descend(t, d, a, b) <= descend(t, d, e, b) <= t.len(),
        stable_partition(t, d).subrange(descend(t, d, a, b), descend(t, d, e, b)) == t.subrange(
            a,
            e,
        ).filter(has_bit(d, b)),
{
    let f = has_bit(d, b);
    let c = bit_plane(t, d);
    let n = t.len() as int;
    lemma_partition_len(t, d);
    lemma_filter_take_len(t, d, b, a);
    lemma_filter_take_len(t, d, b, e);
    lemma_filter_take_len(t, d, b, n);
    lemma_occ_monotone(c, a, e, b);
    lemma_occ_monotone(c, e, n, b);
    lemma_occ_split(c, n);
    let x = t.take(a);
    let y = t.subrange(a, e);
    let w = t.skip(e);
    assert(t.take(e) =~= x + y);
    assert(t =~= (x + y) + w);
    assert(t.take(n) =~= t);
    Seq::filter_distributes_over_add(x, y, f);
    Seq::filter_distributes_over_add(x + y, w, f);
    let ft = t.filter(f);
    assert(ft == (x.filter(f) + y.filter(f)) + w.filter(f));
    assert(ft.subrange(occ(c, a, b) as int, occ(c, e, b) as int) =~= y.filter(f));
    assert(stable_partition(t, d).subrange(descend(t, d, a, b), descend(t, d, e, b))
        =~= ft.subrange(occ(c, a, b) as int, occ(c, e, b) as int));
}

proof fn lemma_agrees_step(x: usize, d: usize, v: usize)
    requires
        d < 64,
    ensures
        (agrees_from(x, (d + 1) as usize)(v) && has_bit(d, bit_of(x, d))(v)) <==> agrees_from(x, d)(
            v,
        ),
{
    assert(((v >> ((d + 1) as usize) == x >> ((d + 1) as usize)) && (((v >> d) & 1usize == 1usize)
        == ((x >> d) & 1usize == 1usize))) <==> (v >> d == x >> d)) by (bit_vector)
        requires
            d < 64,
    ;
}

/// Keeping the entries that agree with `x` from bit `d + 1` up, and then those
/// whose bit `d` is that of `x`, keeps those that agree with `x` from bit `d` up.
pub proof fn lemma_filter_refine(s: Seq<usize>, x: usize, d: usize)
    requires
        d < 64,
    ensures
        s.filter(agrees_from(x, (d + 1) as usize)).filter(has_bit(d, bit_of(x, d))) == s.filter(
            agrees_from(x, d),
        ),
    decreases s.len(),
{
    reveal(Seq::filter);
    if s.len() > 0 {
        lemma_filter_refine(s.drop_last(), x, d);
        lemma_agrees_step(x, d, s.last());
        let f = agrees_from(x, (d + 1) as usize);
        let g = has_bit(d, bit_of(x, d));
        let sub = s.drop_last().filter(f);
        if f(s.last()) {
            assert(sub.push(s.last()).drop_last() =~= sub);
        }
    }
}

/// Filtering by a predicate that every entry meets keeps the sequence.
proof fn lemma_filter_all(s: Seq<usize>, f: spec_fn(usize) -> bool)
    requires
        forall|i: int| 0 <= i < s.len() ==> f(#[trigger] s[i]),
    ensures
        s.filter(f) == s,
    decreases s.len(),
{
    reveal(Seq::filter);
    if s.len() > 0 {
        lemma_filter_all(s.drop_last(), f);
        assert(s.drop_last().push(s.last()) =~= s);
    }
}

/// Descending both ends of `[s, e)` through levels `depth - 1` down to `d` by
/// the bits of `x` gives the range of `levels[d]` that holds exactly the entries
/// of `vals[s..e]` agreeing with `x` from bit `d` up, in their order.
pub proof fn lemma_descend_range(
    levels: Seq<Seq<usize>>,
    vals: Seq<usize>,
    depth: usize,
    x: usize,
    s: int,
    e: int,
    d: int,
)
    requires
        depth <= 64,
        levels_of(levels, vals, depth),
        forall|k: int| 0 <= k <= depth ==> (#[trigger] levels[k]).len() == vals.len(),
        forall|i: int| 0 <= i < vals.len() ==> fits(#[trigger] vals[i], depth),
        fits(x, depth),
        0 <= s <= e <= vals.len(),
        0 <= d <= depth,
    ensures
        0 <= descend_from(levels, x, s, d, depth as int) <= descend_from(
            levels,
            x,
            e,
            d,
            depth as int,
        ) <= vals.len(),
        levels[d].subrange(
            descend_from(levels, x, s, d, depth as int),
            descend_from(levels, x, e, d, depth as int),
        ) == vals.subrange(s, e).filter(agrees_from(x, d as usize)),
    decreases depth - d,
{
    if d >= depth {
        let w = vals.subrange(s, e);
        assert forall|i: int| 0 <= i < w.len() implies agrees_from(x, d as usize)(#[trigger] w[i]) by {
            assert(fits(vals[s + i], depth));
        }
        lemma_filter_all(w, agrees_from(x, d as usize));
    } else {
        lemma_descend_range(levels, vals, depth, x, s, e, d + 1);
        let t = levels[d + 1];
        let a = descend_from(levels, x, s, d + 1, depth as int);
        let b = descend_from(levels, x, e, d + 1, depth as int);
        assert(levels[d] == stable_partition(levels[d + 1], d as usize));
        lemma_partition_range(t, d as usize, a, b, bit_of(x, d as usize));
        lemma_filter_refine(vals.subrange(s, e), x, d as usize);
    }
}

/// Agreeing with `x` from bit 0 up is being `x`.
proof fn lemma_agrees_from_zero(x: usize)
    ensures
        agrees_from(x, 0) == equals(x),
{
    assert forall|v: usize| #[trigger] agrees_from(x, 0)(v) == equals(x)(v) by {
        assert((v >> 0usize == x >> 0usize) == (v == x)) by (bit_vector);
    }
    assert(agrees_from(x, 0) =~= equals(x));
}

/// `v` comes before `x` in the order that a descent from level `depth - 1`
/// down to level `d` leaves: compare bit `d` first, then bit `d + 1`, and so on
/// up to bit `depth - 1`, a zero bit coming first.
pub open spec fn ordered_before(v: usize, x: usize, d: int, depth: int) -> bool
    decreases depth - d,
{
    if d >= depth || d < 0 {
        false
    } else {
        (!bit_of(v, d as usize) && bit_of(x, d as usize)) || (bit_of(v, d as usize) == bit_of(
            x,
            d as usize,
        ) && ordered_before(v, x, d + 1, depth))
    }
}

/// Values that come before `x` in the order that levels `depth - 1` down to `d` leave.
pub open spec fn before(x: usize, d: int, depth: int) -> spec_fn(usize) -> bool {
    |v: usize| ordered_before(v, x, d, depth)
}

/// Number of entries of `s` that come before `x` once every level of a
/// matrix of `depth` bits has been applied.
pub open spec fn count_before(s: Seq<usize>, x: usize, depth: usize) -> nat {
    s.filter(before(x, 0, depth as int)).len()
}

spec fn both(f: spec_fn(usize) -> bool, g: spec_fn(usize) -> bool) -> spec_fn(usize) -> bool {
    |v: usize| f(v) && g(v)
}

proof fn lemma_filter_both(s: Seq<usize>, f: spec_fn(usize) -> bool, g: spec_fn(usize) -> bool)
    ensures
        s.filter(f).filter(g).len() == s.filter(both(f, g)).len(),
    decreases s.len(),
{
    reveal(Seq::filter);
    if s.len() > 0 {
        lemma_filter_both(s.drop_last(), f, g);
        let sub = s.drop_last().filter(f);
        assert(sub.push(s.last()).drop_last() =~= sub);
    }
}

proof fn lemma_filter_split(s: Seq<usize>, f: spec_fn(usize) -> bool, g: spec_fn(usize) -> bool)
    ensures
        s.filter(g).len() == s.filter(both(f, g)).len() + s.filter(
            both(|v: usize| !f(v), g),
        ).len(),
    decreases s.len(),
{
    reveal(Seq::filter);
    if s.len() > 0 {
        lemma_filter_split(s.drop_last(), f, g);
    }
}

proof fn lemma_filter_none(s: Seq<usize>, f: spec_fn(usize) -> bool)
    requires
        forall|v: usize| !#[trigger] f(v),
    ensures
        s.filter(f).len() == 0,
    decreases s.len(),
{
    reveal(Seq::filter);
    if s.len() > 0 {
        lemma_filter_none(s.drop_last(), f);
    }
}

/// Each level holds the same values as `vals`, and the first
/// `descend_from(.., 0, d, ..)` of `levels[d]` hold those that come before `x`.
proof fn lemma_descend_before(
    levels: Seq<Seq<usize>>,
    vals: Seq<usize>,
    depth: usize,
    x: usize,
    d: int,
)
    requires
        depth <= 64,
        levels_of(levels, vals, depth),
        forall|k: int| 0 <= k <= depth ==> (#[trigger] levels[k]).len() == vals.len(),
        forall|i: int| 0 <= i < vals.len() ==> fits(#[trigger] vals[i], depth),
        fits(x, depth),
        0 <= d <= depth,
    ensures
        forall|f: spec_fn(usize) -> bool| #[trigger] levels[d].filter(f).len() == vals.filter(f).len(),
        forall|f: spec_fn(usize) -> bool|
            #[trigger] levels[d].take(descend_from(levels, x, 0, d, depth as int)).filter(f).len()
                == vals.filter(both(before(x, d, depth as int), f)).len(),
    decreases depth - d,
{
    let p = descend_from(levels, x, 0, d, depth as int);
    if d >= depth {
        assert forall|f: spec_fn(usize) -> bool| #[trigger] levels[d].take(p).filter(f).len()
            == vals.filter(both(before(x, d, depth as int), f)).len() by {
            reveal(Seq::filter);
            assert(levels[d].take(p) =~= Seq::<usize>::empty());
            lemma_filter_none(vals, both(before(x, d, depth as int), f));
        }
    } else {
        lemma_descend_before(levels, vals, depth, x, d + 1);
        lemma_descend_range(levels, vals, depth, x, 0, 0, d + 1);
        let t = levels[d + 1];
        let u = levels[d];
        let q = descend_from(levels, x, 0, d + 1, depth as int);
        let b = bit_of(x, d as usize);
        let zero = has_bit(d as usize, false);
        let one = has_bit(d as usize, true);
        let nb = before(x, d + 1, depth as int);
        let cb = before(x, d, depth as int);
        assert(u == stable_partition(t, d as usize));
        lemma_partition_len(t, d as usize);
        lemma_partition_range(t, d as usize, 0, q, b);
        assert(t.subrange(0, q) == t.take(q));
        assert(one =~= (|v: usize| !zero(v)));
        assert forall|f: spec_fn(usize) -> bool| #[trigger] u.filter(f).len() == vals.filter(
            f,
        ).len() by {
            Seq::filter_distributes_over_add(t.filter(zero), t.filter(one), f);
            lemma_filter_both(t, zero, f);
            lemma_filter_both(t, one, f);
            lemma_filter_split(t, zero, f);
            assert(t.filter(f).len() == vals.filter(f).len());
        }
        assert forall|f: spec_fn(usize) -> bool| #[trigger] u.take(p).filter(f).len()
            == vals.filter(both(cb, f)).len() by {
            lemma_filter_both(t.take(q), if b { one } else { zero }, f);
            assert(t.take(q).filter(both(if b { one } else { zero }, f)).len() == vals.filter(
                both(nb, both(if b { one } else { zero }, f)),
            ).len());
            if b {
                let z = t.filter(zero).len() as int;
                assert(u.take(p) =~= t.filter(zero) + u.subrange(z, p));
                Seq::filter_distributes_over_add(t.filter(zero), u.subrange(z, p), f);
                lemma_filter_both(t, zero, f);
                assert(t.filter(both(zero, f)).len() == vals.filter(both(zero, f)).len());
                lemma_filter_split(vals, zero, both(cb, f));
                assert(both(zero, both(cb, f)) =~= both(zero, f));
                assert(both(|v: usize| !zero(v), both(cb, f)) =~= both(nb, both(one, f)));
            } else {
                assert(u.take(p) =~= u.subrange(0, p));
                assert(both(cb, f) =~= both(nb, both(zero, f)));
            }
        }
    }
}

/// Occurrences of `x` in a prefix grow with the prefix, by at most the
/// length added, and those in `[p1, p2)` make up the difference.
pub proof fn lemma_count_prefix(s: Seq<usize>, p1: int, p2: int, x: usize)
    requires
        0 <= p1 <= p2 <= s.len(),
    ensures
        count_of(s.subrange(0, p2), x) == count_of(s.subrange(0, p1), x) + count_of(
            s.subrange(p1, p2),
            x,
        ),
        count_of(s.subrange(p1, p2), x) <= p2 - p1,
{
    let a = s.subrange(0, p1);
    let w = s.subrange(p1, p2);
    assert(s.subrange(0, p2) =~= a + w);
    Seq::filter_distributes_over_add(a, w, equals(x));
    w.lemma_filter_len(equals(x));
}

/// An immutable sequence of `n` integers of `depth` bits, stored as one
/// bit-vector per bit plane, answering decode and range-frequency queries.
pub struct WaveletMatrix<S: FIDSize> {
    mat: Vec<FullyIndexableDictionary<S>>,
    spl: Vec<usize>,
    depth: usize,
    len: usize,
    levels: Ghost<Seq<Seq<usize>>>,
    _phantom: std::marker::PhantomData<S>,
}

impl<S: FIDSize> View for WaveletMatrix<S> {
    type V = Seq<usize>;

    /// The sequence of values, in the order they were given.
    closed spec fn view(&self) -> Seq<usize> {
        self.levels@[self.depth as int]
    }
}

impl<S: FIDSize> WaveletMatrix<S> {
    /// The number of bits per value.
    pub closed spec fn spec_depth(&self) -> usize {
        self.depth
    }

    /// Level `d` holds bit `d` of the values in the order left by the levels
    /// above it, and its split point counts the zeros there.
    pub closed spec fn wf(&self) -> bool {
        &&& self.depth <= usize::BITS
        &&& levels_of(self.levels@, self@, self.depth)
        &&& self.len == self@.len()
        &&& forall|k: int| 0 <= k <= self.depth ==> (#[trigger] self.levels@[k]).len() == self.len
        &&& forall|i: int| 0 <= i < self@.len() ==> fits(#[trigger] self@[i], self.depth)
        &&& self.mat@.len() == self.depth
        &&& self.spl@.len() == self.depth
        &&& forall|d: int|
            0 <= d < self.depth ==> {
                &&& (#[trigger] self.mat@[d]).wf()
                &&& self.mat@[d]@ == bit_plane(self.levels@[d + 1], d as usize)
                &&& self.spl@[d] == occ(self.mat@[d]@, self.len as int, false)
            }
    }

    /// Where position `pos` lands after descending every level by the bits of `x`.
    spec fn final_position(&self, pos: int, x: usize) -> int {
        descend_from(self.levels@, x, pos, 0, self.depth as int)
    }

    /// Builds the levels from bit `depth - 1` down to bit 0, each a stable
    /// partition of the order left by the one above, by the bit of its level.
    pub fn new(arr: &Vec<usize>, depth: usize) -> (r: Self)
        requires
            depth <= usize::BITS,
            arr@.len() + S::chunk_width() <= usize::MAX,
            forall|i: int| 0 <= i < arr@.len() ==> fits(#[trigger] arr@[i], depth),
        ensures
            r.wf(),
            r@ == arr@,
            r.spec_depth() == depth,
    {
        let n = arr.len();
        let mut idx: Vec<usize> = Vec::new();
        let mut i: usize = 0;
        while i < n
            invariant
                i <= n,
                n == arr@.len(),
                idx@.len() == i,
                forall|j: int| 0 <= j < i ==> #[trigger] idx@[j] == j,
            decreases n - i,
        {
            idx.push(i);
            i = i + 1;
        }
        let mut builders: Vec<FIDBuilder<S>> = Vec::new();
        let mut spl_rev: Vec<usize> = Vec::new();
        let ghost mut cur: Seq<usize> = arr@;
        let ghost mut lv: Seq<Seq<usize>> = seq![arr@];
        let mut d: usize = depth;
        while d > 0
            invariant
                d <= depth <= usize::BITS,
                n == arr@.len(),
                n + S::chunk_width() <= usize::MAX,
                idx@.len() == n,
                cur.len() == n,
                forall|j: int| 0 <= j < n ==> #[trigger] idx@[j] < n && cur[j] == arr@[idx@[j] as int],
                lv.len() == depth - d + 1,
                lv[0] == arr@,
                lv[depth - d] == cur,
                forall|k: int| 0 <= k <= depth - d ==> (#[trigger] lv[k]).len() == n,
                forall|k: int|
                    0 <= k < depth - d ==> #[trigger] lv[k + 1] == stable_partition(
                        lv[k],
                        (depth - 1 - k) as usize,
                    ),
                builders@.len() == depth - d,
                spl_rev@.len() == depth - d,
                forall|k: int|
                    0 <= k < depth - d ==> {
                        &&& (#[trigger] builders@[k]).wf()
                        &&& builders@[k].logical_len() == n
                        &&& builders@[k]@.take(n as int) == bit_plane(lv[k], (depth - 1 - k) as usize)
                        &&& spl_rev@[k] == occ(bit_plane(lv[k], (depth - 1 - k) as usize), n as int, false)
                    },
            decreases d,
        {
            d = d - 1;
            let mut li: Vec<usize> = Vec::new();
            let mut ri: Vec<usize> = Vec::new();
            let mut builder = FIDBuilder::<S>::new(n);
            let ghost zero = has_bit(d, false);
            let ghost one = has_bit(d, true);
            let mut i: usize = 0;
            while i < n
                invariant
                    d < usize::BITS,
                    n == arr@.len(),
                    i <= n,
                    idx@.len() == n,
                    cur.len() == n,
                    forall|j: int| 0 <= j < n ==> #[trigger] idx@[j] < n && cur[j] == arr@[idx@[j] as int],
                    zero == has_bit(d, false),
                    one == has_bit(d, true),
                    builder.wf(),
                    builder.logical_len() == n,
                    n <= builder@.len(),
                    forall|j: int| 0 <= j < i ==> #[trigger] builder@[j] == bit_of(cur[j], d),
                    forall|j: int| i <= j < builder@.len() ==> !#[trigger] builder@[j],
                    li@.len() == cur.take(i as int).filter(zero).len(),
                    forall|t: int|
                        0 <= t < li@.len() ==> #[trigger] li@[t] < n && arr@[li@[t] as int] == cur.take(
                            i as int,
                        ).filter(zero)[t],
                    ri@.len() == cur.take(i as int).filter(one).len(),
                    forall|t: int|
                        0 <= t < ri@.len() ==> #[trigger] ri@[t] < n && arr@[ri@[t] as int] == cur.take(
                            i as int,
                        ).filter(one)[t],
                decreases n - i,
            {
                let v = idx[i];
                let a = arr[v];
                let k: usize = (a >> d) & 1;
                proof {
                    assert(k == 0 || k == 1) by (bit_vector)
                        requires
                            k == (a >> d) & 1,
                    ;
                    assert(cur.take(i + 1) =~= cur.take(i as int).push(cur[i as int]));
                    cur.take(i as int).lemma_filter_push(cur[i as int], zero);
                    cur.take(i as int).lemma_filter_push(cur[i as int], one);
                }
                if k == 0 {
                    li.push(v);
                } else {
                    ri.push(v);
                    builder.set(i);
                }
                i = i + 1;
            }
            proof {
                assert(cur.take(n as int) =~= cur);
                lemma_partition_len(cur, d);
                assert(builder@.take(n as int) =~= bit_plane(cur, d));
            }
            spl_rev.push(li.len());
            builders.push(builder);
            let ghost lo = li@;
            li.append(&mut ri);
            idx = li;
            proof {
                let next = stable_partition(cur, d);
                assert forall|j: int| 0 <= j < n implies #[trigger] idx@[j] < n && next[j] == arr@[idx@[j] as int] by {
                    if j < lo.len() {
                        assert(idx@[j] == lo[j]);
                    }
                }
                cur = next;
                lv = lv.push(cur);
            }
        }
        let mut mat: Vec<FullyIndexableDictionary<S>> = Vec::new();
        let mut spl: Vec<usize> = Vec::new();
        let ghost levels = Seq::new((depth + 1) as nat, |k: int| lv[depth - k]);
        while builders.len() > 0
            invariant
                builders@.len() + mat@.len() == depth,
                spl_rev@.len() == builders@.len(),
                spl@.len() == mat@.len(),
                levels.len() == depth + 1,
                forall|k: int| 0 <= k <= depth ==> #[trigger] levels[k] == lv[depth - k],
                forall|k: int|
                    0 <= k < builders@.len() ==> {
                        &&& (#[trigger] builders@[k]).wf()
                        &&& builders@[k].logical_len() == n
                        &&& builders@[k]@.take(n as int) == bit_plane(lv[k], (depth - 1 - k) as usize)
                        &&& spl_rev@[k] == occ(bit_plane(lv[k], (depth - 1 - k) as usize), n as int, false)
                    },
                forall|m: int|
                    0 <= m < mat@.len() ==> {
                        &&& (#[trigger] mat@[m]).wf()
                        &&& mat@[m]@ == bit_plane(levels[m + 1], m as usize)
                        &&& spl@[m] == occ(mat@[m]@, n as int, false)
                    },
            decreases builders@.len(),
        {
            let b = builders.pop().unwrap();
            let z = spl_rev.pop().unwrap();
            let ghost m = mat@.len() as int;
            proof {
                assert(levels[m + 1] == lv[depth - 1 - m]);
            }
            mat.push(FullyIndexableDictionary::build(b));
            spl.push(z);
        }
        let r = WaveletMatrix {
            mat,
            spl,
            depth,
            len: n,
            levels: Ghost(levels),
            _phantom: std::marker::PhantomData,
        };
        proof {
            assert forall|dd: int| 0 <= dd < depth implies #[trigger] levels[dd] == stable_partition(
                levels[dd + 1],
                dd as usize,
            ) by {
                let k = depth - 1 - dd;
                assert(lv[k + 1] == stable_partition(lv[k], (depth - 1 - k) as usize));
            }
        }
        r
    }

    /// After every level, position `pos` of a value sequence lands after every
    /// value ordered before `x` and after the occurrences of `x` in `[0, pos)`.
    proof fn lemma_final_position(&self, pos: int, x: usize)
        requires
            self.wf(),
            0 <= pos <= self@.len(),
            fits(x, self.depth),
        ensures
            self.final_position(pos, x) == count_before(self@, x, self.depth) + count_of(
                self@.subrange(0, pos),
                x,
            ),
    {
        let levels = self.levels@;
        lemma_descend_range(levels, self@, self.depth, x, 0, pos, 0);
        lemma_agrees_from_zero(x);
        lemma_descend_before(levels, self@, self.depth, x, 0);
        let p0 = descend_from(levels, x, 0, 0, self.depth as int);
        let all = |v: usize| true;
        let cb = before(x, 0, self.depth as int);
        assert(levels[0].take(p0).filter(all).len() == self@.filter(both(cb, all)).len());
        assert(both(cb, all) =~= cb);
        lemma_filter_all(levels[0].take(p0), all);
    }

    /// The number of values.
    pub fn len(&self) -> (r: usize)
        requires
            self.wf(),
        ensures
            r == self@.len(),
    {
        self.len
    }

    /// Descends `pos` through every level by the bits of `x`.
    pub fn dfs_pos_x(&self, pos: usize, x: usize) -> (r: usize)
        requires
            self.wf(),
            pos <= self@.len(),
        ensures
            r <= self@.len(),
            fits(x, self.spec_depth()) ==> r == count_before(self@, x, self.spec_depth()) + count_of(
                self@.subrange(0, pos as int),
                x,
            ),
    {
        proof {
            if fits(x, self.depth) {
                self.lemma_final_position(pos as int, x);
            }
        }
        let mut p: usize = pos;
        let mut d: usize = self.depth;
        while d > 0
            invariant
                self.wf(),
                d <= self.depth,
                p <= self.len,
                p == descend_from(self.levels@, x, pos as int, d as int, self.depth as int),
            decreases d,
        {
            d = d - 1;
            let k: usize = (x >> d) & 1;
            proof {
                assert(k == 0 || k == 1) by (bit_vector)
                    requires
                        k == (x >> d) & 1,
                ;
                lemma_partition_range(self.levels@[d + 1], d, p as int, p as int, bit_of(x, d));
            }
            p = self.mat[d].rank(p, k) + self.spl[d] * k;
        }
        p
    }

    /// The number of values equal to `x` among positions `ran.start .. ran.end`.
    pub fn rank_x(&self, ran: std::ops::Range<usize>, x: usize) -> (r: usize)
        requires
            self.wf(),
            ran.start <= ran.end <= self@.len(),
            fits(x, self.spec_depth()),
        ensures
            r == count_of(self@.subrange(ran.start as int, ran.end as int), x),
    {
        proof {
            let a = self@.subrange(0, ran.start as int);
            let w = self@.subrange(ran.start as int, ran.end as int);
            assert(self@.subrange(0, ran.end as int) =~= a + w);
            Seq::filter_distributes_over_add(a, w, equals(x));
        }
        self.dfs_pos_x(ran.end, x) - self.dfs_pos_x(ran.start, x)
    }

    /// The value at position `pos`, read back bit by bit from the levels.
    pub fn at(&self, pos: usize) -> (r: usize)
        requires
            self.wf(),
            pos < self@.len(),
        ensures
            r == self@[pos as int],
    {
        let ghost v = self@[pos as int];
        let ghost depth = self.depth;
        let mut p: usize = pos;
        let mut x: usize = 0;
        let mut d: usize = self.depth;
        proof {
            assert(fits(v, depth));
            assert(x == (v >> d) << d) by (bit_vector)
                requires
                    x == 0,
                    v >> d == 0,
            ;
        }
        while d > 0
            invariant
                self.wf(),
                pos < self.len,
                v == self@[pos as int],
                depth == self.depth,
                d <= depth,
                p == descend_from(self.levels@, v, pos as int, d as int, depth as int),
                x == (v >> d) << d,
            decreases d,
        {
            proof {
                lemma_descend_range(
                    self.levels@,
                    self@,
                    depth,
                    v,
                    pos as int,
                    pos + 1,
                    d as int,
                );
                let w = self@.subrange(pos as int, pos + 1);
                assert(w[0] == v);
                lemma_filter_all(w, agrees_from(v, d));
                assert(self.levels@[d as int][p as int] == v);
            }
            d = d - 1;
            let k = self.mat[d].access(p);
            proof {
                lemma_partition_range(self.levels@[d + 1], d, p as int, p as int, bit_of(v, d));
                assert(self.mat@[d as int]@[p as int] == bit_of(v, d));
                assert(((v >> d) & 1usize) == 0usize || ((v >> d) & 1usize) == 1usize) by (bit_vector);
                assert(k == (v >> d) & 1usize);
                assert(x | (k << d) == (v >> d) << d) by (bit_vector)
                    requires
                        d < 64,
                        k == (v >> d) & 1usize,
                        x == (v >> ((d + 1) as usize)) << ((d + 1) as usize),
                ;
            }
            x = x | (k << d);
            p = self.mat[d].rank(p, k) + self.spl[d] * k;
        }
        proof {
            assert((v >> 0usize) << 0usize == v) by (bit_vector);
        }
        x
    }
}

} // verus!
