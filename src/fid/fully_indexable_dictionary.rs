use crate::bits::{
    bits_of, chunks_for, lemma_masked_count, lemma_occ_monotone, lemma_occ_split,
    lemma_kth_exists, lemma_kth_unique, lemma_occ_units, lemma_ones_in_units_diff, occ, ones_in_units, pop_below, popcount, unit_bit,
};
use crate::wv::fid_builder::FIDBuilder;
use crate::wv::fid_size::{valid_widths, FIDSize};
use vstd::prelude::*;

verus! {

/// An immutable bit-vector answering `access` and `rank` in constant time and
/// `select` by binary search, for either bit value.
///
/// Beside the raw bytes it keeps, for each chunk, the number of ones before
/// it, and for each block of a chunk, the number of ones before it inside the
/// chunk.
pub struct FullyIndexableDictionary<S: FIDSize> {
    bit: Vec<u8>,
    chunk: Vec<usize>,
    blocks: Vec<Vec<u8>>,
    len: usize,
    bnum: usize,
    _phantom: std::marker::PhantomData<S>,
}

impl<S: FIDSize> View for FullyIndexableDictionary<S> {
    type V = Seq<bool>;

    /// The `n` logical bits.
    closed spec fn view(&self) -> Seq<bool> {
        bits_of(self.bit@, self.len as nat)
    }
}

/// The bit value that `flag` (0 or 1) stands for.
pub open spec fn flag_bit(flag: usize) -> bool {
    flag == 1
}

impl<S: FIDSize> FullyIndexableDictionary<S> {
    /// The summaries match the raw bytes.
    pub closed spec fn wf(&self) -> bool {
        &&& valid_widths(S::chunk_width(), S::block_width())
        &&& self.bnum == S::chunk_width() / 8
        &&& self.blocks@.len() == chunks_for(self.len as nat, S::chunk_width())
        &&& self.bit@.len() == self.blocks@.len() * self.bnum
        &&& self.bit@.len() * 8 <= usize::MAX
        &&& self.chunk@.len() == self.blocks@.len() + 1
        &&& forall|i: int|
            0 <= i < self.chunk@.len() ==> #[trigger] self.chunk@[i] == ones_in_units(
                self.bit@,
                i * self.bnum,
            )
        &&& forall|i: int| 0 <= i < self.blocks@.len() ==> #[trigger] self.blocks@[i]@.len() == self.bnum
        &&& forall|i: int, j: int|
            0 <= i < self.blocks@.len() && 0 <= j < self.bnum ==> #[trigger] self.blocks@[i]@[j]
                + ones_in_units(self.bit@, i * self.bnum) == ones_in_units(
                self.bit@,
                i * self.bnum + j,
            )
    }

    proof fn lemma_len_fits(&self)
        requires
            self.wf(),
        ensures
            self.len <= self.bit@.len() * 8,
            self.bnum * 8 == S::chunk_width(),
    {
        let cw = S::chunk_width();
        let n = self.len as nat;
        assert(chunks_for(n, cw) * cw >= n) by (nonlinear_arith)
            requires
                cw > 0,
                chunks_for(n, cw) == if n % cw == 0 {
                    n / cw
                } else {
                    n / cw + 1
                },
        ;
        assert(self.bit@.len() * 8 == chunks_for(n, cw) * cw) by (nonlinear_arith)
            requires
                self.bit@.len() == chunks_for(n, cw) * self.bnum,
                self.bnum == cw / 8,
                cw % 8 == 0,
        ;
    }

    /// The number of bits is addressable by `usize`.
    pub proof fn lemma_len_bound(&self)
        requires
            self.wf(),
        ensures
            self@.len() <= usize::MAX,
    {
        self.lemma_len_fits();
    }

    /// Builds the chunk and block summaries over the builder's bits.
    pub fn build(builder: FIDBuilder<S>) -> (r: Self)
        requires
            builder.wf(),
        ensures
            r.wf(),
            r@.len() == builder.logical_len(),
            r@ == builder@.take(builder.logical_len() as int),
    {
        proof {
            S::lemma_valid_widths();
        }
        let ghost padded = builder@;
        let (bit, len) = builder.into_parts();
        let cw = S::cw();
        proof {
            assert(len / cw < usize::MAX) by (nonlinear_arith)
                requires
                    cw >= 8,
            ;
        }
        let cnum: usize = if len % cw == 0 {
            len / cw
        } else {
            len / cw + 1
        };
        let bnum: usize = cw / S::bw();
        let mut chunk: Vec<usize> = Vec::new();
        chunk.push(0);
        let mut blocks: Vec<Vec<u8>> = Vec::new();
        let mut i: usize = 0;
        proof {
            assert(0 * bnum == 0);
        }
        while i < cnum
            invariant
                bnum == cw / 8,
                cw == S::chunk_width(),
                valid_widths(S::chunk_width(), S::block_width()),
                bit@.len() == cnum * bnum,
                bit@.len() * 8 <= usize::MAX,
                i <= cnum,
                chunk@.len() == i + 1,
                blocks@.len() == i,
                forall|k: int| 0 <= k <= i ==> #[trigger] chunk@[k] == ones_in_units(bit@, k * bnum),
                forall|k: int| 0 <= k < i ==> #[trigger] blocks@[k]@.len() == bnum,
                forall|k: int, j: int|
                    0 <= k < i && 0 <= j < bnum ==> #[trigger] blocks@[k]@[j] + ones_in_units(
                        bit@,
                        k * bnum,
                    ) == ones_in_units(bit@, k * bnum + j),
            decreases cnum - i,
        {
            proof {
                assert((i + 1) * bnum <= cnum * bnum) by (nonlinear_arith)
                    requires
                        i < cnum,
                ;
                assert((i + 1) * bnum == i * bnum + bnum) by (nonlinear_arith);
            }
            let base: usize = i * bnum;
            assert(base + bnum <= bit@.len());
            let mut blk: Vec<u8> = Vec::new();
            blk.push(0);
            let mut acc: u8 = 0;
            let mut j: usize = 0;
            while j + 1 < bnum
                invariant
                    bnum == cw / 8,
                    valid_widths(cw as nat, 8),
                    base + bnum <= bit@.len(),
                    bit@.len() <= usize::MAX,
                    j + 1 <= bnum,
                    blk@.len() == j + 1,
                    acc == blk@[j as int],
                    forall|t: int|
                        0 <= t <= j ==> #[trigger] blk@[t] + ones_in_units(bit@, base as int)
                            == ones_in_units(bit@, base + t),
                decreases bnum - j,
            {
                proof {
                    lemma_ones_in_units_diff(bit@, base as int, base + j + 1);
                }
                let c = popcount(bit[base + j]);
                acc = acc + c;
                blk.push(acc);
                j = j + 1;
            }
            proof {
                lemma_ones_in_units_diff(bit@, base as int, base + bnum);
                lemma_ones_in_units_diff(bit@, 0, base + bnum);
                assert(chunk@[i as int] == ones_in_units(bit@, base as int));
            }
            let c = popcount(bit[base + bnum - 1]);
            let next: usize = chunk[i] + acc as usize + c as usize;
            chunk.push(next);
            blocks.push(blk);
            i = i + 1;
            proof {
                assert(chunk@[i as int] == ones_in_units(bit@, i * bnum));
                assert forall|k: int| 0 <= k <= i implies #[trigger] chunk@[k] == ones_in_units(
                    bit@,
                    k * bnum,
                ) by {}
            }
        }
        let r = FullyIndexableDictionary {
            bit,
            chunk,
            blocks,
            len,
            bnum,
            _phantom: std::marker::PhantomData,
        };
        proof {
            r.lemma_len_fits();
            assert(r@ =~= padded.take(len as int));
        }
        r
    }

    /// The bit at `pos`, as 0 or 1.
    pub fn access(&self, pos: usize) -> (r: usize)
        requires
            self.wf(),
            pos < self@.len(),
        ensures
            r == if self@[pos as int] {
                1usize
            } else {
                0usize
            },
    {
        proof {
            self.lemma_len_fits();
        }
        let bpos = pos / S::bw();
        let offset = (pos % S::bw()) as u8;
        let u = self.bit[bpos];
        let r = ((u >> offset) & 1u8) as usize;
        proof {
            assert(((u >> offset) & 1u8) == 1u8 || ((u >> offset) & 1u8) == 0u8) by (bit_vector);
            assert(self@[pos as int] == unit_bit(u, offset));
        }
        r
    }

    /// The number of bits equal to `flag` (0 or 1) in `[0, pos)`.
    pub fn rank(&self, pos: usize, flag: usize) -> (r: usize)
        requires
            self.wf(),
            pos <= self@.len(),
            flag <= 1,
        ensures
            r == occ(self@, pos as int, flag_bit(flag)),
    {
        proof {
            self.lemma_len_fits();
            lemma_occ_units(self.bit@, self.len as nat, pos as int);
            lemma_occ_split(self@, pos as int);
        }
        let cw = S::cw();
        let bw = S::bw();
        let cpos = pos / cw;
        let ghost ones = occ(self@, pos as int, true);
        proof {
            let cnum = self.blocks@.len();
            assert(cpos * cw <= pos) by (nonlinear_arith)
                requires
                    cpos == pos / cw,
                    cw > 0,
            ;
            assert(cpos <= cnum) by (nonlinear_arith)
                requires
                    cpos * cw <= pos,
                    pos <= self.bit@.len() * 8,
                    self.bit@.len() == cnum * self.bnum,
                    self.bnum * 8 == cw,
                    cw > 0,
            ;
        }
        let ones_exec: usize = if cpos < self.blocks.len() {
            let bpos = (pos % cw) / bw;
            let offset = (pos % bw) as u8;
            assert((1u8 << offset) >= 1u8) by (bit_vector)
                requires
                    offset < 8,
            ;
            let mask: u8 = (1u8 << offset) - 1u8;
            proof {
                assert(cpos * self.bnum + bpos == pos / 8 && bpos < self.bnum) by (nonlinear_arith)
                    requires
                        cpos == pos / cw,
                        bpos == (pos % cw) / 8,
                        self.bnum * 8 == cw,
                        cw > 0,
                ;
                assert(cpos * self.bnum + self.bnum <= self.bit@.len()) by (nonlinear_arith)
                    requires
                        cpos < self.blocks@.len(),
                        self.bit@.len() == self.blocks@.len() * self.bnum,
                ;
            }
            let u = self.bit[cpos * self.bnum + bpos];
            let masked = u & mask;
            let c = popcount(masked);
            proof {
                lemma_masked_count(u, offset, mask);
                assert(self.chunk@[cpos as int] + self.blocks@[cpos as int]@[bpos as int] == ones_in_units(self.bit@, (pos / 8) as int));
            }
            self.chunk[cpos] + self.blocks[cpos][bpos] as usize + c as usize
        } else {
            proof {
                assert(cpos * self.bnum == pos / 8 && pos % 8 == 0) by (nonlinear_arith)
                    requires
                        cpos == pos / cw,
                        cpos == self.blocks@.len(),
                        pos <= self.bit@.len() * 8,
                        self.bit@.len() == self.blocks@.len() * self.bnum,
                        self.bnum * 8 == cw,
                        cw > 0,
                ;
            }
            self.chunk[cpos]
        };
        if flag == 0 {
            pos - ones_exec
        } else {
            ones_exec
        }
    }

    /// The position of the `num`-th bit equal to `flag` (counting from one), or
    /// `None` when there are fewer; `Some(0)` when `num == 0`.
    pub fn select(&self, num: usize, flag: usize) -> (r: Option<usize>)
        requires
            self.wf(),
            flag <= 1,
        ensures
            num == 0 ==> r == Some(0usize),
            num > 0 ==> (r is None <==> num > occ(self@, self@.len() as int, flag_bit(flag))),
            num > 0 && r is Some ==> select_at(self@, num as nat, flag_bit(flag), r->0 as int),
    {
        if num == 0 {
            return Some(0);
        }
        if self.rank(self.len, flag) < num {
            return None;
        }
        let ghost b = flag_bit(flag);
        let mut ok: usize = self.len;
        let mut ng: usize = 0;
        while ok - ng > 1
            invariant
                self.wf(),
                flag <= 1,
                b == flag_bit(flag),
                ng < ok <= self@.len(),
                num >= 1,
                occ(self@, ng as int, b) < num,
                num <= occ(self@, ok as int, b),
            decreases ok - ng,
        {
            let mid = ng + (ok - ng) / 2;
            if self.rank(mid, flag) >= num {
                ok = mid;
            } else {
                ng = mid;
            }
        }
        proof {
            lemma_occ_monotone(self@, ok - 1, ok as int, b);
        }
        Some(ok - 1)
    }
}

/// Rank and access agree: counting the value of bit `pos` over `[0, pos + 1)`
/// gives one more than over `[0, pos)`.
pub proof fn lemma_rank_access<S: FIDSize>(fid: &FullyIndexableDictionary<S>, pos: int)
    requires
        fid.wf(),
        0 <= pos < fid@.len(),
    ensures
        occ(fid@, pos + 1, fid@[pos]) == occ(fid@, pos, fid@[pos]) + 1,
{
}

/// Rank is monotone in the position, for either bit value.
pub proof fn lemma_rank_monotone<S: FIDSize>(
    fid: &FullyIndexableDictionary<S>,
    pos1: int,
    pos2: int,
    b: bool,
)
    requires
        fid.wf(),
        0 <= pos1 <= pos2 <= fid@.len(),
    ensures
        occ(fid@, pos1, b) <= occ(fid@, pos2, b),
{
    lemma_occ_monotone(fid@, pos1, pos2, b);
}

/// Select inverts rank: for `1 <= k <= rank(n, b)` exactly one position `p`
/// holds `b` with `rank(p + 1, b) == k`, and that is what `select` returns.
pub proof fn lemma_select_rank_inverse<S: FIDSize>(
    fid: &FullyIndexableDictionary<S>,
    k: nat,
    b: bool,
)
    requires
        fid.wf(),
        1 <= k <= occ(fid@, fid@.len() as int, b),
    ensures
        exists|p: int| #[trigger] select_at(fid@, k, b, p),
        forall|p: int, q: int|
            #[trigger] select_at(fid@, k, b, p) && #[trigger] select_at(fid@, k, b, q) ==> p == q,
{
    lemma_kth_exists(fid@, fid@.len() as int, k, b);
    let p = choose|p: int| 0 <= p < fid@.len() && fid@[p] == b && #[trigger] occ(fid@, p + 1, b) == k;
    assert(select_at(fid@, k, b, p));
    assert forall|p: int, q: int|
        #[trigger] select_at(fid@, k, b, p) && #[trigger] select_at(fid@, k, b, q) implies p == q by {
        lemma_kth_unique(fid@, k, b, p, q);
    }
}

/// `p` holds the `k`-th entry equal to `b` of `s`, counting from one.
pub open spec fn select_at(s: Seq<bool>, k: nat, b: bool, p: int) -> bool {
    0 <= p < s.len() && s[p] == b && occ(s, p + 1, b) == k
}


} // verus!
