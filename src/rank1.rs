use crate::bits::{
    bit_of, count_in, floor_log2, lemma_low_count_bound, lemma_pattern_rank, lemma_rank_bounds,
    lemma_rank_complement, low_count, rank_of, read_pattern,
};
use vstd::arithmetic::div_mod::*;
use vstd::arithmetic::mul::*;
use vstd::prelude::*;

verus! {

/// Constant-time rank over a bit sequence.
///
/// The sequence is cut into blocks of `block_size` bits and superblocks of
/// `block_size` blocks. Each superblock keeps the number of ones before it, each
/// block the number of ones between the start of its superblock and its own start,
/// and a table gives, for every bit pattern of one block, the ones among its lowest
/// bits.
pub struct Rank1 {
    block_size: usize,
    superblock_size: usize,
    superblock_ranks: Vec<u64>,
    /// Block `g` lies in superblock `g / block_size`.
    block_ranks: Vec<u64>,
    /// `lookup[x][p]`: ones among the lowest `p` bits of `x`.
    lookup: Vec<Vec<u8>>,
}

/// Superblock count plus block count give the rank at the start of block `g`.
pub open spec fn count_ok(supers: Seq<u64>, blocks: Seq<u64>, data: Seq<bool>, b: int, g: int) -> bool {
    &&& g / b < supers.len()
    &&& supers[g / b] + blocks[g] == rank_of(data, true, g * b)
}

/// The counts of every block are right.
pub open spec fn counts_match(supers: Seq<u64>, blocks: Seq<u64>, data: Seq<bool>, b: int) -> bool {
    forall|g: int| 0 <= g < blocks.len() ==> #[trigger] count_ok(supers, blocks, data, b, g)
}

proof fn lemma_counts_extend(
    s0: Seq<u64>,
    b0: Seq<u64>,
    s1: Seq<u64>,
    b1: Seq<u64>,
    data: Seq<bool>,
    b: int,
)
    requires
        counts_match(s0, b0, data, b),
        b > 0,
        s1.len() >= s0.len(),
        forall|k: int| 0 <= k < s0.len() ==> s1[k] == s0[k],
        b1.len() == b0.len() + 1,
        forall|k: int| 0 <= k < b0.len() ==> b1[k] == b0[k],
        count_ok(s1, b1, data, b, b0.len() as int),
    ensures
        counts_match(s1, b1, data, b),
{
    assert forall|g: int| 0 <= g < b1.len() implies #[trigger] count_ok(s1, b1, data, b, g) by {
        if g < b0.len() {
            assert(count_ok(s0, b0, data, b, g));
            assert(b0[g] == b1[g]);
            assert(s1[g / b] == s0[g / b]);
        }
    }
}

impl Rank1 {
    /// The tables hold the counts of `data`.
    pub closed spec fn wf(&self, data: Seq<bool>) -> bool {
        let b = self.block_size as int;
        &&& 1 <= b <= 32
        &&& self.superblock_size == b * b
        &&& self.block_ranks@.len() == (data.len() as int) / b + 1
        &&& counts_match(self.superblock_ranks@, self.block_ranks@, data, b)
        &&& self.lookup@.len() == (1u64 << (b as u64))
        &&& forall|x: int|
            0 <= x < self.lookup@.len() ==> #[trigger] self.lookup@[x]@.len() == b + 1
        &&& forall|x: int, p: int|
            0 <= x < self.lookup@.len() && 0 <= p <= b ==> (#[trigger] self.lookup@[x]@[p])
                == low_count(x as u64, p)
    }

    pub fn new(data: &Vec<bool>) -> (r: Self)
        ensures
            r.wf(data@),
    {
        let n = data.len();
        let lg = floor_log2(n as u64);
        let b: usize = if lg / 2 >= 1 {
            (lg / 2) as usize
        } else {
            1
        };
        let (superblock_ranks, block_ranks) = Self::build_counts(data.as_slice(), b);
        let lookup = Self::build_lookup(b);
        assert(b * b <= 1024) by (nonlinear_arith)
            requires
                b <= 32,
        ;
        Rank1 { block_size: b, superblock_size: b * b, superblock_ranks, block_ranks, lookup }
    }

    fn build_counts(data: &[bool], b: usize) -> (r: (Vec<u64>, Vec<u64>))
        requires
            1 <= b <= 32,
        ensures
            r.1@.len() == (data@.len() as int) / (b as int) + 1,
            counts_match(r.0@, r.1@, data@, b as int),
    {
        let n = data.len();
        let mut supers: Vec<u64> = Vec::new();
        let mut blocks: Vec<u64> = Vec::new();
        let mut rank: u64 = 0;
        let mut super_rank: u64 = 0;
        let mut pos: usize = 0;
        let mut in_super: usize = 0;
        let ghost mut q: int = 0;
        loop
            invariant_except_break
                pos <= n,
                pos == blocks@.len() * b,
                blocks@.len() == q * b + in_super,
                0 <= in_super < b,
                0 <= q,
                supers@.len() == (if in_super == 0 {
                    q
                } else {
                    q + 1
                }),
                in_super > 0 ==> super_rank == supers@[q],
                in_super > 0 ==> super_rank <= rank,
                rank == rank_of(data@, true, pos as int),
            invariant
                1 <= b <= 32,
                n == data@.len(),
                counts_match(supers@, blocks@, data@, b as int),
            ensures
                blocks@.len() == (n as int) / (b as int) + 1,
                counts_match(supers@, blocks@, data@, b as int),
            decreases n - pos,
        {
            let ghost s0 = supers@;
            let ghost b0 = blocks@;
            if in_super == 0 {
                supers.push(rank);
                super_rank = rank;
            }
            let ghost g = blocks@.len() as int;
            proof {
                lemma_fundamental_div_mod_converse_div(g, b as int, q, in_super as int);
            }
            blocks.push(rank - super_rank);
            proof {
                assert(count_ok(supers@, blocks@, data@, b as int, g));
                lemma_counts_extend(s0, b0, supers@, blocks@, data@, b as int);
            }
            if n - pos < b {
                proof {
                    lemma_fundamental_div_mod_converse_div(
                        n as int,
                        b as int,
                        g,
                        (n - pos) as int,
                    );
                }
                break ;
            }
            proof {
                lemma_rank_bounds(data@, true, 0, (pos + b) as int);
            }
            let cnt = count_in(data, true, pos, pos + b);
            rank = rank + cnt;
            pos = pos + b;
            proof {
                lemma_mul_is_distributive_add_other_way(b as int, g, 1);
                lemma_mul_is_distributive_add_other_way(b as int, q, 1);
            }
            in_super = in_super + 1;
            if in_super == b {
                in_super = 0;
                proof {
                    q = q + 1;
                }
            }
        }
        (supers, blocks)
    }

    fn build_lookup(b: usize) -> (r: Vec<Vec<u8>>)
        requires
            1 <= b <= 32,
        ensures
            r@.len() == (1u64 << (b as u64)),
            forall|x: int| 0 <= x < r@.len() ==> #[trigger] r@[x]@.len() == b + 1,
            forall|x: int, p: int|
                0 <= x < r@.len() && 0 <= p <= b ==> (#[trigger] r@[x]@[p]) == low_count(
                    x as u64,
                    p,
                ),
    {
        let rows: u64 = 1u64 << (b as u64);
        let mut lookup: Vec<Vec<u8>> = Vec::new();
        let mut x: u64 = 0;
        while x < rows
            invariant
                1 <= b <= 32,
                rows == 1u64 << (b as u64),
                x <= rows,
                lookup@.len() == x,
                forall|y: int| 0 <= y < lookup@.len() ==> #[trigger] lookup@[y]@.len() == b + 1,
                forall|y: int, p: int|
                    0 <= y < lookup@.len() && 0 <= p <= b ==> (#[trigger] lookup@[y]@[p])
                        == low_count(y as u64, p),
            decreases rows - x,
        {
            let mut row: Vec<u8> = Vec::new();
            let mut c: u8 = 0;
            row.push(0);
            let mut p: usize = 0;
            while p < b
                invariant
                    1 <= b <= 32,
                    p <= b,
                    row@.len() == p + 1,
                    c == low_count(x, p as int),
                    forall|t: int| 0 <= t <= p ==> #[trigger] row@[t] == low_count(x, t),
                decreases b - p,
            {
                proof {
                    lemma_low_count_bound(x, p as int);
                }
                if (x >> (p as u64)) & 1u64 == 1u64 {
                    c = c + 1;
                }
                row.push(c);
                p = p + 1;
            }
            lookup.push(row);
            x = x + 1;
        }
        lookup
    }

    /// Number of ones in `data[0..i)`.
    pub fn rank1(&self, data: &[bool], i: u64) -> (r: u64)
        requires
            self.wf(data@),
            i <= data@.len(),
        ensures
            r == rank_of(data@, true, i as int),
    {
        let n = data.len();
        let i = i as usize;
        let b = self.block_size;
        let g = i / b;
        let p = i % b;
        proof {
            lemma_mod_decreases(i as nat, b as nat);
        }
        let start = i - p;
        let pattern = read_pattern(data, start, b);
        proof {
            lemma_fundamental_div_mod(i as int, b as int);
            lemma_mul_is_commutative(b as int, g as int);
            lemma_div_is_ordered(i as int, data@.len() as int, b as int);
            assert(count_ok(self.superblock_ranks@, self.block_ranks@, data@, b as int, g as int));
            assert forall|j: int| 0 <= j < p implies #[trigger] bit_of(pattern, j as u64)
                == data@[start + j] by {}
            lemma_pattern_rank(data@, start as int, pattern, p as int);
            lemma_rank_bounds(data@, true, 0, i as int);
        }
        let rows = self.lookup.len();
        assert(pattern < rows);
        let block_rank = self.block_ranks[g];
        let super_rank = self.superblock_ranks[g / b];
        let in_block = self.lookup[pattern as usize][p];
        super_rank + block_rank + in_block as u64
    }

    /// Number of zeroes in `data[0..i)`.
    pub fn rank0(&self, data: &[bool], i: u64) -> (r: u64)
        requires
            self.wf(data@),
            i <= data@.len(),
        ensures
            r == rank_of(data@, false, i as int),
    {
        let ones = self.rank1(data, i);
        proof {
            lemma_rank_complement(data@, i as int);
        }
        i - ones
    }

    /// Number of ones in `data[0..i)`, counted one entry at a time.
    pub fn rank1_simple(&self, data: &[bool], i: u64) -> (r: u64)
        requires
            i <= data@.len(),
        ensures
            r == rank_of(data@, true, i as int),
    {
        let n = data.len();
        count_in(data, true, 0, i as usize)
    }
}

} // verus!
