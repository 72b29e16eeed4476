use crate::rmq::rmq_sparse::{pw, RMQSparse};
use crate::rmq::{is_argmin, lemma_argmin_union, rmq_result, RMQError, RMQ};
use std::collections::HashMap;
use vstd::arithmetic::div_mod::{lemma_fundamental_div_mod, lemma_mod_bound};
use vstd::arithmetic::mul::{
    lemma_mul_inequality, lemma_mul_is_commutative, lemma_mul_is_distributive_add_other_way,
};
use vstd::prelude::*;

verus! {

/// `t[f][x]` is the offset of the leftmost minimum of `blk[f..=x]`, for every pair of
/// offsets of the block.
pub open spec fn table_ok(blk: Seq<u64>, t: Seq<Vec<usize>>) -> bool {
    &&& t.len() == blk.len()
    &&& forall|f: int| 0 <= f < t.len() ==> (#[trigger] t[f])@.len() == blk.len()
    &&& forall|f: int, x: int|
        0 <= f <= x < blk.len() ==> is_argmin(blk, f, x, (#[trigger] t[f]@[x]) as int)
}

/// State of the stack-based construction of a Cartesian tree after `i` values: the
/// stack and the number whose bits record each push (1) and pop (0).
pub open spec fn ct_state(blk: Seq<u64>, i: int) -> (Seq<u64>, int)
    decreases i,
{
    if i <= 0 {
        (Seq::empty(), 0)
    } else {
        let prev = ct_state(blk, i - 1);
        let popped = ct_pop(prev.0, prev.1, blk[i - 1]);
        (popped.0.push(blk[i - 1]), popped.1 * 2 + 1)
    }
}

/// Pops every stack entry above `x`, recording a 0 bit for each.
pub open spec fn ct_pop(st: Seq<u64>, num: int, x: u64) -> (Seq<u64>, int)
    decreases st.len(),
{
    if st.len() > 0 && st.last() > x {
        ct_pop(st.drop_last(), num * 2, x)
    } else {
        (st, num)
    }
}

/// Cartesian-tree signature of a block: the push/pop record, with one 0 bit for each
/// entry left on the stack at the end.
pub open spec fn ct_number(blk: Seq<u64>) -> int {
    let st = ct_state(blk, blk.len() as int);
    st.1 * pw(st.0.len())
}

proof fn lemma_pw_step(l: nat)
    ensures
        pw(l + 1) == 2 * pw(l),
{
}

proof fn lemma_pw_mono(a: nat, b: nat)
    requires
        a <= b,
    ensures
        pw(a) <= pw(b),
    decreases b,
{
    if a < b {
        lemma_pw_mono(a, (b - 1) as nat);
    }
}

proof fn lemma_pw_62()
    ensures
        pw(62) == 0x4000_0000_0000_0000,
{
    reveal_with_fuel(pw, 63);
}

/// Per-block range-minimum tables, shared between blocks of equal Cartesian-tree
/// signature.
///
/// Blocks with equal signatures order their values alike, so one table serves
/// them all; a table found through the signature map is confirmed against each
/// block that reuses it, and a block it does not fit gets a table of its own.
pub struct CartesianTrees {
    s: usize,
    /// Table index for each signature seen.
    cartesian_trees: HashMap<u64, usize>,
    tables: Vec<Vec<Vec<usize>>>,
    cartesian_tree_number_for_blocks: Vec<u64>,
    table_for_block: Vec<usize>,
    values: Ghost<Seq<u64>>,
}

/// Values of block `k` of `a`, blocks being `s` long but the last.
pub open spec fn block_of(a: Seq<u64>, s: int, k: int) -> Seq<u64> {
    a.subrange(k * s, if (k + 1) * s < a.len() {
        (k + 1) * s
    } else {
        a.len() as int
    })
}

impl CartesianTrees {
    /// The array whose blocks are indexed.
    pub closed spec fn view(&self) -> Seq<u64> {
        self.values@
    }

    /// Number of blocks.
    pub closed spec fn block_count(&self) -> int {
        self.table_for_block@.len() as int
    }

    pub closed spec fn wf(&self) -> bool {
        let a = self.values@;
        let s = self.s as int;
        &&& 1 <= s <= 16
        &&& self.table_for_block@.len() * s >= a.len()
        &&& (self.table_for_block@.len() - 1) * s < a.len()
        &&& forall|k: int|
            0 <= k < self.table_for_block@.len() ==> (#[trigger] self.table_for_block@[k])
                < self.tables@.len() && table_ok(
                block_of(a, s, k),
                self.tables@[self.table_for_block@[k] as int]@,
            )
    }

    /// Block size.
    pub closed spec fn block_size(&self) -> int {
        self.s as int
    }

    /// Signature of a block, from the stack-based construction of its Cartesian tree.
    pub fn cartesian_tree_number(block: &[u64]) -> (r: u64)
        requires
            1 <= block@.len() < 32,
        ensures
            r == ct_number(block@),
    {
        let ghost blk = block@;
        let mut stack: Vec<u64> = Vec::new();
        let mut cartesian_number: u64 = 0;
        let mut bits: usize = 0;
        let mut i: usize = 0;
        while i < block.len()
            invariant
                1 <= blk.len() < 32,
                blk == block@,
                i <= blk.len(),
                (stack@, cartesian_number as int) == ct_state(blk, i as int),
                bits + stack@.len() == 2 * i,
                cartesian_number < pw(bits as nat),
            decreases blk.len() - i,
        {
            let x = block[i];
            let ghost st0 = stack@;
            let ghost num0 = cartesian_number as int;
            while stack.len() > 0 && stack[stack.len() - 1] > x
                invariant
                    1 <= blk.len() < 32,
                    i < blk.len(),
                    x == blk[i as int],
                    ct_pop(stack@, cartesian_number as int, x) == ct_pop(st0, num0, x),
                    bits + stack@.len() == 2 * i,
                    cartesian_number < pw(bits as nat),
                decreases stack@.len(),
            {
                proof {
                    lemma_pw_step(bits as nat);
                    lemma_pw_mono((bits + 1) as nat, 62);
                    lemma_pw_62();
                }
                stack.pop();
                cartesian_number = cartesian_number * 2;
                bits = bits + 1;
            }
            proof {
                lemma_pw_step(bits as nat);
                lemma_pw_mono((bits + 1) as nat, 62);
                lemma_pw_62();
            }
            stack.push(x);
            cartesian_number = cartesian_number * 2 + 1;
            bits = bits + 1;
            i = i + 1;
        }
        let mut left = stack.len();
        let ghost num1 = cartesian_number as int;
        assert(pw(0) == 1);
        assert(num1 * pw(0) == num1) by (nonlinear_arith)
            requires
                pw(0) == 1,
        ;
        assert(stack@.len() - left == 0);
        while left > 0
            invariant
                left <= stack@.len(),
                bits + stack@.len() == 2 * blk.len(),
                blk.len() < 32,
                cartesian_number == num1 * pw((stack@.len() - left) as nat),
                cartesian_number < pw((bits + stack@.len() - left) as nat),
            decreases left,
        {
            proof {
                let m = (stack@.len() - left) as nat;
                lemma_pw_step(m);
                assert(num1 * pw(m + 1) == (num1 * pw(m)) * 2) by (nonlinear_arith)
                    requires
                        pw(m + 1) == 2 * pw(m),
                ;
                lemma_pw_step((bits + stack@.len() - left) as nat);
                lemma_pw_mono((bits + stack@.len() - left + 1) as nat, 62);
                lemma_pw_62();
            }
            cartesian_number = cartesian_number * 2;
            left = left - 1;
        }
        cartesian_number
    }

    /// Table of the leftmost minimum of every range of `block`.
    fn precompute_for_cartesian_tree(block: &[u64]) -> (r: Vec<Vec<usize>>)
        ensures
            table_ok(block@, r@),
    {
        let s = block.len();
        let mut table: Vec<Vec<usize>> = Vec::new();
        let mut i: usize = 0;
        while i < s
            invariant
                s == block@.len(),
                i <= s,
                table@.len() == i,
                forall|f: int| 0 <= f < i ==> (#[trigger] table@[f])@.len() == s,
                forall|f: int, x: int|
                    0 <= f < i && f <= x < s ==> is_argmin(block@, f, x, (#[trigger] table@[f]@[x]) as int),
            decreases s - i,
        {
            let mut row: Vec<usize> = Vec::new();
            let mut j: usize = 0;
            while j < i
                invariant
                    j <= i < s,
                    row@.len() == j,
                decreases i - j,
            {
                row.push(0);
                j = j + 1;
            }
            row.push(i);
            let mut j: usize = i + 1;
            while j < s
                invariant
                    s == block@.len(),
                    i < j <= s,
                    row@.len() == j,
                    forall|x: int| i <= x < j ==> is_argmin(block@, i as int, x, (#[trigger] row@[x]) as int),
                decreases s - j,
            {
                let prev = row[j - 1];
                if block[prev] <= block[j] {
                    row.push(prev);
                } else {
                    row.push(j);
                }
                j = j + 1;
            }
            table.push(row);
            i = i + 1;
        }
        table
    }

    /// Whether `table` answers every range of `block`.
    fn table_fits(block: &[u64], table: &Vec<Vec<usize>>) -> (r: bool)
        ensures
            r ==> table_ok(block@, table@),
    {
        let s = block.len();
        if table.len() != s {
            return false;
        }
        let mut f: usize = 0;
        while f < s
            invariant
                s == block@.len(),
                table@.len() == s,
                f <= s,
                forall|g: int| 0 <= g < f ==> (#[trigger] table@[g])@.len() == s,
                forall|g: int, x: int|
                    0 <= g < f && g <= x < s ==> is_argmin(block@, g, x, (#[trigger] table@[g]@[x]) as int),
            decreases s - f,
        {
            let row = &table[f];
            if row.len() != s || row[f] != f {
                return false;
            }
            let mut cur = f;
            let mut x: usize = f + 1;
            while x < s
                invariant
                    s == block@.len(),
                    row@.len() == s,
                    f < x <= s,
                    cur == row@[x - 1],
                    forall|y: int| f <= y < x ==> is_argmin(block@, f as int, y, (#[trigger] row@[y]) as int),
                decreases s - x,
            {
                let expected = if block[cur] <= block[x] {
                    cur
                } else {
                    x
                };
                if row[x] != expected {
                    return false;
                }
                cur = expected;
                x = x + 1;
            }
            f = f + 1;
        }
        true
    }

    /// Builds the signature of every block and a table for each signature.
    pub fn new(array: &Vec<u64>, block_size: usize, block_count: usize) -> (r: Self)
        requires
            1 <= block_size <= 16,
            block_count * block_size >= array@.len(),
            (block_count - 1) * block_size < array@.len(),
        ensures
            r.wf(),
            r@ == array@,
            r.block_size() == block_size,
            r.block_count() == block_count,
    {
        let n = array.len();
        let s = block_size;
        let mut cartesian_trees: HashMap<u64, usize> = HashMap::new();
        let mut tables: Vec<Vec<Vec<usize>>> = Vec::new();
        let mut numbers: Vec<u64> = Vec::new();
        let mut table_for_block: Vec<usize> = Vec::new();
        let mut k: usize = 0;
        let mut start: usize = 0;
        while k < block_count
            invariant
                n == array@.len(),
                1 <= s <= 16,
                s == block_size,
                block_count * s >= n,
                (block_count - 1) * s < n,
                k <= block_count,
                k < block_count ==> start == k * s,
                table_for_block@.len() == k,
                numbers@.len() == k,
                forall|t: int|
                    0 <= t < k ==> (#[trigger] table_for_block@[t]) < tables@.len() && table_ok(
                        block_of(array@, s as int, t),
                        tables@[table_for_block@[t] as int]@,
                    ),
            decreases block_count - k,
        {
            proof {
                lemma_mul_inequality(k as int, (block_count - 1) as int, s as int);
                lemma_mul_is_distributive_add_other_way(s as int, k as int, 1);
            }
            let len: usize = if n - start < s {
                n - start
            } else {
                s
            };
            let mut block: Vec<u64> = Vec::new();
            let mut j: usize = 0;
            while j < len
                invariant
                    start + len <= n,
                    n == array@.len(),
                    j <= len,
                    block@.len() == j,
                    forall|t: int| 0 <= t < j ==> #[trigger] block@[t] == array@[start + t],
                decreases len - j,
            {
                block.push(array[start + j]);
                j = j + 1;
            }
            proof {
                assert(block@ =~= block_of(array@, s as int, k as int));
            }
            let signature = Self::cartesian_tree_number(block.as_slice());
            numbers.push(signature);
            let ghost t0 = tables@;
            let ghost b0 = table_for_block@;
            let mut chosen: usize = tables.len();
            match cartesian_trees.get(&signature) {
                Some(idx) => {
                    let idx = *idx;
                    if idx < tables.len() && Self::table_fits(block.as_slice(), &tables[idx]) {
                        chosen = idx;
                    }
                },
                None => {},
            }
            if chosen == tables.len() {
                let table = Self::precompute_for_cartesian_tree(block.as_slice());
                tables.push(table);
                cartesian_trees.insert(signature, chosen);
            }
            table_for_block.push(chosen);
            proof {
                assert forall|t: int| 0 <= t < k + 1 implies (#[trigger] table_for_block@[t])
                    < tables@.len() && table_ok(
                    block_of(array@, s as int, t),
                    tables@[table_for_block@[t] as int]@,
                ) by {
                    if t < k {
                        assert(b0[t] == table_for_block@[t]);
                        assert(t0[b0[t] as int] == tables@[b0[t] as int]);
                    }
                }
            }
            k = k + 1;
            if k < block_count {
                proof {
                    lemma_mul_inequality(k as int, (block_count - 1) as int, s as int);
                }
                start = start + s;
            }
        }
        CartesianTrees {
            s,
            cartesian_trees,
            tables,
            cartesian_tree_number_for_blocks: numbers,
            table_for_block,
            values: Ghost(array@),
        }
    }

    /// Offset of the leftmost minimum of block `block_number` between offsets `from`
    /// and `to`.
    pub fn range_minimum_query(&self, block_number: usize, from: usize, to: usize) -> (r: usize)
        requires
            self.wf(),
            block_number < self.block_count(),
            from <= to < block_of(self@, self.block_size(), block_number as int).len(),
        ensures
            is_argmin(
                block_of(self@, self.block_size(), block_number as int),
                from as int,
                to as int,
                r as int,
            ),
    {
        let t = self.table_for_block[block_number];
        self.tables[t][from][to]
    }
}

/// Last position of block `k`.
pub open spec fn block_last(n: int, s: int, k: int) -> int {
    (if (k + 1) * s < n {
        (k + 1) * s
    } else {
        n
    }) - 1
}

/// Block `k` holds its minimum at offset `pos[k]`, whose value is `mins[k]`.
pub open spec fn block_min_ok(a: Seq<u64>, s: int, k: int, mins: Seq<u64>, pos: Seq<usize>) -> bool {
    &&& k * s + pos[k] <= block_last(a.len() as int, s, k)
    &&& is_argmin(a, k * s, block_last(a.len() as int, s, k), k * s + pos[k])
    &&& mins[k] == a[k * s + pos[k]]
}

/// A position lies in the block its quotient names.
proof fn lemma_block_index(s: int, m: int, lo_block: int, hi_block: int, n: int)
    requires
        1 <= s,
        0 <= lo_block,
        lo_block * s <= m <= block_last(n, s, hi_block),
        m < n,
    ensures
        lo_block <= m / s <= hi_block,
        (m / s) * s <= m <= block_last(n, s, m / s),
{
    let k = m / s;
    lemma_fundamental_div_mod(m, s);
    lemma_mod_bound(m, s);
    lemma_mul_is_commutative(s, k);
    lemma_mul_is_distributive_add_other_way(s, k, 1);
    if k > hi_block {
        lemma_mul_inequality(hi_block + 1, k, s);
    }
    if k < lo_block {
        lemma_mul_inequality(k + 1, lo_block, s);
    }
}

/// The leftmost minimum of a run of whole blocks is the minimum of the block whose
/// minimum is leftmost smallest.
proof fn lemma_blocks_argmin(
    a: Seq<u64>,
    s: int,
    count: int,
    mins: Seq<u64>,
    pos: Seq<usize>,
    fb: int,
    lb: int,
    kb: int,
)
    requires
        1 <= s,
        0 <= fb <= lb < count,
        forall|k: int| 0 <= k < count ==> #[trigger] block_min_ok(a, s, k, mins, pos),
        is_argmin(mins, fb, lb, kb),
        a.len() >= 1,
        count * s >= a.len(),
        (count - 1) * s < a.len(),
    ensures
        is_argmin(a, fb * s, block_last(a.len() as int, s, lb), kb * s + pos[kb]),
{
    let n = a.len() as int;
    assert(block_min_ok(a, s, kb, mins, pos));
    let best = kb * s + pos[kb];
    lemma_mul_inequality(fb, kb, s);
    assert(block_last(n, s, kb) <= block_last(n, s, lb)) by {
        lemma_mul_inequality(kb + 1, lb + 1, s);
    }
    assert(lb * s < n) by {
        lemma_mul_inequality(lb, count - 1, s);
    }
    assert forall|m: int| fb * s <= m <= block_last(n, s, lb) implies a[best] <= #[trigger] a[m] by {
        lemma_block_index(s, m, fb, lb, n);
        let k = m / s;
        assert(block_min_ok(a, s, k, mins, pos));
    }
    assert forall|m: int| fb * s <= m < best implies a[best] < #[trigger] a[m] by {
        lemma_block_index(s, m, fb, lb, n);
        let k = m / s;
        assert(block_min_ok(a, s, k, mins, pos));
        if k > kb {
            lemma_mul_inequality(kb + 1, k, s);
            lemma_mul_is_distributive_add_other_way(s, kb, 1);
        }
    }
}

/// Linear-space range minimum: whole blocks through a sparse table over block
/// minima, partial blocks through per-signature tables.
pub struct RMQSpanningBlocks {
    block_size: usize,
    block_count: usize,
    /// Sparse table over the minimum value of each block.
    block_minimum_sparse: RMQSparse,
    block_minimum_position_in_block: Vec<usize>,
    cartesian_trees: CartesianTrees,
    numbers: Vec<u64>,
}

impl RMQSpanningBlocks {
    pub closed spec fn view(&self) -> Seq<u64> {
        self.numbers@
    }

    pub closed spec fn wf(&self) -> bool {
        let a = self.numbers@;
        let s = self.block_size as int;
        let count = self.block_count as int;
        &&& a.len() >= 1
        &&& 1 <= s <= 16
        &&& count * s >= a.len()
        &&& (count - 1) * s < a.len()
        &&& self.cartesian_trees.wf()
        &&& self.cartesian_trees@ == a
        &&& self.cartesian_trees.block_size() == s
        &&& self.cartesian_trees.block_count() == count
        &&& self.block_minimum_sparse.wf()
        &&& self.block_minimum_sparse@.len() == count
        &&& self.block_minimum_position_in_block@.len() == count
        &&& forall|k: int|
            0 <= k < count ==> #[trigger] block_min_ok(
                a,
                s,
                k,
                self.block_minimum_sparse@,
                self.block_minimum_position_in_block@,
            )
    }

    /// Smallest `c` with `2^c >= n`.
    fn ceil_log2(n: usize) -> (r: usize)
        requires
            1 <= n <= usize::MAX / 64,
        ensures
            r <= 63,
            n <= pw(r as nat),
    {
        let mut p: usize = 1;
        let mut c: usize = 0;
        assert(pw(0) == 1);
        while p < n
            invariant
                p == pw(c as nat),
                1 <= p,
                n <= usize::MAX / 64,
                p < 2 * n,
                c <= 61,
            decreases 2 * n - p,
        {
            proof {
                lemma_pw_step(c as nat);
                lemma_pw_62();
                if c + 1 > 61 {
                    lemma_pw_mono(62, (c + 1) as nat);
                }
            }
            p = p * 2;
            c = c + 1;
        }
        c
    }

    pub fn new(numbers: Vec<u64>) -> (r: Self)
        requires
            1 <= numbers@.len() <= usize::MAX / 64,
        ensures
            r.wf(),
            r@ == numbers@,
    {
        let n = numbers.len();
        let c = Self::ceil_log2(n);
        let s: usize = if (c + 3) / 4 >= 1 {
            (c + 3) / 4
        } else {
            1
        };
        let count = (n + s - 1) / s;
        proof {
            lemma_fundamental_div_mod((n + s - 1) as int, s as int);
            lemma_mod_bound((n + s - 1) as int, s as int);
            lemma_mul_is_commutative(s as int, count as int);
            lemma_mul_is_distributive_add_other_way(s as int, (count - 1) as int, 1);
        }
        let mut mins: Vec<u64> = Vec::new();
        let mut positions: Vec<usize> = Vec::new();
        let mut k: usize = 0;
        let mut start: usize = 0;
        while k < count
            invariant
                n == numbers@.len(),
                1 <= s <= 16,
                count * s >= n,
                (count - 1) * s < n,
                k <= count,
                k < count ==> start == k * s,
                mins@.len() == k,
                positions@.len() == k,
                forall|t: int| 0 <= t < k ==> #[trigger] block_min_ok(numbers@, s as int, t, mins@, positions@),
            decreases count - k,
        {
            proof {
                lemma_mul_inequality(k as int, (count - 1) as int, s as int);
                lemma_mul_is_distributive_add_other_way(s as int, k as int, 1);
            }
            let last: usize = if n - start <= s {
                n - 1
            } else {
                start + s - 1
            };
            let mut best = start;
            let mut j = start + 1;
            while j <= last
                invariant
                    start <= best < j <= last + 1,
                    last < n,
                    n == numbers@.len(),
                    is_argmin(numbers@, start as int, (j - 1) as int, best as int),
                decreases last + 1 - j,
            {
                if numbers[j] < numbers[best] {
                    best = j;
                }
                j = j + 1;
            }
            let ghost m0 = mins@;
            let ghost p0 = positions@;
            mins.push(numbers[best]);
            positions.push(best - start);
            proof {
                assert(block_last(n as int, s as int, k as int) == last);
                assert forall|t: int| 0 <= t < k + 1 implies #[trigger] block_min_ok(
                    numbers@,
                    s as int,
                    t,
                    mins@,
                    positions@,
                ) by {
                    if t < k {
                        assert(block_min_ok(numbers@, s as int, t, m0, p0));
                    }
                }
            }
            k = k + 1;
            if k < count {
                proof {
                    lemma_mul_inequality(k as int, (count - 1) as int, s as int);
                }
                start = start + s;
            }
        }
        let block_minimum_sparse = RMQSparse::new(mins);
        let cartesian_trees = CartesianTrees::new(&numbers, s, count);
        RMQSpanningBlocks {
            block_size: s,
            block_count: count,
            block_minimum_sparse,
            block_minimum_position_in_block: positions,
            cartesian_trees,
            numbers,
        }
    }

    /// Leftmost minimum of block `k` between offsets `f` and `t`.
    fn block_part(&self, k: usize, f: usize, t: usize) -> (r: usize)
        requires
            self.wf(),
            k < self.block_count,
            f <= t,
            k * self.block_size + t <= block_last(
                self@.len() as int,
                self.block_size as int,
                k as int,
            ),
        ensures
            is_argmin(
                self@,
                k * self.block_size + f,
                k * self.block_size + t,
                r as int,
            ),
    {
        let n = self.numbers.len();
        let ghost a = self.numbers@;
        let s = self.block_size;
        proof {
            lemma_mul_inequality(k as int, (self.block_count - 1) as int, s as int);
            lemma_block_slice(a, s as int, k as int);
        }
        let off = self.cartesian_trees.range_minimum_query(k, f, t);
        proof {
            lemma_argmin_shift(
                a,
                k * s,
                block_of(a, s as int, k as int),
                f as int,
                t as int,
                off as int,
            );
        }
        k * s + off
    }

    /// Leftmost minimum of the whole blocks `fb..=lb`.
    fn whole_blocks(&self, fb: usize, lb: usize) -> (r: usize)
        requires
            self.wf(),
            fb <= lb < self.block_count,
        ensures
            is_argmin(
                self@,
                fb * self.block_size,
                block_last(self@.len() as int, self.block_size as int, lb as int),
                r as int,
            ),
    {
        let n = self.numbers.len();
        let ghost a = self.numbers@;
        let s = self.block_size;
        let kb = match self.block_minimum_sparse.range_minimum_query(fb, lb) {
            Ok(kb) => kb,
            Err(_) => 0,
        };
        proof {
            lemma_blocks_argmin(
                a,
                s as int,
                self.block_count as int,
                self.block_minimum_sparse@,
                self.block_minimum_position_in_block@,
                fb as int,
                lb as int,
                kb as int,
            );
            assert(block_min_ok(
                a,
                s as int,
                kb as int,
                self.block_minimum_sparse@,
                self.block_minimum_position_in_block@,
            ));
            lemma_mul_inequality(kb as int, (self.block_count - 1) as int, s as int);
        }
        kb * s + self.block_minimum_position_in_block[kb]
    }

    /// Position of the leftmost minimum of `numbers[from..=to]`.
    #[verifier::rlimit(30)]
    pub fn range_minimum_query(&self, from: usize, to: usize) -> (r: Result<usize, RMQError>)
        requires
            self.wf(),
        ensures
            rmq_result(self@, from as int, to as int, r),
    {
        let n = self.numbers.len();
        if from > to || to >= n {
            return Err(RMQError::OutOfRange);
        }
        let ghost a = self.numbers@;
        let s = self.block_size;
        let bi = from / s;
        let oi = from % s;
        let bj = to / s;
        let oj = to % s;
        proof {
            lemma_block_index(s as int, from as int, 0, (self.block_count - 1) as int, n as int);
            lemma_block_index(s as int, to as int, 0, (self.block_count - 1) as int, n as int);
            lemma_fundamental_div_mod(from as int, s as int);
            lemma_fundamental_div_mod(to as int, s as int);
            lemma_mul_is_commutative(s as int, bi as int);
            lemma_mul_is_commutative(s as int, bj as int);
            vstd::arithmetic::div_mod::lemma_div_is_ordered(from as int, to as int, s as int);
            lemma_mul_is_distributive_add_other_way(s as int, bi as int, 1);
            lemma_mul_is_distributive_add_other_way(s as int, bj as int, 1);
        }
        let start_i = from - oi;
        let start_j = to - oj;
        let last_j: usize = if n - start_j <= s {
            n - 1
        } else {
            start_j + s - 1
        };
        assert(block_last(n as int, s as int, bj as int) == last_j);
        if bi == bj {
            return Ok(self.block_part(bi, oi, oj));
        }
        proof {
            lemma_mul_inequality((bi + 1) as int, bj as int, s as int);
        }
        let mut best: usize = 0;
        let mut have = false;
        let mut first_block = bi;
        let ghost mut covered_end: int = from - 1;
        if oi > 0 {
            best = self.block_part(bi, oi, s - 1);
            have = true;
            first_block = bi + 1;
            proof {
                covered_end = start_i + s - 1;
            }
        }
        let mut last_block = bj;
        let mut right: usize = 0;
        let mut have_right = false;
        if oj < last_j - start_j {
            right = self.block_part(bj, 0, oj);
            have_right = true;
            last_block = bj - 1;
        }
        if first_block <= last_block {
            let cand = self.whole_blocks(first_block, last_block);
            let ghost seg_end = block_last(n as int, s as int, last_block as int);
            proof {
                lemma_mul_is_distributive_add_other_way(s as int, (bj - 1) as int, 1);
            }
            if have {
                proof {
                    lemma_argmin_union(
                        a,
                        from as int,
                        covered_end,
                        first_block * s,
                        seg_end,
                        best as int,
                        cand as int,
                    );
                }
                if self.numbers[cand] < self.numbers[best] {
                    best = cand;
                }
            } else {
                best = cand;
                have = true;
            }
            proof {
                covered_end = seg_end;
            }
        }
        if have_right {
            if have {
                proof {
                    lemma_argmin_union(
                        a,
                        from as int,
                        covered_end,
                        start_j as int,
                        to as int,
                        best as int,
                        right as int,
                    );
                }
                if self.numbers[right] < self.numbers[best] {
                    best = right;
                }
            } else {
                best = right;
            }
        }
        Ok(best)
    }
}

/// Block `k` starts at `k * s` and ends at its last position.
proof fn lemma_block_slice(a: Seq<u64>, s: int, k: int)
    requires
        1 <= s,
        0 <= k,
        k * s < a.len(),
    ensures
        block_of(a, s, k).len() == block_last(a.len() as int, s, k) - k * s + 1,
        forall|t: int|
            0 <= t < block_of(a, s, k).len() ==> #[trigger] block_of(a, s, k)[t] == a[k * s + t],
{
    lemma_mul_is_distributive_add_other_way(s, k, 1);
}

/// A leftmost minimum inside a window is one in the whole array.
proof fn lemma_argmin_shift(a: Seq<u64>, start: int, blk: Seq<u64>, f: int, x: int, k: int)
    requires
        0 <= start,
        start + blk.len() <= a.len(),
        forall|t: int| 0 <= t < blk.len() ==> #[trigger] blk[t] == a[start + t],
        0 <= f <= x < blk.len(),
        is_argmin(blk, f, x, k),
    ensures
        is_argmin(a, start + f, start + x, start + k),
{
    assert forall|m: int| start + f <= m <= start + x implies a[start + k] <= #[trigger] a[m] by {
        assert(blk[m - start] == a[m]);
        assert(blk[k] <= blk[m - start]);
    }
    assert forall|m: int| start + f <= m < start + k implies a[start + k] < #[trigger] a[m] by {
        assert(blk[m - start] == a[m]);
        assert(blk[k] < blk[m - start]);
    }
}

impl RMQ for RMQSpanningBlocks {
    open spec fn numbers(&self) -> Seq<u64> {
        self@
    }

    closed spec fn wf(&self) -> bool {
        RMQSpanningBlocks::wf(self)
    }

    fn new(numbers: Vec<u64>) -> (r: Self) {
        RMQSpanningBlocks::new(numbers)
    }

    fn range_minimum_query(&self, from: usize, to: usize) -> (r: Result<usize, RMQError>) {
        RMQSpanningBlocks::range_minimum_query(self, from, to)
    }
}

} // verus!
