use crate::bits::{bit_of, is_select, lemma_rank_bounds, lemma_rank_complement, lemma_rank_prefix, rank_of};
use crate::bitvector::{Bitvector, MyError};
use vstd::prelude::*;

verus! {

/// Keys in ascending order.
pub open spec fn sorted(keys: Seq<u64>) -> bool {
    forall|a: int, b: int| 0 <= a <= b < keys.len() ==> keys[a] <= keys[b]
}

/// `r` is the largest key not above `q`, or `u64::MAX` when every key is above `q`.
pub open spec fn is_pred(keys: Seq<u64>, q: u64, r: u64) -> bool {
    if exists|i: int| 0 <= i < keys.len() && keys[i] <= q {
        &&& r <= q
        &&& exists|i: int| 0 <= i < keys.len() && keys[i] == r
        &&& forall|i: int| 0 <= i < keys.len() && keys[i] <= q ==> keys[i] <= r
    } else {
        r == u64::MAX
    }
}

/// The bits of `x` above its lowest `lb`.
pub open spec fn high(x: u64, lb: u64) -> u64 {
    x >> lb
}

/// The lowest `lb` bits of `x`.
pub open spec fn low(x: u64, lb: u64) -> u64 {
    x & !(0xffff_ffff_ffff_ffffu64 << lb)
}

/// The `i`-th key is marked in the bucket bitmap `u` at its high part plus `i`.
pub open spec fn pos_ok(u: Seq<bool>, keys: Seq<u64>, lb: u64, i: int) -> bool {
    let p = high(keys[i], lb) + i;
    &&& p < u.len()
    &&& u[p]
    &&& rank_of(u, true, p) == i
}

/// Bit `j` of the low part of key `i` in the packed array of low parts.
pub open spec fn low_bit(lower: Seq<bool>, lb: int, i: int, j: int) -> bool {
    lower[i * lb + j]
}

proof fn lemma_split_order(x: u64, y: u64, lb: u64)
    requires
        lb < 64,
    ensures
        x <= y ==> high(x, lb) <= high(y, lb),
        high(x, lb) < high(y, lb) ==> x < y,
        high(x, lb) == high(y, lb) ==> (x <= y <==> low(x, lb) <= low(y, lb)),
{
    assert(x <= y ==> (x >> lb) <= (y >> lb)) by (bit_vector)
        requires
            lb < 64,
    ;
    assert((x >> lb) < (y >> lb) ==> x < y) by (bit_vector)
        requires
            lb < 64,
    ;
    assert((x >> lb) == (y >> lb) ==> (x <= y <==> (x & !(0xffff_ffff_ffff_ffffu64 << lb)) <= (y
        & !(0xffff_ffff_ffff_ffffu64 << lb)))) by (bit_vector)
        requires
            lb < 64,
    ;
}

proof fn lemma_join(x: u64, lb: u64)
    requires
        lb < 64,
    ensures
        (high(x, lb) << lb) | low(x, lb) == x,
{
    assert(((x >> lb) << lb) | (x & !(0xffff_ffff_ffff_ffffu64 << lb)) == x) by (bit_vector)
        requires
            lb < 64,
    ;
}

proof fn lemma_low_step(x: u64, j: u64)
    requires
        j < 63,
    ensures
        bit_of(x, j) ==> low(x, j) | (1u64 << j) == low(x, (j + 1) as u64),
        !bit_of(x, j) ==> low(x, j) == low(x, (j + 1) as u64),
        low(x, 0) == 0,
{
    assert((x >> j) & 1u64 == 1u64 ==> (x & !(0xffff_ffff_ffff_ffffu64 << j)) | (1u64 << j) == x
        & !(0xffff_ffff_ffff_ffffu64 << ((j + 1) as u64))) by (bit_vector)
        requires
            j < 63,
    ;
    assert((x >> j) & 1u64 != 1u64 ==> (x & !(0xffff_ffff_ffff_ffffu64 << j)) == x & !(
    0xffff_ffff_ffff_ffffu64 << ((j + 1) as u64))) by (bit_vector)
        requires
            j < 63,
    ;
    assert(x & !(0xffff_ffff_ffff_ffffu64 << 0u64) == 0) by (bit_vector);
}

/// Ranks of a sequence up to its old length survive a push.
proof fn lemma_push_keeps(u: Seq<bool>, b: bool, keys: Seq<u64>, lb: u64, n: int)
    requires
        0 <= n <= keys.len(),
        forall|i: int| 0 <= i < n ==> #[trigger] pos_ok(u, keys, lb, i),
    ensures
        forall|i: int| 0 <= i < n ==> #[trigger] pos_ok(u.push(b), keys, lb, i),
        rank_of(u.push(b), true, u.len() as int) == rank_of(u, true, u.len() as int),
{
    assert forall|i: int| 0 <= i < n implies #[trigger] pos_ok(u.push(b), keys, lb, i) by {
        assert(pos_ok(u, keys, lb, i));
        let p = high(keys[i], lb) + i;
        lemma_rank_prefix(u, u.push(b), true, p);
    }
    lemma_rank_prefix(u, u.push(b), true, u.len() as int);
}

/// Relies on `slice::sort_unstable`: the keys end up in ascending order, as the same
/// multiset.
#[verifier::external_body]
fn sort_keys(v: &mut Vec<u64>)
    ensures
        sorted(final(v)@),
        final(v)@.to_multiset() == old(v)@.to_multiset(),
{
    v.sort_unstable();
}

/// Where the `t`-th zero of the bucket bitmap lies, the ones before it are exactly
/// the keys whose high part is below `t`.
proof fn lemma_bucket(u: Seq<bool>, keys: Seq<u64>, lb: u64, t: int, z: int)
    requires
        sorted(keys),
        lb < 64,
        forall|i: int| 0 <= i < keys.len() ==> #[trigger] pos_ok(u, keys, lb, i),
        rank_of(u, true, u.len() as int) == keys.len(),
        is_select(u, false, t, z),
    ensures
        rank_of(u, true, z) <= keys.len(),
        forall|i: int| 0 <= i < rank_of(u, true, z) ==> high(#[trigger] keys[i], lb) < t,
        forall|i: int| rank_of(u, true, z) <= i < keys.len() ==> high(#[trigger] keys[i], lb) >= t,
{
    let c = rank_of(u, true, z) as int;
    let n = keys.len() as int;
    lemma_rank_complement(u, z);
    lemma_rank_bounds(u, true, z, u.len() as int);
    if c < n {
        assert(pos_ok(u, keys, lb, c));
        let pc = high(keys[c], lb) + c;
        if pc < z {
            lemma_rank_bounds(u, true, pc + 1, z);
        }
        assert forall|i: int| c <= i < n implies high(#[trigger] keys[i], lb) >= t by {
            lemma_split_order(keys[c], keys[i], lb);
        }
    }
    if c > 0 {
        assert(pos_ok(u, keys, lb, c - 1));
        let pc = high(keys[c - 1], lb) + c - 1;
        if pc >= z {
            lemma_rank_bounds(u, true, z, pc);
        }
        assert forall|i: int| 0 <= i < c implies high(#[trigger] keys[i], lb) < t by {
            lemma_split_order(keys[i], keys[c - 1], lb);
        }
    }
}

/// When exactly the first `c` keys are at most `q`, the predecessor of `q` is the
/// `c`-th key, or the sentinel when `c` is zero.
proof fn lemma_pred_from_count(keys: Seq<u64>, q: u64, c: int)
    requires
        sorted(keys),
        0 <= c <= keys.len(),
        forall|m: int| 0 <= m < c ==> #[trigger] keys[m] <= q,
        forall|m: int| c <= m < keys.len() ==> #[trigger] keys[m] > q,
    ensures
        c == 0 ==> is_pred(keys, q, u64::MAX),
        c > 0 ==> is_pred(keys, q, keys[c - 1]),
{
    if c > 0 {
        assert(keys[c - 1] <= q);
    }
}

/// Elias-Fano predecessor index over a multiset of keys.
///
/// Each key is split into a high part, recorded in unary in a bucket bitmap (the
/// `i`-th key sets the bit at its high part plus `i`), and a low part of
/// `lower_bits` bits, packed in key order.
pub struct PD {
    numbers_count: u64,
    upper: Bitvector,
    lower: Vec<bool>,
    upper_bits: u64,
    lower_bits: u64,
    keys: Ghost<Seq<u64>>,
}

impl PD {
    /// The keys, in ascending order.
    pub closed spec fn view(&self) -> Seq<u64> {
        self.keys@
    }

    pub closed spec fn wf(&self) -> bool {
        let keys = self.keys@;
        let n = keys.len() as int;
        let lb = self.lower_bits;
        let u = self.upper@;
        &&& n >= 1
        &&& self.numbers_count == n
        &&& sorted(keys)
        &&& lb < 64
        &&& 1 <= self.upper_bits < 63
        &&& self.upper.wf()
        &&& u.len() == n + (1u64 << self.upper_bits)
        &&& forall|i: int| 0 <= i < n ==> high(#[trigger] keys[i], lb) < (1u64 << self.upper_bits)
        &&& forall|i: int| 0 <= i < n ==> #[trigger] pos_ok(u, keys, lb, i)
        &&& rank_of(u, true, u.len() as int) == n
        &&& self.lower@.len() == n * lb
        &&& forall|i: int, j: int|
            0 <= i < n && 0 <= j < lb ==> #[trigger] low_bit(self.lower@, lb as int, i, j)
                == bit_of(keys[i], j as u64)
    }

    /// Sorts `numbers` and builds the index over them.
    #[verifier::loop_isolation(false)]
    pub fn new(numbers: &mut Vec<u64>) -> (r: Self)
        requires
            1 <= old(numbers)@.len() <= usize::MAX / 64,
        ensures
            r.wf(),
            r@ == final(numbers)@,
            sorted(final(numbers)@),
            final(numbers)@.to_multiset() == old(numbers)@.to_multiset(),
    {
        proof {
            old(numbers)@.to_multiset_ensures();
        }
        sort_keys(numbers);
        proof {
            numbers@.to_multiset_ensures();
        }
        let ghost keys = numbers@;
        let n = numbers.len();
        let u = numbers[n - 1];
        let mut ub: u64 = 1;
        loop
            invariant
                1 <= ub <= 58,
                ub == 1 || (1u64 << ((ub - 1) as u64)) < n as u64,
            decreases 64 - ub,
        {
            if (1u64 << ub) >= n as u64 {
                break ;
            }
            proof {
                let nn = n as u64;
                assert((1u64 << ub) < nn && nn <= 0x03ff_ffff_ffff_ffffu64 && ub < 64 ==> ub < 58)
                    by (bit_vector);
            }
            ub = ub + 1;
        }
        let nb: u64 = 1u64 << ub;
        proof {
            assert(1 <= ub < 63 ==> (1u64 << ub) == 2 * (1u64 << ((ub - 1) as u64))) by (bit_vector);
            assert((1u64 << 1u64) == 2) by (bit_vector);
        }
        let mut lb: u64 = 0;
        while (u >> lb) >= nb
            invariant
                lb <= 63,
                nb == 1u64 << ub,
                1 <= ub <= 58,
            decreases 64 - lb,
        {
            proof {
                assert((u >> lb) >= (1u64 << ub) && ub >= 1 && ub < 64 && lb < 64 ==> lb < 63)
                    by (bit_vector);
            }
            lb = lb + 1;
        }
        proof {
            assert forall|k: int| 0 <= k < n implies high(#[trigger] keys[k], lb) < nb by {
                lemma_split_order(keys[k], u, lb);
            }
        }
        let nb_len = nb as usize;
        let mut upper_vec: Vec<bool> = Vec::new();
        let mut lower_vec: Vec<bool> = Vec::new();
        let mut cur: u64 = 0;
        let mut i: usize = 0;
        while i < n
            invariant
                i <= n,
                upper_vec@.len() == cur + i,
                i > 0 ==> cur == high(keys[i - 1], lb),
                i == 0 ==> cur == 0,
                forall|k: int| 0 <= k < i ==> #[trigger] pos_ok(upper_vec@, keys, lb, k),
                rank_of(upper_vec@, true, upper_vec@.len() as int) == i,
                lower_vec@.len() == i * lb,
                forall|k: int, j: int|
                    0 <= k < i && 0 <= j < lb ==> #[trigger] low_bit(lower_vec@, lb as int, k, j)
                        == bit_of(keys[k], j as u64),
            decreases n - i,
        {
            let x = numbers[i];
            let h = x >> lb;
            proof {
                if i > 0 {
                    lemma_split_order(keys[i - 1], x, lb);
                }
            }
            while cur < h
                invariant
                    cur <= h,
                    upper_vec@.len() == cur + i,
                    forall|k: int| 0 <= k < i ==> #[trigger] pos_ok(upper_vec@, keys, lb, k),
                    rank_of(upper_vec@, true, upper_vec@.len() as int) == i,
                decreases h - cur,
            {
                let ghost u0 = upper_vec@;
                upper_vec.push(false);
                proof {
                    lemma_push_keeps(u0, false, keys, lb, i as int);
                }
                cur = cur + 1;
            }
            let ghost u0 = upper_vec@;
            upper_vec.push(true);
            proof {
                lemma_push_keeps(u0, true, keys, lb, i as int);
                assert(pos_ok(upper_vec@, keys, lb, i as int));
                assert forall|k: int| 0 <= k <= i implies #[trigger] pos_ok(upper_vec@, keys, lb, k) by {
                }
            }
            let ghost l0 = lower_vec@;
            let mut j: u64 = 0;
            while j < lb
                invariant
                    j <= lb,
                    lower_vec@.len() == i * lb + j,
                    forall|k: int| 0 <= k < i * lb ==> lower_vec@[k] == l0[k],
                    forall|t: int| 0 <= t < j ==> #[trigger] low_bit(lower_vec@, lb as int, i as int, t) == bit_of(x, t as u64),
                decreases lb - j,
            {
                let ghost lv = lower_vec@;
                lower_vec.push((x >> j) & 1u64 == 1u64);
                proof {
                    assert forall|t: int| 0 <= t < j + 1 implies #[trigger] low_bit(
                        lower_vec@,
                        lb as int,
                        i as int,
                        t,
                    ) == bit_of(x, t as u64) by {
                        if t < j {
                            assert(low_bit(lv, lb as int, i as int, t) == bit_of(x, t as u64));
                        }
                    }
                }
                j = j + 1;
            }
            proof {
                vstd::arithmetic::mul::lemma_mul_is_distributive_add_other_way(lb as int, i as int, 1);
                assert forall|k: int, t: int|
                    0 <= k <= i && 0 <= t < lb implies #[trigger] low_bit(lower_vec@, lb as int, k, t)
                    == bit_of(keys[k], t as u64) by {
                    if k < i {
                        vstd::arithmetic::mul::lemma_mul_inequality(k + 1, i as int, lb as int);
                        vstd::arithmetic::mul::lemma_mul_is_distributive_add_other_way(lb as int, k, 1);
                        assert(low_bit(l0, lb as int, k, t) == bit_of(keys[k], t as u64));
                    }
                }
            }
            cur = h;
            i = i + 1;
        }
        while upper_vec.len() < n + nb_len
            invariant
                upper_vec@.len() <= n + nb,
                forall|k: int| 0 <= k < n ==> #[trigger] pos_ok(upper_vec@, keys, lb, k),
                rank_of(upper_vec@, true, upper_vec@.len() as int) == n,
            decreases n + nb - upper_vec@.len(),
        {
            let ghost u0 = upper_vec@;
            upper_vec.push(false);
            proof {
                lemma_push_keeps(u0, false, keys, lb, n as int);
            }
        }
        let upper = Bitvector::new(upper_vec);
        PD {
            numbers_count: n as u64,
            upper,
            lower: lower_vec,
            upper_bits: ub,
            lower_bits: lb,
            keys: Ghost(keys),
        }
    }

    /// Low part of the `i`-th key, read from the packed array.
    fn get_lower_bits(&self, i: u64) -> (r: u64)
        requires
            self.wf(),
            i < self@.len(),
        ensures
            r == low(self@[i as int], self.lower_bits),
    {
        let lb = self.lower_bits;
        let ghost x = self.keys@[i as int];
        let total = self.lower.len();
        proof {
            vstd::arithmetic::mul::lemma_mul_inequality(i + 1, self.keys@.len() as int, lb as int);
            vstd::arithmetic::mul::lemma_mul_is_distributive_add_other_way(lb as int, i as int, 1);
        }
        let start64 = i * lb;
        let start = start64 as usize;
        let mut r: u64 = 0;
        let mut j: u64 = 0;
        proof {
            lemma_low_step(x, 0);
        }
        while j < lb
            invariant
                self.wf(),
                lb == self.lower_bits,
                x == self.keys@[i as int],
                i < self.keys@.len(),
                start == i * lb,
                start + lb <= total,
                total == self.lower@.len(),
                j <= lb,
                r == low(x, j),
            decreases lb - j,
        {
            proof {
                lemma_low_step(x, j);
                assert(low_bit(self.lower@, lb as int, i as int, j as int) == bit_of(x, j));
            }
            if self.lower[start + j as usize] {
                r = r | (1u64 << j);
            }
            j = j + 1;
        }
        r
    }

    /// The `i`-th smallest key, counting from zero.
    pub fn access(&self, i: u64) -> (r: Result<u64, MyError>)
        requires
            self.wf(),
            i < self@.len(),
        ensures
            r == Ok::<u64, MyError>(self@[i as int]),
    {
        let ghost u = self.upper@;
        let ghost x = self.keys@[i as int];
        let ghost p = high(x, self.lower_bits) + i;
        proof {
            assert(pos_ok(u, self.keys@, self.lower_bits, i as int));
            assert(is_select(u, true, i + 1, p));
        }
        let pos = match self.upper.select1(i + 1) {
            Ok(p) => p,
            Err(e) => {
                return Err(e);
            },
        };
        proof {
            crate::bits::lemma_select_unique(u, true, i + 1, p, pos as int);
            lemma_join(x, self.lower_bits);
        }
        let upper_part = pos - i;
        let lower_part = self.get_lower_bits(i);
        Ok((upper_part << self.lower_bits) | lower_part)
    }

    /// The largest key at most `q`, or `u64::MAX` when every key is above `q`.
    #[verifier::loop_isolation(false)]
    pub fn pred(&self, q: u64) -> (r: Result<u64, MyError>)
        requires
            self.wf(),
        ensures
            r matches Ok(v) && is_pred(self@, q, v),
    {
        let ghost keys = self.keys@;
        let ghost u = self.upper@;
        let n = self.numbers_count;
        let lb = self.lower_bits;
        let nb: u64 = 1u64 << self.upper_bits;
        let (lq, _) = self.split(q);
        let hq = q >> lb;
        proof {
            lemma_rank_complement(u, u.len() as int);
        }
        let count: u64 = if hq >= nb {
            proof {
                assert forall|m: int| 0 <= m < n implies #[trigger] keys[m] <= q by {
                    lemma_split_order(keys[m], q, lb);
                }
            }
            n
        } else {
            let z: u64 = if hq == 0 {
                0
            } else {
                match self.upper.select0(hq) {
                    Ok(z) => z,
                    Err(_) => {
                        return Ok(u64::MAX);
                    },
                }
            };
            let z2 = match self.upper.select0(hq + 1) {
                Ok(z) => z,
                Err(_) => {
                    return Ok(u64::MAX);
                },
            };
            proof {
                lemma_bucket(u, keys, lb, hq + 1, z2 as int);
                if hq > 0 {
                    lemma_bucket(u, keys, lb, hq as int, z as int);
                    if z2 <= z {
                        lemma_rank_bounds(u, false, z2 as int, z as int);
                    }
                    lemma_rank_bounds(u, true, z as int, z2 as int);
                }
            }
            let first: u64 = if hq == 0 {
                0
            } else {
                self.upper.rank1(z)
            };
            let end = self.upper.rank1(z2);
            proof {
                assert forall|m: int| first <= m < end implies high(#[trigger] keys[m], lb) == hq by {}
            }
            let mut lo_i = first;
            let mut hi_i = end;
            while lo_i < hi_i
                invariant
                    first <= lo_i <= hi_i <= end <= n,
                    forall|m: int| first <= m < lo_i ==> low(#[trigger] keys[m], lb) <= lq,
                    forall|m: int| hi_i <= m < end ==> low(#[trigger] keys[m], lb) > lq,
                decreases hi_i - lo_i,
            {
                let mid = lo_i + (hi_i - lo_i) / 2;
                let lm = self.get_lower_bits(mid);
                if lm <= lq {
                    proof {
                        assert forall|m: int| first <= m < mid + 1 implies low(#[trigger] keys[m], lb) <= lq by {
                            if m >= lo_i {
                                lemma_split_order(keys[m], keys[mid as int], lb);
                            }
                        }
                    }
                    lo_i = mid + 1;
                } else {
                    proof {
                        assert forall|m: int| mid <= m < end implies low(#[trigger] keys[m], lb) > lq by {
                            if m < hi_i {
                                lemma_split_order(keys[mid as int], keys[m], lb);
                            }
                        }
                    }
                    hi_i = mid;
                }
            }
            proof {
                assert forall|m: int| 0 <= m < lo_i implies #[trigger] keys[m] <= q by {
                    lemma_split_order(keys[m], q, lb);
                }
                assert forall|m: int| lo_i <= m < n implies #[trigger] keys[m] > q by {
                    lemma_split_order(q, keys[m], lb);
                }
            }
            lo_i
        };
        proof {
            lemma_pred_from_count(keys, q, count as int);
        }
        if count == 0 {
            Ok(u64::MAX)
        } else {
            self.access(count - 1)
        }
    }

    /// Low part and high part of `i` when the low part has `lower_bits` bits.
    pub fn split_with_bit_distribution(i: u64, lower_bits: u64, upper_bits: u64) -> (r: (
        u64,
        usize,
    ))
        requires
            lower_bits < 64,
        ensures
            r.0 == low(i, lower_bits),
            r.1 == high(i, lower_bits) as usize,
    {
        let lower = i & !(0xffff_ffff_ffff_ffffu64 << lower_bits);
        let upper = (i >> lower_bits) as usize;
        (lower, upper)
    }

    fn split(&self, i: u64) -> (r: (u64, usize))
        requires
            self.wf(),
        ensures
            r.0 == low(i, self.lower_bits),
            r.1 == high(i, self.lower_bits) as usize,
    {
        Self::split_with_bit_distribution(i, self.lower_bits, self.upper_bits)
    }
}

/// The keys of a built index, read by position, are the input keys in ascending
/// order: `access(i)` is the `i`-th smallest input key.
pub proof fn law_access_is_ith_smallest(input: Seq<u64>, keys: Seq<u64>, i: int)
    requires
        sorted(keys),
        keys.to_multiset() == input.to_multiset(),
        0 <= i < keys.len(),
    ensures
        input.sort_by(|x: u64, y: u64| x <= y).len() == keys.len(),
        keys[i] == input.sort_by(|x: u64, y: u64| x <= y)[i],
{
    let leq = |x: u64, y: u64| x <= y;
    assert(vstd::relations::total_ordering(leq));
    input.lemma_sort_by_ensures(leq);
    assert(vstd::relations::sorted_by(keys, leq)) by {
        assert forall|a: int, b: int| 0 <= a < b < keys.len() implies #[trigger] leq(
            keys[a],
            keys[b],
        ) by {
            assert(keys[a] <= keys[b]);
        }
    }
    vstd::seq_lib::lemma_sorted_unique(keys, input.sort_by(leq), leq);
}

/// A predecessor is at most the query, or the sentinel.
pub proof fn law_pred_bounded(keys: Seq<u64>, q: u64, r: u64)
    requires
        is_pred(keys, q, r),
    ensures
        r <= q || r == u64::MAX,
{
}

/// Every stored key is its own predecessor.
pub proof fn law_pred_of_key(keys: Seq<u64>, i: int, r: u64)
    requires
        0 <= i < keys.len(),
        is_pred(keys, keys[i], r),
    ensures
        r == keys[i],
{
    assert(keys[i] <= keys[i]);
}

/// No stored key lies strictly above a predecessor and at most the query.
pub proof fn law_pred_gap(keys: Seq<u64>, q: u64, r: u64)
    requires
        is_pred(keys, q, r),
        r != u64::MAX,
    ensures
        forall|i: int| 0 <= i < keys.len() ==> !(r < #[trigger] keys[i] && keys[i] <= q),
{
}

/// Where defined, the predecessor does not decrease as the query grows.
pub proof fn law_pred_monotone(keys: Seq<u64>, q1: u64, q2: u64, r1: u64, r2: u64)
    requires
        q1 <= q2,
        is_pred(keys, q1, r1),
        is_pred(keys, q2, r2),
        r1 != u64::MAX,
    ensures
        r1 <= r2,
{
    if exists|i: int| 0 <= i < keys.len() && keys[i] <= q1 {
        let i = choose|i: int| 0 <= i < keys.len() && keys[i] == r1;
        assert(keys[i] <= q2);
    }
}

} // verus!
