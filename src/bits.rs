use vstd::prelude::*;

verus! {

/// Number of entries equal to `v` among the first `i` entries of `s`.
pub open spec fn rank_of(s: Seq<bool>, v: bool, i: int) -> nat
    decreases i,
{
    if i <= 0 {
        0
    } else {
        rank_of(s, v, i - 1) + if s[i - 1] == v {
            1nat
        } else {
            0nat
        }
    }
}

/// `p` is the position of the `j`-th (counting from one) entry equal to `v` in `s`.
pub open spec fn is_select(s: Seq<bool>, v: bool, j: int, p: int) -> bool {
    &&& 0 <= p < s.len()
    &&& s[p] == v
    &&& rank_of(s, v, p) + 1 == j
}

/// Bit `j` of `x`, counting from the least significant one.
pub open spec fn bit_of(x: u64, j: u64) -> bool {
    (x >> j) & 1u64 == 1u64
}

/// Number of set bits among the lowest `p` bits of `x`.
pub open spec fn low_count(x: u64, p: int) -> nat
    decreases p,
{
    if p <= 0 {
        0
    } else {
        low_count(x, p - 1) + if bit_of(x, (p - 1) as u64) {
            1nat
        } else {
            0nat
        }
    }
}

pub proof fn lemma_rank_bounds(s: Seq<bool>, v: bool, a: int, b: int)
    requires
        0 <= a <= b,
    ensures
        rank_of(s, v, a) <= rank_of(s, v, b),
        rank_of(s, v, b) - rank_of(s, v, a) <= b - a,
    decreases b - a,
{
    if a < b {
        lemma_rank_bounds(s, v, a, b - 1);
    }
}

pub proof fn lemma_rank_complement(s: Seq<bool>, i: int)
    requires
        0 <= i,
    ensures
        rank_of(s, true, i) + rank_of(s, false, i) == i,
    decreases i,
{
    if i > 0 {
        lemma_rank_complement(s, i - 1);
    }
}

/// The rank up to `i` reads only the first `i` entries.
pub proof fn lemma_rank_prefix(s: Seq<bool>, t: Seq<bool>, v: bool, i: int)
    requires
        0 <= i <= s.len(),
        i <= t.len(),
        forall|k: int| 0 <= k < i ==> s[k] == t[k],
    ensures
        rank_of(s, v, i) == rank_of(t, v, i),
    decreases i,
{
    if i > 0 {
        lemma_rank_prefix(s, t, v, i - 1);
    }
}

/// Rank over a window of `s` is the difference of two ranks of `s`.
pub proof fn lemma_rank_window(s: Seq<bool>, v: bool, start: int, i: int)
    requires
        0 <= start,
        0 <= i,
        start + i <= s.len(),
    ensures
        rank_of(s.subrange(start, start + i), v, i) == rank_of(s, v, start + i) - rank_of(
            s,
            v,
            start,
        ),
    decreases i,
{
    if i > 0 {
        lemma_rank_window(s, v, start, i - 1);
        lemma_rank_bounds(s, v, start, start + i - 1);
        lemma_rank_prefix(
            s.subrange(start, start + i),
            s.subrange(start, start + i - 1),
            v,
            i - 1,
        );
    }
}

/// At most one position holds the `j`-th entry equal to `v`.
pub proof fn lemma_select_unique(s: Seq<bool>, v: bool, j: int, p: int, q: int)
    requires
        is_select(s, v, j, p),
        is_select(s, v, j, q),
    ensures
        p == q,
{
    if p < q {
        lemma_rank_bounds(s, v, p + 1, q);
    } else if q < p {
        lemma_rank_bounds(s, v, q + 1, p);
    }
}

/// A position holding `v` has rank one above every earlier position holding `v`.
pub proof fn lemma_rank_strict(s: Seq<bool>, v: bool, p: int, q: int)
    requires
        0 <= p < q <= s.len(),
        s[p] == v,
    ensures
        rank_of(s, v, p) < rank_of(s, v, q),
{
    lemma_rank_bounds(s, v, p + 1, q);
}

pub proof fn lemma_low_count_bound(x: u64, p: int)
    requires
        0 <= p,
    ensures
        low_count(x, p) <= p,
    decreases p,
{
    if p > 0 {
        lemma_low_count_bound(x, p - 1);
    }
}

proof fn lemma_set_bit(x: u64, j: u64, t: u64)
    requires
        j < 63,
        t < 64,
        x < (1u64 << j),
    ensures
        ((x | (1u64 << j)) >> t) & 1u64 == (if t == j {
            1u64
        } else {
            (x >> t) & 1u64
        }),
        (x | (1u64 << j)) < (1u64 << ((j + 1) as u64)),
{
    assert(((x | (1u64 << j)) >> t) & 1u64 == (if t == j {
        1u64
    } else {
        (x >> t) & 1u64
    })) by (bit_vector)
        requires
            j < 63,
            t < 64,
            x < (1u64 << j),
    ;
    assert((x | (1u64 << j)) < (1u64 << ((j + 1) as u64))) by (bit_vector)
        requires
            j < 63,
            x < (1u64 << j),
    ;
}

proof fn lemma_grow_bound(x: u64, j: u64)
    requires
        j < 63,
        x < (1u64 << j),
    ensures
        x < (1u64 << ((j + 1) as u64)),
{
    assert(x < (1u64 << ((j + 1) as u64))) by (bit_vector)
        requires
            j < 63,
            x < (1u64 << j),
    ;
}

proof fn lemma_zero_bits(t: u64)
    requires
        t < 64,
    ensures
        (0u64 >> t) & 1u64 == 0u64,
        0u64 < (1u64 << 0u64),
{
    assert((0u64 >> t) & 1u64 == 0u64) by (bit_vector);
    assert(0u64 < (1u64 << 0u64)) by (bit_vector);
}

/// Reads `width` entries of `data` from `start` on into an integer, the entry at `start`
/// in the least significant bit; entries past the end read as zero.
pub fn read_pattern(data: &[bool], start: usize, width: usize) -> (r: u64)
    requires
        start <= data@.len(),
        width < 63,
    ensures
        r < (1u64 << (width as u64)),
        forall|j: int|
            0 <= j < width ==> #[trigger] bit_of(r, j as u64) == (start + j < data@.len()
                && data@[start + j]),
{
    let mut r: u64 = 0;
    let mut j: usize = 0;
    proof {
        lemma_zero_bits(0);
    }
    while j < width
        invariant
            start <= data@.len(),
            j <= width < 63,
            r < (1u64 << (j as u64)),
            forall|t: int|
                0 <= t < j ==> #[trigger] bit_of(r, t as u64) == (start + t < data@.len()
                    && data@[start + t]),
        decreases width - j,
    {
        let set = j < data.len() - start && data[start + j];
        let nr: u64 = if set {
            r | (1u64 << (j as u64))
        } else {
            r
        };
        proof {
            assert forall|t: int| 0 <= t < j implies #[trigger] bit_of(nr, t as u64) == bit_of(
                r,
                t as u64,
            ) by {
                if set {
                    lemma_set_bit(r, j as u64, t as u64);
                }
            }
            if set {
                lemma_set_bit(r, j as u64, j as u64);
            } else {
                lemma_grow_bound(r, j as u64);
                let rr = r;
                let jj = j as u64;
                assert((rr >> jj) & 1u64 == 0u64) by (bit_vector)
                    requires
                        jj < 63,
                        rr < (1u64 << jj),
                ;
            }
        }
        r = nr;
        j = j + 1;
    }
    r
}

/// Largest `r` with `2^r <= n`, and zero for zero.
pub fn floor_log2(n: u64) -> (r: u64)
    ensures
        r < 64,
        n == 0 ==> r == 0,
        n >= 1 ==> (1u64 << r) <= n && (r == 63 || n < (1u64 << ((r + 1) as u64))),
{
    let mut m: u64 = n;
    let mut r: u64 = 0;
    assert(n >> 0u64 == n) by (bit_vector);
    while m > 1
        invariant
            r < 64,
            m == n >> r,
            n >= 1 ==> m >= 1,
            n == 0 ==> r == 0 && m == 0,
        decreases m,
    {
        proof {
            let rr = r;
            assert((n >> rr) > 1u64 ==> rr < 63) by (bit_vector)
                requires
                    rr < 64,
            ;
            assert((n >> rr) / 2 == n >> ((rr + 1) as u64)) by (bit_vector)
                requires
                    rr < 63,
            ;
        }
        m = m / 2;
        r = r + 1;
    }
    proof {
        let rr = r;
        assert((n >> rr) == 1u64 ==> (1u64 << rr) <= n && (rr == 63 || n < (1u64 << ((rr + 1) as u64)))) by (bit_vector)
            requires
                rr < 64,
        ;
    }
    r
}

/// Number of entries equal to `v` in `data[from..to)`.
pub fn count_in(data: &[bool], v: bool, from: usize, to: usize) -> (r: u64)
    requires
        from <= to <= data@.len(),
    ensures
        r == rank_of(data@, v, to as int) - rank_of(data@, v, from as int),
{
    let mut c: u64 = 0;
    let mut j: usize = from;
    while j < to
        invariant
            from <= j <= to <= data@.len(),
            c == rank_of(data@, v, j as int) - rank_of(data@, v, from as int),
        decreases to - j,
    {
        proof {
            lemma_rank_bounds(data@, v, from as int, j as int);
        }
        if data[j] == v {
            c = c + 1;
        }
        j = j + 1;
    }
    proof {
        lemma_rank_bounds(data@, v, from as int, to as int);
    }
    c
}

/// The set bits of a pattern read from `data` count the ones of the window it was read from.
pub proof fn lemma_pattern_rank(data: Seq<bool>, start: int, x: u64, p: int)
    requires
        0 <= start,
        0 <= p < 64,
        start + p <= data.len(),
        forall|j: int| 0 <= j < p ==> #[trigger] bit_of(x, j as u64) == data[start + j],
    ensures
        low_count(x, p) == rank_of(data, true, start + p) - rank_of(data, true, start),
    decreases p,
{
    if p > 0 {
        lemma_pattern_rank(data, start, x, p - 1);
        assert(bit_of(x, (p - 1) as u64) == data[start + p - 1]);
    }
}

} // verus!
