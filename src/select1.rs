use crate::bits::{
    floor_log2, is_select, lemma_rank_bounds, lemma_rank_prefix, lemma_rank_window, rank_of,
};
use crate::bitvector::{select_naive, select_result, select_simple, MyError};
use crate::select1_naive::Select1Naive;
use crate::select_lookup_table::SelectLookupTable;
use vstd::arithmetic::div_mod::{lemma_fundamental_div_mod, lemma_mod_bound};
use vstd::arithmetic::mul::{
    lemma_mul_inequality, lemma_mul_is_commutative, lemma_mul_is_distributive_add_other_way,
};
use vstd::prelude::*;

verus! {

/// How the target bits inside one superblock are found.
pub enum InSuperblockSelect {
    /// The position of every target bit is stored.
    Naive(Select1Naive),
    /// A second-level index over the superblock.
    Subblock(Select1),
    /// The superblock is short enough to be looked up by its bit pattern.
    LookupTable,
}

/// Constant-time select of ones (or of zeroes) over a bit sequence.
///
/// The target bits are grouped `b` at a time into superblocks; each superblock
/// records where its last target bit lies, and answers ranks inside it by one of
/// the strategies of [`InSuperblockSelect`]. The top-level index nests second-level
/// ones, which in turn may use the shared lookup table.
pub struct Select1 {
    is1: bool,
    /// Number of target bits.
    k: u64,
    /// Target bits per superblock.
    b: u64,
    /// Offset of the last target bit of each full superblock.
    superblock_end_index: Vec<u64>,
    in_superblock: Vec<InSuperblockSelect>,
    lookup_table: SelectLookupTable,
    is_subblock: bool,
}

/// First offset of superblock `g`.
pub open spec fn sb_start(ends: Seq<u64>, g: int) -> int {
    if g == 0 {
        0
    } else {
        ends[g - 1] + 1
    }
}

/// One past the last offset of superblock `g`.
pub open spec fn sb_end(ends: Seq<u64>, g: int, len: int) -> int {
    if g < ends.len() {
        ends[g] + 1
    } else {
        len
    }
}

/// Superblock `g` lies inside a window of `len` bits.
pub open spec fn bounds_ok(ends: Seq<u64>, g: int, len: int) -> bool {
    0 <= sb_start(ends, g) <= sb_end(ends, g, len) <= len
}

/// Superblock `g` ends at the `(g + 1) * b`-th target bit.
pub open spec fn end_ok(seg: Seq<bool>, v: bool, b: int, ends: Seq<u64>, g: int) -> bool {
    &&& ends[g] < seg.len()
    &&& seg[ends[g] as int] == v
    &&& rank_of(seg, v, ends[g] as int) + 1 == (g + 1) * b
}

/// The part of the bits that superblock `g` covers.
pub open spec fn part_of(s: Seq<bool>, base: int, ends: Seq<u64>, g: int, len: int) -> Seq<bool> {
    s.subrange(base + sb_start(ends, g), base + sb_end(ends, g, len))
}

/// Superblock `g` of a nested index lies inside its window and is answered by a
/// table of its positions or by the lookup table of width `w`.
spec fn slot_nested(
    strategies: Seq<InSuperblockSelect>,
    ends: Seq<u64>,
    g: int,
    s: Seq<bool>,
    base: int,
    len: int,
    v: bool,
    w: int,
) -> bool {
    &&& bounds_ok(ends, g, len)
    &&& match strategies[g] {
        InSuperblockSelect::Naive(nv) => nv.wf() && nv.polarity() == v && nv@ == part_of(
            s,
            base,
            ends,
            g,
            len,
        ),
        InSuperblockSelect::Subblock(_) => false,
        InSuperblockSelect::LookupTable => sb_end(ends, g, len) - sb_start(ends, g) <= w,
    }
}

/// Superblock `g` of a top-level index lies inside its window and is answered by a
/// table of its positions or by a nested index.
spec fn slot_top(
    strategies: Seq<InSuperblockSelect>,
    ends: Seq<u64>,
    g: int,
    s: Seq<bool>,
    base: int,
    len: int,
    v: bool,
    w: int,
) -> bool {
    &&& bounds_ok(ends, g, len)
    &&& match strategies[g] {
        InSuperblockSelect::Naive(nv) => nv.wf() && nv.polarity() == v && nv@ == part_of(
            s,
            base,
            ends,
            g,
            len,
        ),
        InSuperblockSelect::Subblock(sub) => sub.is1 == v && sub.wf_nested(
            s,
            base + sb_start(ends, g),
            sb_end(ends, g, len) - sb_start(ends, g),
            w,
        ),
        InSuperblockSelect::LookupTable => false,
    }
}

/// Superblock `g` is answered as its level allows.
spec fn slot_ok(
    strategies: Seq<InSuperblockSelect>,
    ends: Seq<u64>,
    g: int,
    s: Seq<bool>,
    base: int,
    len: int,
    v: bool,
    nested: bool,
    w: int,
) -> bool {
    if nested {
        slot_nested(strategies, ends, g, s, base, len, v, w)
    } else {
        slot_top(strategies, ends, g, s, base, len, v, w)
    }
}

impl Select1 {
    /// Whether the index selects ones (`true`) or zeroes (`false`).
    pub closed spec fn polarity(&self) -> bool {
        self.is1
    }

    /// Counts and superblock ends are right for `s[base..base + len)`.
    spec fn core_ok(&self, s: Seq<bool>, base: int, len: int) -> bool {
        let seg = s.subrange(base, base + len);
        let ends = self.superblock_end_index@;
        let e = ends.len() as int;
        let v = self.is1;
        let b = self.b as int;
        let n_sb = self.in_superblock@.len() as int;
        &&& 0 <= base
        &&& 0 <= len
        &&& base + len <= s.len()
        &&& 1 <= b
        &&& self.k == rank_of(seg, v, len)
        &&& e * b <= self.k < (e + 1) * b
        &&& forall|g: int| 0 <= g < e ==> #[trigger] end_ok(seg, v, b, ends, g)
        &&& e <= n_sb <= e + 1
        &&& self.k > e * b ==> n_sb == e + 1
    }

    /// A nested index answers for `s[base..base + len)`.
    spec fn wf_nested(&self, s: Seq<bool>, base: int, len: int, w: int) -> bool {
        &&& self.is_subblock
        &&& self.core_ok(s, base, len)
        &&& forall|g: int|
            0 <= g < self.in_superblock@.len() ==> #[trigger] slot_nested(
                self.in_superblock@,
                self.superblock_end_index@,
                g,
                s,
                base,
                len,
                self.is1,
                w,
            )
    }

    /// The index answers for `s[base..base + len)`, looking short superblocks up in a
    /// table of width `w`.
    spec fn wf_at(&self, s: Seq<bool>, base: int, len: int, w: int) -> bool {
        &&& self.core_ok(s, base, len)
        &&& forall|g: int|
            0 <= g < self.in_superblock@.len() ==> #[trigger] slot_ok(
                self.in_superblock@,
                self.superblock_end_index@,
                g,
                s,
                base,
                len,
                self.is1,
                self.is_subblock,
                w,
            )
    }

    /// The index, with its lookup table, answers for all of `data`.
    pub closed spec fn wf(&self, data: Seq<bool>) -> bool {
        &&& !self.is_subblock
        &&& self.lookup_table.wf()
        &&& self.lookup_table.polarity() == self.is1
        &&& self.wf_at(data, 0, data.len() as int, self.lookup_table.width())
    }

    /// Builds the top-level index for the ones (`is1`) or zeroes of `data`; nested
    /// indexes (`is_subblock`) are built only from within, for the superblocks that
    /// are neither long nor short.
    pub fn new(data: &[bool], is1: bool, is_subblock: bool) -> (r: Self)
        requires
            !is_subblock,
        ensures
            r.wf(data@),
            r.polarity() == is1,
    {
        let n = data.len();
        let lg = floor_log2(n as u64);
        let w: u64 = if lg >= 1 {
            lg - 1
        } else {
            0
        };
        let b: u64 = if lg >= 1 {
            lg
        } else {
            1
        };
        let mut table = SelectLookupTable::new(is1);
        table.encountered(w as u32);
        table.create();
        let mut r = Self::build(data, 0, n, is1, is_subblock, b, lg, w);
        r.lookup_table = table;
        assert(data@.subrange(0, n as int) =~= data@);
        r
    }

    /// Integer square root, rounded down.
    fn isqrt(x: u64) -> (r: u64)
        requires
            x < 64,
        ensures
            r * r <= x,
            r <= 8,
    {
        let mut r: u64 = 0;
        loop
            invariant
                r * r <= x,
                x < 64,
                r <= 8,
            decreases 8 - r,
        {
            if r == 8 {
                break ;
            }
            let next = r + 1;
            assert(next * next <= 81) by (nonlinear_arith)
                requires
                    next <= 8,
            ;
            if next * next > x {
                break ;
            }
            r = next;
        }
        r
    }

    fn build(
        data: &[bool],
        base: usize,
        len: usize,
        is1: bool,
        is_subblock: bool,
        b: u64,
        lg: u64,
        w: u64,
    ) -> (r: Self)
        requires
            base + len <= data@.len(),
            1 <= b,
            lg < 64,
            w < 63,
            lg <= w + 1,
        ensures
            r.wf_at(data@, base as int, len as int, w as int),
            r.is_subblock == is_subblock,
            r.is1 == is1,
            r.lookup_table.width() == 0,
        decreases (if is_subblock {
            1int
        } else {
            3int
        }),
    {
        let n = data.len();
        let ghost seg = data@.subrange(base as int, base + len);
        let mut ends: Vec<u64> = Vec::new();
        let mut strategies: Vec<InSuperblockSelect> = Vec::new();
        let mut count: u64 = 0;
        let mut in_group: u64 = 0;
        let mut sb_st: usize = 0;
        let mut i: usize = 0;
        assert(ends@.len() * b == 0) by (nonlinear_arith)
            requires
                ends@.len() == 0,
        ;
        while i < len
            invariant
                n == data@.len(),
                base + len <= n,
                seg == data@.subrange(base as int, base + len),
                1 <= b,
                lg < 64,
                w < 63,
                lg <= w + 1,
                i <= len,
                count == rank_of(seg, is1, i as int),
                in_group < b,
                in_group + ends@.len() * b == count,
                sb_st == sb_start(ends@, ends@.len() as int),
                sb_st <= i,
                rank_of(seg, is1, sb_st as int) == ends@.len() * b,
                strategies@.len() == ends@.len(),
                forall|g: int|
                    0 <= g < ends@.len() ==> #[trigger] end_ok(seg, is1, b as int, ends@, g),
                forall|g: int|
                    0 <= g < strategies@.len() ==> #[trigger] slot_ok(strategies@, ends@, g, data@, base as int, len as int, is1, is_subblock, w as int),
            decreases len - i,
        {
            proof {
                lemma_rank_bounds(seg, is1, 0, i as int);
            }
            if data[base + i] == is1 {
                count = count + 1;
                in_group = in_group + 1;
                if in_group == b {
                    let ghost e0 = ends@;
                    let ghost st0 = strategies@;
                    let strategy = Self::in_superblock_for(
                        data,
                        base + sb_st,
                        i + 1 - sb_st,
                        is1,
                        is_subblock,
                        lg,
                        w,
                    );
                    assert(i as u64 == i);
                    ends.push(i as u64);
                    strategies.push(strategy);
                    proof {
                        lemma_mul_is_distributive_add_other_way(b as int, e0.len() as int, 1);
                        assert forall|g: int| 0 <= g < ends@.len() implies #[trigger] end_ok(
                            seg,
                            is1,
                            b as int,
                            ends@,
                            g,
                        ) by {
                            if g < e0.len() {
                                assert(end_ok(seg, is1, b as int, e0, g));
                            }
                        }
                        assert forall|g: int| 0 <= g < strategies@.len() implies #[trigger] slot_ok(strategies@, ends@, g, data@, base as int, len as int, is1, is_subblock, w as int) by {
                            if g < st0.len() {
                                assert(slot_ok(st0, e0, g, data@, base as int, len as int, is1, is_subblock, w as int));
                                assert(st0[g] == strategies@[g]);
                                assert(sb_start(e0, g) == sb_start(ends@, g));
                                assert(sb_end(e0, g, len as int) == sb_end(ends@, g, len as int));
                            }
                        }
                    }
                    sb_st = i + 1;
                    in_group = 0;
                }
            }
            i = i + 1;
        }
        if sb_st < len {
            let ghost st0 = strategies@;
            let strategy = Self::in_superblock_for(
                data,
                base + sb_st,
                len - sb_st,
                is1,
                is_subblock,
                lg,
                w,
            );
            strategies.push(strategy);
            proof {
                assert forall|g: int| 0 <= g < strategies@.len() implies #[trigger] slot_ok(strategies@, ends@, g, data@, base as int, len as int, is1, is_subblock, w as int) by {
                    if g < st0.len() {
                        assert(slot_ok(st0, ends@, g, data@, base as int, len as int, is1, is_subblock, w as int));
                        assert(st0[g] == strategies@[g]);
                    }
                }
            }
        }
        assert(forall|g: int| 0 <= g < strategies@.len() ==> #[trigger] slot_ok(strategies@, ends@, g, data@, base as int, len as int, is1, is_subblock, w as int));
        proof {
            lemma_mul_is_distributive_add_other_way(b as int, ends@.len() as int, 1);
            if count > ends@.len() * b && sb_st >= len {
                lemma_rank_bounds(seg, is1, sb_st as int, len as int);
            }
        }
        Select1 {
            is1,
            k: count,
            b,
            superblock_end_index: ends,
            in_superblock: strategies,
            lookup_table: SelectLookupTable::new(is1),
            is_subblock,
        }
    }

    /// Picks the strategy for the superblock `data[start..start + len)`.
    fn in_superblock_for(
        data: &[bool],
        start: usize,
        len: usize,
        is1: bool,
        is_subblock: bool,
        lg: u64,
        w: u64,
    ) -> (r: InSuperblockSelect)
        requires
            start + len <= data@.len(),
            lg < 64,
            w < 63,
            lg <= w + 1,
        ensures
            match r {
                InSuperblockSelect::Naive(nv) => nv.wf() && nv.polarity() == is1 && nv@
                    == data@.subrange(start as int, start + len),
                InSuperblockSelect::Subblock(sub) => !is_subblock && sub.is1 == is1
                    && sub.wf_nested(data@, start as int, len as int, w as int),
                InSuperblockSelect::LookupTable => is_subblock && len <= w,
            },
        decreases (if is_subblock {
            0int
        } else {
            2int
        }),
    {
        if !is_subblock {
            assert(lg * lg * (lg * lg) < 64 * 64 * 64 * 64) by (nonlinear_arith)
                requires
                    lg < 64,
            ;
            assert(lg * lg < 4096) by (nonlinear_arith)
                requires
                    lg < 64,
            ;
            let lg2 = lg * lg;
            if len as u64 >= lg2 * lg2 {
                InSuperblockSelect::Naive(Select1Naive::from_range(data, start, len, is1))
            } else {
                let root = Self::isqrt(lg);
                let b: u64 = if root >= 1 {
                    root
                } else {
                    1
                };
                let sub = Self::build(data, start, len, is1, true, b, lg, w);
                proof {
                    lemma_wf_nested(&sub, data@, start as int, len as int, w as int);
                }
                InSuperblockSelect::Subblock(sub)
            }
        } else {
            if len as u64 >= lg {
                InSuperblockSelect::Naive(Select1Naive::from_range(data, start, len, is1))
            } else {
                InSuperblockSelect::LookupTable
            }
        }
    }

    /// Position of the `j`-th target bit of `data[base..base + len)`.
    fn select_at(
        &self,
        data: &[bool],
        base: usize,
        len: usize,
        j: u64,
        table: &SelectLookupTable,
    ) -> (r: u64)
        requires
            self.wf_at(data@, base as int, len as int, table.width()),
            table.wf(),
            table.polarity() == self.is1,
            1 <= j <= self.k,
        ensures
            is_select(data@.subrange(base as int, base + len), self.is1, j as int, r as int),
        decreases (if self.is_subblock {
            0int
        } else {
            1int
        }),
    {
        let n = data.len();
        let ghost seg = data@.subrange(base as int, base + len);
        let ghost v = self.is1;
        let b = self.b;
        let g = (j - 1) / b;
        proof {
            lemma_fundamental_div_mod((j - 1) as int, b as int);
            lemma_mod_bound((j - 1) as int, b as int);
            lemma_mul_is_commutative(b as int, g as int);
            lemma_mul_inequality(0, g as int, b as int);
        }
        let gb = g * b;
        let r = j - gb;
        let e = self.superblock_end_index.len();
        proof {
            if g > e {
                lemma_mul_inequality((e + 1) as int, g as int, b as int);
            }
            lemma_mul_is_distributive_add_other_way(b as int, g as int, 1);
        }
        assert(g <= e);
        let gi = g as usize;
        assert(gi < self.in_superblock@.len());
        if r == b && gi < e {
            proof {
                assert(end_ok(seg, v, b as int, self.superblock_end_index@, g as int));
            }
            return self.superblock_end_index[gi];
        }
        let st: usize = if gi == 0 {
            0
        } else {
            proof {
                assert(end_ok(seg, v, b as int, self.superblock_end_index@, g - 1));
            }
            (self.superblock_end_index[gi - 1] + 1) as usize
        };
        let en: usize = if gi < e {
            proof {
                assert(end_ok(seg, v, b as int, self.superblock_end_index@, g as int));
            }
            (self.superblock_end_index[gi] + 1) as usize
        } else {
            len
        };
        let ghost part = data@.subrange(base + st, base + en);
        proof {
            assert(slot_ok(self.in_superblock@, self.superblock_end_index@, gi as int, data@, base as int, len as int, v, self.is_subblock, table.width()));
            assert(rank_of(seg, v, st as int) == gb);
            assert(part =~= seg.subrange(st as int, en as int));
            lemma_rank_window(seg, v, st as int, (en - st) as int);
            assert(rank_of(seg, v, en as int) >= gb + r);
        }
        let off = match &self.in_superblock[gi] {
            InSuperblockSelect::Naive(nv) => nv.nth(r),
            InSuperblockSelect::Subblock(sub) => {
                proof {
                    lemma_nested_wf(sub, data@, (base + st) as int, (en - st) as int, table.width());
                }
                sub.select_at(data, base + st, en - st, r, table)
            },
            InSuperblockSelect::LookupTable => table.lookup(data, base + st, en - st, r),
        };
        proof {
            lemma_select_compose(data@, v, base as int, len as int, st as int, en as int, r as int, off as int);
        }
        st as u64 + off
    }

    /// Position of the `i`-th target bit, with `select(0) == 0`.
    pub fn select(&self, data: &[bool], i: u64) -> (r: Result<u64, MyError>)
        requires
            self.wf(data@),
        ensures
            i == 0 ==> r == Ok::<u64, MyError>(0),
            i > rank_of(data@, self.polarity(), data@.len() as int) ==> r == Err::<u64, MyError>(
                MyError::Select1NotEnough1s,
            ),
            1 <= i <= rank_of(data@, self.polarity(), data@.len() as int) ==> (r matches Ok(p)
                && is_select(data@, self.polarity(), i as int, p as int)),
    {
        proof {
            assert(data@.subrange(0, data@.len() as int) =~= data@);
        }
        if i == 0 {
            return Ok(0);
        }
        if i > self.k {
            return Err(MyError::Select1NotEnough1s);
        }
        Ok(self.select_at(data, 0, data.len(), i, &self.lookup_table))
    }

    /// Position of the `i`-th target bit of `data`, found by a scan.
    pub fn select_simple(&self, data: &[bool], i: u64) -> (r: Result<u64, MyError>)
        ensures
            i == 0 ==> r == Ok::<u64, MyError>(0),
            i != 0 ==> select_result(data@, self.polarity(), i as int, r),
    {
        select_simple(data, self.is1, i)
    }

    /// Position of the `i`-th target bit of `data`, from a table of all their positions.
    pub fn select_naive(&self, data: &[bool], i: u64) -> (r: Result<u64, MyError>)
        ensures
            select_result(data@, self.polarity(), i as int, r),
    {
        select_naive(data, self.is1, i)
    }

    /// Like [`Select1::select`], but a rank of at least the length is out of bounds.
    #[allow(non_snake_case)]
    pub fn selectWithBoundaryCheck(&self, data: &[bool], i: u64) -> (r: Result<u64, MyError>)
        requires
            self.wf(data@),
        ensures
            i >= data@.len() ==> r == Err::<u64, MyError>(MyError::Select1OutOfBounds),
            i < data@.len() && i == 0 ==> r == Ok::<u64, MyError>(0),
            i < data@.len() && i > rank_of(data@, self.polarity(), data@.len() as int) ==> r
                == Err::<u64, MyError>(MyError::Select1NotEnough1s),
            i < data@.len() && 1 <= i <= rank_of(data@, self.polarity(), data@.len() as int) ==> (
            r matches Ok(p) && is_select(data@, self.polarity(), i as int, p as int)),
    {
        if i >= data.len() as u64 {
            return Err(MyError::Select1OutOfBounds);
        }
        self.select(data, i)
    }
}

/// A nested index is well formed as any index is.
proof fn lemma_nested_wf(sub: &Select1, s: Seq<bool>, base: int, len: int, w: int)
    requires
        sub.wf_nested(s, base, len, w),
    ensures
        sub.wf_at(s, base, len, w),
        sub.is_subblock,
{
    assert forall|g: int| 0 <= g < sub.in_superblock@.len() implies #[trigger] slot_ok(
        sub.in_superblock@,
        sub.superblock_end_index@,
        g,
        s,
        base,
        len,
        sub.is1,
        sub.is_subblock,
        w,
    ) by {
        assert(slot_nested(
            sub.in_superblock@,
            sub.superblock_end_index@,
            g,
            s,
            base,
            len,
            sub.is1,
            w,
        ));
    }
}

/// A well-formed index built as nested is a nested index.
proof fn lemma_wf_nested(sub: &Select1, s: Seq<bool>, base: int, len: int, w: int)
    requires
        sub.wf_at(s, base, len, w),
        sub.is_subblock,
    ensures
        sub.wf_nested(s, base, len, w),
{
    assert forall|g: int| 0 <= g < sub.in_superblock@.len() implies #[trigger] slot_nested(
        sub.in_superblock@,
        sub.superblock_end_index@,
        g,
        s,
        base,
        len,
        sub.is1,
        w,
    ) by {
        assert(slot_ok(
            sub.in_superblock@,
            sub.superblock_end_index@,
            g,
            s,
            base,
            len,
            sub.is1,
            sub.is_subblock,
            w,
        ));
    }
}

/// A select inside a part of a window is a select in the window.
proof fn lemma_select_compose(
    s: Seq<bool>,
    v: bool,
    base: int,
    len: int,
    st: int,
    en: int,
    r: int,
    off: int,
)
    requires
        0 <= base,
        0 <= st <= en <= len,
        base + len <= s.len(),
        is_select(s.subrange(base + st, base + en), v, r, off),
    ensures
        is_select(
            s.subrange(base, base + len),
            v,
            rank_of(s.subrange(base, base + len), v, st) + r,
            st + off,
        ),
{
    let seg = s.subrange(base, base + len);
    let part = s.subrange(base + st, base + en);
    lemma_rank_window(seg, v, st, off);
    lemma_rank_prefix(seg.subrange(st, st + off), part, v, off);
}

} // verus!
