use crate::bits::{bit_of, is_select, lemma_rank_bounds, rank_of, read_pattern};
use vstd::prelude::*;

verus! {

/// The lowest `w` bits of `x` as a sequence, least significant first.
pub open spec fn pattern_seq(x: u64, w: int) -> Seq<bool> {
    Seq::new(w as nat, |j: int| bit_of(x, j as u64))
}

/// For every bit pattern of a fixed width, the position of each of its target bits
/// (ones, or zeroes), by rank.
pub struct SelectLookupTable {
    /// `lookup_table[x][r]`: position of the `r`-th target bit of pattern `x`.
    lookup_table: Vec<Vec<u8>>,
    max_lookup_bits: u32,
    is1: bool,
}

impl SelectLookupTable {
    /// Width of the patterns the table covers.
    pub closed spec fn width(&self) -> int {
        self.max_lookup_bits as int
    }

    /// Whether the table selects ones (`true`) or zeroes (`false`).
    pub closed spec fn polarity(&self) -> bool {
        self.is1
    }

    /// The table is filled for every pattern of its width.
    pub closed spec fn wf(&self) -> bool {
        let w = self.max_lookup_bits as int;
        let t = self.lookup_table@;
        &&& w < 63
        &&& t.len() == (1u64 << (w as u64))
        &&& forall|x: int|
            0 <= x < t.len() ==> (#[trigger] t[x])@.len() == rank_of(
                pattern_seq(x as u64, w),
                self.is1,
                w,
            ) + 1
        &&& forall|x: int, r: int|
            0 <= x < t.len() && 1 <= r < t[x]@.len() ==> is_select(
                pattern_seq(x as u64, w),
                self.is1,
                r,
                (#[trigger] t[x]@[r]) as int,
            )
    }

    /// An empty table that has seen no pattern yet.
    pub fn new(is1: bool) -> (r: Self)
        ensures
            r.width() == 0,
            r.polarity() == is1,
    {
        SelectLookupTable { lookup_table: Vec::new(), max_lookup_bits: 0, is1 }
    }

    /// Records that patterns of `lookup_bits` bits will be looked up.
    pub fn encountered(&mut self, lookup_bits: u32)
        ensures
            final(self).width() == if old(self).width() < lookup_bits {
                lookup_bits as int
            } else {
                old(self).width()
            },
            final(self).polarity() == old(self).polarity(),
    {
        if self.max_lookup_bits < lookup_bits {
            self.max_lookup_bits = lookup_bits;
        }
    }

    /// Fills the table for every pattern of the widest width recorded.
    pub fn create(&mut self)
        requires
            old(self).width() < 63,
        ensures
            final(self).wf(),
            final(self).width() == old(self).width(),
            final(self).polarity() == old(self).polarity(),
    {
        let w = self.max_lookup_bits as u64;
        let is1 = self.is1;
        let rows: u64 = 1u64 << w;
        let mut table: Vec<Vec<u8>> = Vec::new();
        let mut x: u64 = 0;
        while x < rows
            invariant
                w < 63,
                w == self.max_lookup_bits,
                is1 == self.is1,
                rows == 1u64 << w,
                x <= rows,
                table@.len() == x,
                forall|y: int|
                    0 <= y < table@.len() ==> (#[trigger] table@[y])@.len() == rank_of(
                        pattern_seq(y as u64, w as int),
                        is1,
                        w as int,
                    ) + 1,
                forall|y: int, r: int|
                    0 <= y < table@.len() && 1 <= r < table@[y]@.len() ==> is_select(
                        pattern_seq(y as u64, w as int),
                        is1,
                        r,
                        (#[trigger] table@[y]@[r]) as int,
                    ),
            decreases rows - x,
        {
            let ghost pat = pattern_seq(x, w as int);
            let mut row: Vec<u8> = Vec::new();
            row.push(0);
            let mut j: u64 = 0;
            while j < w
                invariant
                    w < 63,
                    j <= w,
                    pat == pattern_seq(x, w as int),
                    row@.len() == rank_of(pat, is1, j as int) + 1,
                    forall|r: int|
                        1 <= r < row@.len() ==> is_select(
                            pat,
                            is1,
                            r,
                            (#[trigger] row@[r]) as int,
                        ),
                decreases w - j,
            {
                if (((x >> j) & 1u64) == 1u64) == is1 {
                    row.push(j as u8);
                }
                j = j + 1;
            }
            table.push(row);
            x = x + 1;
        }
        self.lookup_table = table;
    }

    /// Position of the `i`-th target bit in `data[start..start + len)`.
    pub fn lookup(&self, data: &[bool], start: usize, len: usize, i: u64) -> (r: u64)
        requires
            self.wf(),
            len <= self.width(),
            start + len <= data@.len(),
            1 <= i <= rank_of(data@.subrange(start as int, start + len), self.polarity(), len as int),
        ensures
            is_select(data@.subrange(start as int, start + len), self.polarity(), i as int, r as int),
    {
        let w = self.max_lookup_bits as usize;
        let x = read_pattern(data, start, len);
        let ghost seg = data@.subrange(start as int, start + len);
        let ghost pat = pattern_seq(x, w as int);
        proof {
            let lw = len as u64;
            let ww = w as u64;
            assert((1u64 << lw) <= (1u64 << ww)) by (bit_vector)
                requires
                    lw <= ww,
                    ww < 63,
            ;
            assert forall|j: int| 0 <= j < len implies pat[j] == seg[j] by {
                assert(bit_of(x, j as u64) == (start + j < data@.len() && data@[start + j]));
            }
            lemma_rank_agree(pat, seg, self.is1, len as int);
            lemma_rank_bounds(pat, self.is1, len as int, w as int);
        }
        let rows = self.lookup_table.len();
        assert(x < rows);
        let xi = x as usize;
        let row = &self.lookup_table[xi];
        assert(row@.len() == rank_of(pat, self.is1, w as int) + 1);
        let row_len = row.len();
        assert(i < row_len);
        let p = row[i as usize];
        proof {
            assert(is_select(pat, self.is1, i as int, p as int));
            if p >= len {
                lemma_rank_bounds(pat, self.is1, len as int, p as int);
            }
            lemma_rank_agree(pat, seg, self.is1, p as int);
            assert(pat[p as int] == seg[p as int]);
        }
        p as u64
    }
}

/// Two sequences that agree on a prefix have the same ranks over it.
proof fn lemma_rank_agree(a: Seq<bool>, b: Seq<bool>, v: bool, i: int)
    requires
        0 <= i <= a.len(),
        i <= b.len(),
        forall|j: int| 0 <= j < i ==> a[j] == b[j],
    ensures
        rank_of(a, v, i) == rank_of(b, v, i),
    decreases i,
{
    if i > 0 {
        lemma_rank_agree(a, b, v, i - 1);
    }
}

} // verus!
