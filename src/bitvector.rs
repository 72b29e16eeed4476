use crate::bits::{
    bit_of, is_select, lemma_rank_bounds, lemma_rank_complement, lemma_rank_strict, rank_of,
};
use crate::rank1::Rank1;
use crate::select1::Select1;
use crate::select1_naive::Select1Naive;
use crate::select_lookup_table::pattern_seq;
use vstd::prelude::*;

verus! {

/// What can go wrong when building a bit sequence or selecting in one.
#[derive(Debug, PartialEq, Eq, Structural)]
pub enum MyError {
    /// An input entry was neither 0 nor 1.
    InvalidValue,
    /// Rank zero was asked of a structure whose ranks start at one.
    Select1GotZero,
    /// Fewer target bits exist than the rank asked for.
    Select1NotEnough1s,
    /// The rank asked for is at least the length of the sequence.
    Select1OutOfBounds,
}

/// What `select` of polarity `v` returns for rank `j` over `s`: out of bounds for a
/// rank of at least the length, zero for rank zero, and otherwise the position of
/// the `j`-th entry equal to `v`, or not enough when there are fewer.
pub open spec fn select_result(s: Seq<bool>, v: bool, j: int, r: Result<u64, MyError>) -> bool {
    if j >= s.len() {
        r == Err::<u64, MyError>(MyError::Select1OutOfBounds)
    } else if j == 0 {
        r == Ok::<u64, MyError>(0)
    } else if j > rank_of(s, v, s.len() as int) {
        r == Err::<u64, MyError>(MyError::Select1NotEnough1s)
    } else {
        r matches Ok(p) && is_select(s, v, j, p as int)
    }
}

/// An immutable bit sequence with constant-time rank and select.
pub struct Bitvector {
    rank: Rank1,
    select0: Select1,
    select1: Select1,
    data: Vec<bool>,
}

impl Bitvector {
    /// The bits, first to last.
    pub closed spec fn view(&self) -> Seq<bool> {
        self.data@
    }

    pub closed spec fn wf(&self) -> bool {
        &&& self.rank.wf(self.data@)
        &&& self.select0.wf(self.data@)
        &&& self.select0.polarity() == false
        &&& self.select1.wf(self.data@)
        &&& self.select1.polarity() == true
    }

    /// Bit sequence from entries that must each be 0 or 1, first bit first.
    pub fn from_vec(vec: Vec<u8>) -> (r: Result<Self, MyError>)
        ensures
            (forall|i: int| 0 <= i < vec@.len() ==> vec@[i] == 0 || vec@[i] == 1) <==> r is Ok,
            r is Err ==> r == Err::<Self, MyError>(MyError::InvalidValue),
            r matches Ok(bv) ==> bv.wf() && bv@.len() == vec@.len() && forall|i: int|
                0 <= i < vec@.len() ==> bv@[i] == (vec@[i] == 1),
    {
        let mut bits: Vec<bool> = Vec::new();
        let mut i: usize = 0;
        while i < vec.len()
            invariant
                i <= vec@.len(),
                bits@.len() == i,
                forall|k: int| 0 <= k < i ==> vec@[k] == 0 || vec@[k] == 1,
                forall|k: int| 0 <= k < i ==> bits@[k] == (vec@[k] == 1),
            decreases vec@.len() - i,
        {
            if vec[i] != 0 && vec[i] != 1 {
                return Err(MyError::InvalidValue);
            }
            bits.push(vec[i] == 1);
            i = i + 1;
        }
        Ok(Self::new(bits))
    }

    /// Builds the rank and select indexes over `data`.
    pub fn new(data: Vec<bool>) -> (r: Self)
        ensures
            r.wf(),
            r@ == data@,
    {
        let select1 = Select1::new(data.as_slice(), true, false);
        let select0 = Select1::new(data.as_slice(), false, false);
        let rank = Rank1::new(&data);
        Bitvector { rank, select0, select1, data }
    }

    /// Bit `i`.
    pub fn get(&self, i: u64) -> (r: bool)
        requires
            i < self@.len(),
        ensures
            r == self@[i as int],
    {
        let n = self.data.len();
        self.data[i as usize]
    }

    /// Number of ones before position `i`.
    pub fn rank1(&self, i: u64) -> (r: u64)
        requires
            self.wf(),
            i <= self@.len(),
        ensures
            r == rank_of(self@, true, i as int),
    {
        self.rank.rank1(self.data.as_slice(), i)
    }

    /// Number of zeroes before position `i`.
    pub fn rank0(&self, i: u64) -> (r: u64)
        requires
            self.wf(),
            i <= self@.len(),
        ensures
            r == rank_of(self@, false, i as int),
    {
        self.rank.rank0(self.data.as_slice(), i)
    }

    /// Number of ones before position `i`, counted one bit at a time.
    pub fn rank1_simple(&self, i: u64) -> (r: u64)
        requires
            self.wf(),
            i <= self@.len(),
        ensures
            r == rank_of(self@, true, i as int),
    {
        self.rank.rank1_simple(self.data.as_slice(), i)
    }

    /// Position of the `i`-th zero.
    pub fn select0(&self, i: u64) -> (r: Result<u64, MyError>)
        requires
            self.wf(),
        ensures
            select_result(self@, false, i as int, r),
    {
        self.select0.selectWithBoundaryCheck(self.data.as_slice(), i)
    }

    /// Position of the `i`-th one.
    pub fn select1(&self, i: u64) -> (r: Result<u64, MyError>)
        requires
            self.wf(),
        ensures
            select_result(self@, true, i as int, r),
    {
        self.select1.selectWithBoundaryCheck(self.data.as_slice(), i)
    }

    /// Position of the `i`-th zero, found by a scan.
    pub fn select0_simple(&self, i: u64) -> (r: Result<u64, MyError>)
        requires
            self.wf(),
        ensures
            i == 0 ==> r == Ok::<u64, MyError>(0),
            i != 0 ==> select_result(self@, false, i as int, r),
    {
        self.select0.select_simple(self.data.as_slice(), i)
    }

    /// Position of the `i`-th one, found by a scan.
    pub fn select1_simple(&self, i: u64) -> (r: Result<u64, MyError>)
        requires
            self.wf(),
        ensures
            i == 0 ==> r == Ok::<u64, MyError>(0),
            i != 0 ==> select_result(self@, true, i as int, r),
    {
        self.select1.select_simple(self.data.as_slice(), i)
    }

    /// Position of the `i`-th zero, from a table of all zero positions.
    pub fn select0_naive(&self, i: u64) -> (r: Result<u64, MyError>)
        requires
            self.wf(),
        ensures
            select_result(self@, false, i as int, r),
    {
        self.select0.select_naive(self.data.as_slice(), i)
    }

    /// Position of the `i`-th one, from a table of all one positions.
    pub fn select1_naive(&self, i: u64) -> (r: Result<u64, MyError>)
        requires
            self.wf(),
        ensures
            select_result(self@, true, i as int, r),
    {
        self.select1.select_naive(self.data.as_slice(), i)
    }
}

/// Position of the `i`-th entry equal to `is1` in `data`, by a scan.
pub fn select_simple(data: &[bool], is1: bool, i: u64) -> (r: Result<u64, MyError>)
    ensures
        i == 0 ==> r == Ok::<u64, MyError>(0),
        i != 0 ==> select_result(data@, is1, i as int, r),
{
    if i == 0 {
        return Ok(0);
    }
    if i >= data.len() as u64 {
        return Err(MyError::Select1OutOfBounds);
    }
    let mut count: u64 = 0;
    let mut j: usize = 0;
    while j < data.len()
        invariant
            1 <= i < data@.len(),
            j <= data@.len(),
            count == rank_of(data@, is1, j as int),
            count < i,
        decreases data@.len() - j,
    {
        proof {
            lemma_rank_bounds(data@, is1, 0, j as int);
        }
        if data[j] == is1 {
            count = count + 1;
            if count == i {
                proof {
                    lemma_rank_bounds(data@, is1, j + 1, data@.len() as int);
                }
                return Ok(j as u64);
            }
        }
        j = j + 1;
    }
    Err(MyError::Select1NotEnough1s)
}

/// Position of the `i`-th entry equal to `is1` in `data`, from a table of all their
/// positions.
pub fn select_naive(data: &[bool], is1: bool, i: u64) -> (r: Result<u64, MyError>)
    ensures
        select_result(data@, is1, i as int, r),
{
    if i >= data.len() as u64 {
        return Err(MyError::Select1OutOfBounds);
    }
    if i == 0 {
        return Ok(0);
    }
    let naive = Select1Naive::new(data, is1);
    naive.select(i)
}

/// The lowest `bit_size` bits of `n`, least significant first.
pub fn u64_to_vec_bool(n: u64, bit_size: u64) -> (r: Vec<bool>)
    requires
        bit_size <= 64,
    ensures
        r@ == pattern_seq(n, bit_size as int),
{
    let mut vec: Vec<bool> = Vec::new();
    let mut j: u64 = 0;
    while j < bit_size
        invariant
            j <= bit_size <= 64,
            vec@.len() == j,
            forall|k: int| 0 <= k < j ==> vec@[k] == bit_of(n, k as u64),
        decreases bit_size - j,
    {
        vec.push((n >> j) & 1 == 1);
        j = j + 1;
    }
    assert(vec@ =~= pattern_seq(n, bit_size as int));
    vec
}

/// Over the whole sequence, the ones and the zeroes add up to its length.
pub proof fn law_rank_sum(s: Seq<bool>)
    ensures
        rank_of(s, true, s.len() as int) + rank_of(s, false, s.len() as int) == s.len(),
{
    lemma_rank_complement(s, s.len() as int);
}

/// The rank of ones grows by exactly the bit at each position.
pub proof fn law_rank_step(s: Seq<bool>, i: int)
    requires
        0 <= i < s.len(),
    ensures
        rank_of(s, true, i + 1) - rank_of(s, true, i) == (if s[i] {
            1int
        } else {
            0int
        }),
{
}

/// Select of a present rank lands on a bit of the right value whose rank, counted
/// through it, is that rank.
pub proof fn law_select_lands(s: Seq<bool>, v: bool, j: int, r: Result<u64, MyError>)
    requires
        1 <= j <= rank_of(s, v, s.len() as int),
        j < s.len(),
        select_result(s, v, j, r),
    ensures
        r matches Ok(p) && p < s.len() && s[p as int] == v && rank_of(s, v, p + 1) == j,
{
}

/// Selecting the rank at `i` finds the last bit of that value before `i`.
pub proof fn law_select_of_rank(s: Seq<bool>, v: bool, i: int, r: Result<u64, MyError>)
    requires
        0 <= i <= s.len(),
        rank_of(s, v, i) >= 1,
        rank_of(s, v, i) < s.len(),
        select_result(s, v, rank_of(s, v, i) as int, r),
    ensures
        r matches Ok(p) && p < i && s[p as int] == v && forall|q: int|
            p < q < i ==> s[q] != v,
{
    lemma_rank_bounds(s, v, i, s.len() as int);
    let p = r->Ok_0 as int;
    if p >= i {
        lemma_rank_bounds(s, v, i, p);
    }
    assert forall|q: int| p < q < i implies s[q] != v by {
        if s[q] == v {
            lemma_rank_strict(s, v, q, i);
            lemma_rank_bounds(s, v, p + 1, q);
        }
    }
}

/// Whenever select of a nonzero rank lands on a one, ranking through it gives the
/// rank back.
pub proof fn law_select_rank_round_trip(s: Seq<bool>, j: int, r: Result<u64, MyError>)
    requires
        j >= 1,
        select_result(s, true, j, r),
        r matches Ok(p) && p < s.len() && s[p as int],
    ensures
        r matches Ok(p) && rank_of(s, true, p + 1) == j,
{
}

} // verus!
