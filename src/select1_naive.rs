use crate::bits::{is_select, rank_of};
use crate::bitvector::MyError;
use vstd::prelude::*;

verus! {

/// Select inside one segment by a table holding the position of every target bit.
pub struct Select1Naive {
    n: u64,
    /// `answers[r]`: position of the `(r + 1)`-th target bit.
    answers: Vec<u64>,
    is1: bool,
    seg: Ghost<Seq<bool>>,
}

impl Select1Naive {
    /// The bits this table was built over.
    pub closed spec fn view(&self) -> Seq<bool> {
        self.seg@
    }

    /// Whether the table selects ones (`true`) or zeroes (`false`).
    pub closed spec fn polarity(&self) -> bool {
        self.is1
    }

    /// Number of target bits in the segment.
    pub closed spec fn count(&self) -> nat {
        self.answers@.len()
    }

    pub closed spec fn wf(&self) -> bool {
        &&& self.n == self.seg@.len()
        &&& self.answers@.len() == rank_of(self.seg@, self.is1, self.seg@.len() as int)
        &&& forall|r: int|
            0 <= r < self.answers@.len() ==> is_select(
                self.seg@,
                self.is1,
                r + 1,
                (#[trigger] self.answers@[r]) as int,
            )
    }

    /// Table over all of `data`.
    pub fn new(data: &[bool], is1: bool) -> (r: Self)
        ensures
            r.wf(),
            r@ == data@,
            r.polarity() == is1,
            r.count() == rank_of(data@, is1, data@.len() as int),
    {
        let r = Self::from_range(data, 0, data.len(), is1);
        assert(data@.subrange(0, data@.len() as int) =~= data@);
        r
    }

    /// Table over `data[start..start + len)`.
    pub fn from_range(data: &[bool], start: usize, len: usize, is1: bool) -> (r: Self)
        requires
            start + len <= data@.len(),
        ensures
            r.wf(),
            r@ == data@.subrange(start as int, start + len),
            r.polarity() == is1,
            r.count() == rank_of(r@, is1, len as int),
    {
        let n = data.len();
        let ghost seg = data@.subrange(start as int, start + len);
        let mut answers: Vec<u64> = Vec::new();
        let mut j: usize = 0;
        while j < len
            invariant
                start + len <= data@.len(),
                n == data@.len(),
                seg == data@.subrange(start as int, start + len),
                j <= len,
                answers@.len() == rank_of(seg, is1, j as int),
                forall|r: int|
                    0 <= r < answers@.len() ==> is_select(
                        seg,
                        is1,
                        r + 1,
                        (#[trigger] answers@[r]) as int,
                    ),
            decreases len - j,
        {
            if data[start + j] == is1 {
                answers.push(j as u64);
            }
            j = j + 1;
        }
        Select1Naive { n: len as u64, answers, is1, seg: Ghost(seg) }
    }

    /// Position of the `i`-th target bit of the segment.
    pub fn select(&self, i: u64) -> (r: Result<u64, MyError>)
        requires
            self.wf(),
        ensures
            i == 0 ==> r == Err::<u64, MyError>(MyError::Select1GotZero),
            i > 0 && i >= self@.len() ==> r == Err::<u64, MyError>(MyError::Select1OutOfBounds),
            0 < i < self@.len() && i > self.count() ==> r == Err::<u64, MyError>(
                MyError::Select1NotEnough1s,
            ),
            0 < i <= self.count() && i < self@.len() ==> (r matches Ok(p) && is_select(
                self@,
                self.polarity(),
                i as int,
                p as int,
            )),
    {
        if i == 0 {
            return Err(MyError::Select1GotZero);
        }
        proof {
            crate::bits::lemma_rank_bounds(self.seg@, self.is1, 0, self.seg@.len() as int);
        }
        if i >= self.n {
            return Err(MyError::Select1OutOfBounds);
        }
        if i > self.answers.len() as u64 {
            return Err(MyError::Select1NotEnough1s);
        }
        Ok(self.nth(i))
    }

    /// Position of the `i`-th target bit, for a rank known to be present.
    pub fn nth(&self, i: u64) -> (r: u64)
        requires
            self.wf(),
            1 <= i <= rank_of(self@, self.polarity(), self@.len() as int),
        ensures
            is_select(self@, self.polarity(), i as int, r as int),
    {
        let count = self.answers.len();
        self.answers[(i - 1) as usize]
    }
}

} // verus!
