use vstd::prelude::*;

pub mod naive_fast;
pub mod naive_slow;
pub mod rmq_spanning_blocks;
pub mod rmq_sparse;

verus! {

/// What can go wrong with a range-minimum query.
#[derive(Debug, PartialEq, Eq, Structural)]
pub enum RMQError {
    /// The range is empty or reaches past the end of the array.
    OutOfRange,
}

/// `k` is the position of the leftmost minimum of `a[i..=j]`.
pub open spec fn is_argmin(a: Seq<u64>, i: int, j: int, k: int) -> bool {
    &&& i <= k <= j
    &&& forall|m: int| i <= m <= j ==> a[k] <= #[trigger] a[m]
    &&& forall|m: int| i <= m < k ==> a[k] < #[trigger] a[m]
}

/// What a range-minimum query over `a` returns for `from..=to`.
pub open spec fn rmq_result(a: Seq<u64>, from: int, to: int, r: Result<usize, RMQError>) -> bool {
    if from <= to < a.len() {
        r matches Ok(k) && is_argmin(a, from, to, k as int)
    } else {
        r == Err::<usize, RMQError>(RMQError::OutOfRange)
    }
}

/// A range has one leftmost minimum, so every structure answers alike.
pub proof fn law_argmin_unique(a: Seq<u64>, i: int, j: int, k1: int, k2: int)
    requires
        is_argmin(a, i, j, k1),
        is_argmin(a, i, j, k2),
    ensures
        k1 == k2,
{
    if k1 < k2 {
        assert(a[k2] < a[k1]);
        assert(a[k1] <= a[k2]);
    } else if k2 < k1 {
        assert(a[k1] < a[k2]);
        assert(a[k2] <= a[k1]);
    }
}

/// Two structures over the same array give the same answer to the same query.
pub proof fn law_rmq_agree(
    a: Seq<u64>,
    from: int,
    to: int,
    r1: Result<usize, RMQError>,
    r2: Result<usize, RMQError>,
)
    requires
        rmq_result(a, from, to, r1),
        rmq_result(a, from, to, r2),
    ensures
        r1 == r2,
{
    if from <= to < a.len() {
        law_argmin_unique(a, from, to, r1->Ok_0 as int, r2->Ok_0 as int);
    }
}

/// A single-element range has its own position as minimum.
pub proof fn law_argmin_single(a: Seq<u64>, i: int, k: int)
    requires
        is_argmin(a, i, i, k),
    ensures
        k == i,
{
}

/// Leftmost minima of two overlapping or adjacent ranges give that of their union:
/// the first one, unless the second is strictly smaller.
pub proof fn lemma_argmin_union(a: Seq<u64>, i: int, j1: int, i2: int, j: int, k1: int, k2: int)
    requires
        i <= i2 <= j1 + 1,
        j1 <= j,
        is_argmin(a, i, j1, k1),
        is_argmin(a, i2, j, k2),
    ensures
        a[k1] <= a[k2] ==> is_argmin(a, i, j, k1),
        a[k2] < a[k1] ==> is_argmin(a, i, j, k2),
{
    if a[k1] <= a[k2] {
        assert forall|m: int| i <= m <= j implies a[k1] <= #[trigger] a[m] by {
            if m > j1 {
                assert(a[k2] <= a[m]);
            }
        }
    } else {
        assert forall|m: int| i <= m <= j implies a[k2] <= #[trigger] a[m] by {
            if m < i2 {
                assert(a[k1] <= a[m]);
            }
        }
        assert forall|m: int| i <= m < k2 implies a[k2] < #[trigger] a[m] by {
            if m < i2 {
                assert(a[k1] <= a[m]);
            }
        }
    }
}

/// A range-minimum structure over an array of `u64` values.
pub trait RMQ: Sized {
    /// The array the structure answers for.
    spec fn numbers(&self) -> Seq<u64>;

    /// The structure's tables are consistent with its array.
    spec fn wf(&self) -> bool;

    fn new(numbers: Vec<u64>) -> (r: Self)
        requires
            1 <= numbers@.len() <= usize::MAX / 64,
        ensures
            r.wf(),
            r.numbers() == numbers@,
    ;

    fn range_minimum_query(&self, from: usize, to: usize) -> (r: Result<usize, RMQError>)
        requires
            self.wf(),
        ensures
            rmq_result(self.numbers(), from as int, to as int, r),
    ;
}

} // verus!
