use crate::rmq::{is_argmin, rmq_result, RMQError, RMQ};
use vstd::prelude::*;

verus! {

/// Range minimum from a table of the answer for every pair of positions.
pub struct RMQNaiveFast {
    /// `naive[i][j]`: position of the leftmost minimum of `numbers[i..=j]`, for `i <= j`.
    naive: Vec<Vec<usize>>,
    numbers: Ghost<Seq<u64>>,
}

impl RMQNaiveFast {
    pub closed spec fn view(&self) -> Seq<u64> {
        self.numbers@
    }

    pub closed spec fn wf(&self) -> bool {
        let a = self.numbers@;
        &&& self.naive@.len() == a.len()
        &&& forall|i: int| 0 <= i < a.len() ==> (#[trigger] self.naive@[i])@.len() == a.len()
        &&& forall|i: int, j: int|
            0 <= i <= j < a.len() ==> is_argmin(a, i, j, (#[trigger] self.naive@[i]@[j]) as int)
    }

    pub fn new(numbers: Vec<u64>) -> (r: Self)
        ensures
            r.wf(),
            r@ == numbers@,
    {
        let n = numbers.len();
        let ghost a = numbers@;
        let mut naive: Vec<Vec<usize>> = Vec::new();
        let mut i: usize = 0;
        while i < n
            invariant
                n == a.len(),
                a == numbers@,
                i <= n,
                naive@.len() == i,
                forall|k: int| 0 <= k < i ==> (#[trigger] naive@[k])@.len() == n,
                forall|k: int, j: int|
                    0 <= k < i && k <= j < n ==> is_argmin(a, k, j, (#[trigger] naive@[k]@[j]) as int),
            decreases n - i,
        {
            let mut row: Vec<usize> = Vec::new();
            let mut j: usize = 0;
            while j < i
                invariant
                    j <= i < n,
                    row@.len() == j,
                decreases i - j,
            {
                row.push(usize::MAX);
                j = j + 1;
            }
            row.push(i);
            let mut j: usize = i + 1;
            while j < n
                invariant
                    n == a.len(),
                    a == numbers@,
                    i < j <= n,
                    row@.len() == j,
                    forall|t: int| i <= t < j ==> is_argmin(a, i as int, t, (#[trigger] row@[t]) as int),
                decreases n - j,
            {
                let prev = row[j - 1];
                if numbers[prev] <= numbers[j] {
                    row.push(prev);
                } else {
                    row.push(j);
                }
                j = j + 1;
            }
            naive.push(row);
            i = i + 1;
        }
        RMQNaiveFast { naive, numbers: Ghost(a) }
    }

    /// Position of the leftmost minimum of `numbers[from..=to]`.
    pub fn range_minimum_query(&self, from: usize, to: usize) -> (r: Result<usize, RMQError>)
        requires
            self.wf(),
        ensures
            rmq_result(self@, from as int, to as int, r),
    {
        if from > to || to >= self.naive.len() {
            return Err(RMQError::OutOfRange);
        }
        Ok(self.naive[from][to])
    }
}

impl RMQ for RMQNaiveFast {
    open spec fn numbers(&self) -> Seq<u64> {
        self@
    }

    closed spec fn wf(&self) -> bool {
        RMQNaiveFast::wf(self)
    }

    fn new(numbers: Vec<u64>) -> (r: Self) {
        RMQNaiveFast::new(numbers)
    }

    fn range_minimum_query(&self, from: usize, to: usize) -> (r: Result<usize, RMQError>) {
        RMQNaiveFast::range_minimum_query(self, from, to)
    }
}

} // verus!
