use crate::rmq::{is_argmin, rmq_result, RMQError, RMQ};
use vstd::prelude::*;

verus! {

/// Range minimum by scanning the range at each query.
pub struct RMQNaiveSlow {
    numbers: Vec<u64>,
}

impl RMQNaiveSlow {
    pub closed spec fn view(&self) -> Seq<u64> {
        self.numbers@
    }

    pub fn new(numbers: Vec<u64>) -> (r: Self)
        ensures
            r@ == numbers@,
    {
        RMQNaiveSlow { numbers }
    }

    /// Position of the leftmost minimum of `numbers[from..=to]`.
    pub fn range_minimum_query(&self, from: usize, to: usize) -> (r: Result<usize, RMQError>)
        ensures
            rmq_result(self@, from as int, to as int, r),
    {
        let n = self.numbers.len();
        if from > to || to >= n {
            return Err(RMQError::OutOfRange);
        }
        let mut min_index = from;
        let mut min_value = self.numbers[from];
        let mut i = from + 1;
        while i <= to
            invariant
                from < i <= to + 1,
                to < n,
                n == self.numbers@.len(),
                min_value == self.numbers@[min_index as int],
                is_argmin(self.numbers@, from as int, (i - 1) as int, min_index as int),
            decreases to + 1 - i,
        {
            if self.numbers[i] < min_value {
                min_index = i;
                min_value = self.numbers[i];
            }
            i = i + 1;
        }
        Ok(min_index)
    }
}

impl RMQ for RMQNaiveSlow {
    open spec fn numbers(&self) -> Seq<u64> {
        self@
    }

    open spec fn wf(&self) -> bool {
        true
    }

    fn new(numbers: Vec<u64>) -> (r: Self) {
        RMQNaiveSlow::new(numbers)
    }

    fn range_minimum_query(&self, from: usize, to: usize) -> (r: Result<usize, RMQError>) {
        RMQNaiveSlow::range_minimum_query(self, from, to)
    }
}

} // verus!
