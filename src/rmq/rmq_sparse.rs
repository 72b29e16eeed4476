use crate::rmq::{is_argmin, lemma_argmin_union, rmq_result, RMQError, RMQ};
use vstd::prelude::*;

verus! {

/// `2^l`.
pub open spec fn pw(l: nat) -> nat
    decreases l,
{
    if l == 0 {
        1
    } else {
        2 * pw((l - 1) as nat)
    }
}

proof fn lemma_pw_grows(a: nat, b: nat)
    requires
        a < b,
    ensures
        pw(a) < pw(b),
    decreases b,
{
    if a + 1 < b {
        lemma_pw_grows(a, (b - 1) as nat);
    }
    assert(pw(b) == 2 * pw((b - 1) as nat));
    lemma_pw_positive((b - 1) as nat);
}

proof fn lemma_pw_positive(a: nat)
    ensures
        pw(a) >= 1,
    decreases a,
{
    if a > 0 {
        lemma_pw_positive((a - 1) as nat);
    }
}

/// The largest power of two `width = 2^l` with `width <= len`.
fn level_for(len: usize) -> (r: (usize, usize))
    requires
        len >= 1,
    ensures
        r.1 == pw(r.0 as nat),
        r.1 <= len < 2 * r.1,
{
    let mut width: usize = 1;
    let mut l: usize = 0;
    while width <= len / 2
        invariant
            width == pw(l as nat),
            1 <= width <= len,
            l < width,
        decreases len - width,
    {
        width = width * 2;
        l = l + 1;
    }
    (l, width)
}

/// Sparse table: the leftmost minimum of every range whose length is a power of two.
pub struct RMQSparse {
    /// `m[l][i]`: position of the leftmost minimum of `numbers[i..i + 2^l)`.
    m: Vec<Vec<usize>>,
    pub numbers: Vec<u64>,
}

impl RMQSparse {
    pub closed spec fn view(&self) -> Seq<u64> {
        self.numbers@
    }

    pub closed spec fn wf(&self) -> bool {
        let a = self.numbers@;
        let n = a.len() as int;
        &&& self.m@.len() >= 1
        &&& n < pw(self.m@.len())
        &&& forall|l: int|
            0 <= l < self.m@.len() ==> (n >= 1 ==> (#[trigger] self.m@[l])@.len() >= 1)
                && self.m@[l]@.len() + pw(l as nat) == n + 1
        &&& forall|l: int, i: int|
            0 <= l < self.m@.len() && 0 <= i < self.m@[l]@.len() ==> is_argmin(
                a,
                i,
                i + pw(l as nat) - 1,
                (#[trigger] self.m@[l]@[i]) as int,
            )
    }

    /// Builds the table level by level, each level from the one below.
    pub fn new(numbers: Vec<u64>) -> (r: Self)
        ensures
            r.wf(),
            r@ == numbers@,
    {
        let n = numbers.len();
        if n == 0 {
            let mut m: Vec<Vec<usize>> = Vec::new();
            m.push(Vec::new());
            assert(pw(0) == 1);
            assert(pw(1) == 2);
            return RMQSparse { m, numbers };
        }
        let ghost a = numbers@;
        let mut level0: Vec<usize> = Vec::new();
        let mut i: usize = 0;
        while i < n
            invariant
                i <= n,
                level0@.len() == i,
                forall|k: int| 0 <= k < i ==> #[trigger] level0@[k] == k,
            decreases n - i,
        {
            level0.push(i);
            i = i + 1;
        }
        let mut m: Vec<Vec<usize>> = Vec::new();
        m.push(level0);
        let mut width: usize = 1;
        let mut l: usize = 0;
        assert(pw(0) == 1);
        while width <= n / 2
            invariant
                n == a.len(),
                a == numbers@,
                n >= 1,
                m@.len() == l + 1,
                width == pw(l as nat),
                1 <= width <= n,
                l < width,
                forall|t: int|
                    0 <= t < m@.len() ==> (#[trigger] m@[t])@.len() >= 1 && m@[t]@.len() + pw(
                        t as nat,
                    ) == n + 1,
                forall|t: int, k: int|
                    0 <= t < m@.len() && 0 <= k < m@[t]@.len() ==> is_argmin(
                        a,
                        k,
                        k + pw(t as nat) - 1,
                        (#[trigger] m@[t]@[k]) as int,
                    ),
            decreases n - width,
        {
            let mut cur: Vec<usize> = Vec::new();
            let mut i: usize = 0;
            assert(pw((l + 1) as nat) == 2 * width);
            while i <= n - 2 * width
                invariant
                    n == a.len(),
                    a == numbers@,
                    m@.len() == l + 1,
                    width == pw(l as nat),
                    1 <= width <= n / 2,
                    m@[l as int]@.len() + width == n + 1,
                    forall|k: int|
                        0 <= k < m@[l as int]@.len() ==> is_argmin(
                            a,
                            k,
                            k + width - 1,
                            (#[trigger] m@[l as int]@[k]) as int,
                        ),
                    cur@.len() == i,
                    i <= n - 2 * width + 1,
                    forall|k: int|
                        0 <= k < i ==> is_argmin(a, k, k + 2 * width - 1, (#[trigger] cur@[k]) as int),
                decreases n - i,
            {
                let left = m[l][i];
                let right = m[l][i + width];
                proof {
                    lemma_argmin_union(
                        a,
                        i as int,
                        i + width - 1,
                        i + width,
                        i + 2 * width - 1,
                        left as int,
                        right as int,
                    );
                }
                if numbers[left] <= numbers[right] {
                    cur.push(left);
                } else {
                    cur.push(right);
                }
                i = i + 1;
            }
            let ghost m0 = m@;
            m.push(cur);
            proof {
                assert forall|t: int|
                    0 <= t < m@.len() implies ((#[trigger] m@[t])@.len() >= 1 && m@[t]@.len() + pw(
                    t as nat,
                ) == n + 1) by {
                    if t < m0.len() {
                        assert(m0[t] == m@[t]);
                    }
                }
                assert forall|t: int, k: int|
                    0 <= t < m@.len() && 0 <= k < m@[t]@.len() implies is_argmin(
                    a,
                    k,
                    k + pw(t as nat) - 1,
                    (#[trigger] m@[t]@[k]) as int,
                ) by {
                    if t < m0.len() {
                        assert(m0[t] == m@[t]);
                    }
                }
            }
            width = width * 2;
            l = l + 1;
        }
        assert(pw((l + 1) as nat) == 2 * width);
        RMQSparse { m, numbers }
    }

    /// Position of the leftmost minimum of `numbers[from..=to]`, from two overlapping
    /// power-of-two ranges.
    pub fn range_minimum_query(&self, from: usize, to: usize) -> (r: Result<usize, RMQError>)
        requires
            self.wf(),
        ensures
            rmq_result(self@, from as int, to as int, r),
    {
        if from > to || to >= self.numbers.len() {
            return Err(RMQError::OutOfRange);
        }
        let (l, width) = level_for(to + 1 - from);
        proof {
            if l >= self.m@.len() {
                lemma_pw_grows((self.m@.len() - 1) as nat, l as nat);
                lemma_pw_grows(self.m@.len() as nat, l as nat);
            }
        }
        let a = self.m[l][from];
        let b = self.m[l][to + 1 - width];
        proof {
            lemma_argmin_union(
                self.numbers@,
                from as int,
                from + width - 1,
                to + 1 - width,
                to as int,
                a as int,
                b as int,
            );
        }
        if self.numbers[a] <= self.numbers[b] {
            Ok(a)
        } else {
            Ok(b)
        }
    }
}

impl RMQ for RMQSparse {
    open spec fn numbers(&self) -> Seq<u64> {
        self@
    }

    closed spec fn wf(&self) -> bool {
        RMQSparse::wf(self)
    }

    fn new(numbers: Vec<u64>) -> (r: Self) {
        RMQSparse::new(numbers)
    }

    fn range_minimum_query(&self, from: usize, to: usize) -> (r: Result<usize, RMQError>) {
        RMQSparse::range_minimum_query(self, from, to)
    }
}

} // verus!
