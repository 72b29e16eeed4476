use vstd::prelude::*;

verus! {

/// A predecessor instance: the keys, then the queries.
pub struct PDInstance {
    pub numbers: Vec<u64>,
    pub queries: Vec<u64>,
}

/// A range-minimum instance: the array, then the `(from, to)` queries.
pub struct RMQInstance {
    pub numbers: Vec<u64>,
    pub queries: Vec<(usize, usize)>,
}

/// An instance text that does not follow the format.
#[derive(Debug, PartialEq, Eq, Structural)]
pub enum InstanceError {
    Malformed,
}

/// Space, tab or carriage return.
pub open spec fn is_space(c: u8) -> bool {
    c == 32 || c == 9 || c == 13
}

pub open spec fn is_digit(c: u8) -> bool {
    48 <= c <= 57
}

/// A line holding only spaces.
pub open spec fn is_blank(l: Seq<u8>) -> bool {
    forall|i: int| 0 <= i < l.len() ==> is_space(#[trigger] l[i])
}

/// The lines of `t[start..]`, where the scan has reached `i`: split at each newline,
/// with no empty line after a final newline.
pub open spec fn lines_acc(t: Seq<u8>, i: int, start: int) -> Seq<Seq<u8>>
    decreases t.len() - i,
{
    if i >= t.len() {
        if start < t.len() {
            seq![t.subrange(start, t.len() as int)]
        } else {
            Seq::empty()
        }
    } else if t[i] == 10 {
        seq![t.subrange(start, i)] + lines_acc(t, i + 1, i + 1)
    } else {
        lines_acc(t, i + 1, start)
    }
}

/// The lines of `t`.
pub open spec fn lines_of(t: Seq<u8>) -> Seq<Seq<u8>> {
    lines_acc(t, 0, 0)
}

/// The lines of `ls` that are not blank, in order.
pub open spec fn keep_nonblank(ls: Seq<Seq<u8>>) -> Seq<Seq<u8>>
    decreases ls.len(),
{
    if ls.len() == 0 {
        Seq::empty()
    } else if is_blank(ls.last()) {
        keep_nonblank(ls.drop_last())
    } else {
        keep_nonblank(ls.drop_last()).push(ls.last())
    }
}

/// First position at or after `i` that is not a space.
pub open spec fn skip_spaces(l: Seq<u8>, i: int) -> int
    decreases l.len() - i,
{
    if 0 <= i < l.len() && is_space(l[i]) {
        skip_spaces(l, i + 1)
    } else {
        i
    }
}

/// First position at or after `i` that is not a digit.
pub open spec fn skip_digits(l: Seq<u8>, i: int) -> int
    decreases l.len() - i,
{
    if 0 <= i < l.len() && is_digit(l[i]) {
        skip_digits(l, i + 1)
    } else {
        i
    }
}

/// Decimal value of the digits `l[a..b)`.
pub open spec fn digits_value(l: Seq<u8>, a: int, b: int) -> int
    decreases b - a,
{
    if b <= a {
        0
    } else {
        digits_value(l, a, b - 1) * 10 + (l[b - 1] - 48)
    }
}

/// The number of a line made of spaces, one run of digits, and spaces; `None` when
/// the line is otherwise or its value does not fit in 64 bits.
pub open spec fn line_number(l: Seq<u8>) -> Option<u64> {
    let a = skip_spaces(l, 0);
    let b = skip_digits(l, a);
    if a < b && skip_spaces(l, b) == l.len() && digits_value(l, a, b) <= u64::MAX {
        Some(digits_value(l, a, b) as u64)
    } else {
        None
    }
}

/// The pair of a line `i,j` (spaces allowed around each number).
pub open spec fn line_pair(l: Seq<u8>) -> Option<(u64, u64)> {
    let a = skip_spaces(l, 0);
    let b = skip_digits(l, a);
    let c = skip_spaces(l, b);
    let d = skip_spaces(l, c + 1);
    let e = skip_digits(l, d);
    if a < b && c < l.len() && l[c] == 44 && d < e && skip_spaces(l, e) == l.len()
        && digits_value(l, a, b) <= u64::MAX && digits_value(l, d, e) <= u64::MAX {
        Some((digits_value(l, a, b) as u64, digits_value(l, d, e) as u64))
    } else {
        None
    }
}

/// The pair of a line known to hold one.
pub open spec fn pair_of(l: Seq<u8>) -> (u64, u64) {
    line_pair(l)->0
}

/// Keys and queries of a predecessor instance: the first non-blank line holds the
/// count `n`, the next `n` non-blank lines the keys, the rest the queries.
pub open spec fn pd_instance_of(t: Seq<u8>) -> Option<(Seq<u64>, Seq<u64>)> {
    let nb = keep_nonblank(lines_of(t));
    if nb.len() >= 1 && line_number(nb[0]) is Some && nb.len() >= 1 + line_number(
        nb[0],
    )->0 && forall|i: int| 1 <= i < nb.len() ==> #[trigger] line_number(nb[i]) is Some {
        let n = line_number(nb[0])->0 as int;
        Some(
            (
                Seq::new(n as nat, |i: int| line_number(nb[1 + i])->0),
                Seq::new((nb.len() - 1 - n) as nat, |i: int| line_number(nb[1 + n + i])->0),
            ),
        )
    } else {
        None
    }
}

/// Array and queries of a range-minimum instance, laid out as for predecessors but
/// with `i,j` query lines.
pub open spec fn rmq_instance_of(t: Seq<u8>) -> Option<(Seq<u64>, Seq<(usize, usize)>)> {
    let nb = keep_nonblank(lines_of(t));
    if nb.len() >= 1 && line_number(nb[0]) is Some && nb.len() >= 1 + line_number(
        nb[0],
    )->0 && (forall|i: int|
        1 <= i <= line_number(nb[0])->0 ==> #[trigger] line_number(nb[i]) is Some) && (forall|
        i: int,
    |
        1 + line_number(nb[0])->0 <= i < nb.len() ==> #[trigger] line_pair(nb[i]) is Some
            && pair_of(nb[i]).0 <= usize::MAX && pair_of(nb[i]).1 <= usize::MAX) {
        let n = line_number(nb[0])->0 as int;
        Some(
            (
                Seq::new(n as nat, |i: int| line_number(nb[1 + i])->0),
                Seq::new(
                    (nb.len() - 1 - n) as nat,
                    |i: int|
                        (
                            pair_of(nb[1 + n + i]).0 as usize,
                            pair_of(nb[1 + n + i]).1 as usize,
                        ),
                ),
            ),
        )
    } else {
        None
    }
}

proof fn lemma_blank_push(l: Seq<u8>, c: u8)
    ensures
        is_blank(l.push(c)) == (is_blank(l) && is_space(c)),
{
    if is_blank(l.push(c)) {
        assert(l.push(c)[l.len() as int] == c);
        assert forall|i: int| 0 <= i < l.len() implies is_space(#[trigger] l[i]) by {
            assert(l.push(c)[i] == l[i]);
        }
    }
    if is_blank(l) && is_space(c) {
        assert forall|i: int| 0 <= i < l.len() + 1 implies is_space(#[trigger] l.push(c)[i]) by {
            if i < l.len() {
                assert(l.push(c)[i] == l[i]);
            }
        }
    }
}

/// Start and end of each non-blank line of `text`.
fn nonblank_line_ranges(text: &[u8]) -> (r: Vec<(usize, usize)>)
    ensures
        r@.len() == keep_nonblank(lines_of(text@)).len(),
        forall|k: int|
            0 <= k < r@.len() ==> (#[trigger] r@[k]).0 <= r@[k].1 <= text@.len()
                && text@.subrange(r@[k].0 as int, r@[k].1 as int) == keep_nonblank(
                lines_of(text@),
            )[k],
{
    let ghost t = text@;
    let n = text.len();
    let mut out: Vec<(usize, usize)> = Vec::new();
    let ghost mut done: Seq<Seq<u8>> = Seq::empty();
    let mut start: usize = 0;
    let mut i: usize = 0;
    let mut blank = true;
    while i < n
        invariant
            n == t.len(),
            t == text@,
            start <= i <= n,
            done + lines_acc(t, i as int, start as int) == lines_of(t),
            blank == is_blank(t.subrange(start as int, i as int)),
            out@.len() == keep_nonblank(done).len(),
            forall|k: int|
                0 <= k < out@.len() ==> (#[trigger] out@[k]).0 <= out@[k].1 <= n && t.subrange(
                    out@[k].0 as int,
                    out@[k].1 as int,
                ) == keep_nonblank(done)[k],
        decreases n - i,
    {
        if text[i] == 10 {
            let ghost line = t.subrange(start as int, i as int);
            let ghost d0 = done;
            proof {
                assert(lines_acc(t, i as int, start as int) == seq![line] + lines_acc(
                    t,
                    i + 1,
                    i + 1,
                ));
                assert(done + lines_acc(t, i as int, start as int) =~= done.push(line) + lines_acc(
                    t,
                    i + 1,
                    i + 1,
                ));
                done = done.push(line);
                assert(done.drop_last() =~= d0);
            }
            if !blank {
                out.push((start, i));
            }
            start = i + 1;
            blank = true;
            proof {
                assert(t.subrange(start as int, (i + 1) as int) =~= Seq::<u8>::empty());
            }
        } else {
            proof {
                assert(t.subrange(start as int, (i + 1) as int) =~= t.subrange(
                    start as int,
                    i as int,
                ).push(t[i as int]));
                lemma_blank_push(t.subrange(start as int, i as int), t[i as int]);
            }
            if !(text[i] == 32 || text[i] == 9 || text[i] == 13) {
                blank = false;
            }
        }
        i = i + 1;
    }
    if start < n {
        let ghost line = t.subrange(start as int, n as int);
        let ghost d0 = done;
        proof {
            assert(done + lines_acc(t, n as int, start as int) =~= done.push(line));
            done = done.push(line);
            assert(done.drop_last() =~= d0);
        }
        if !blank {
            out.push((start, n));
        }
    } else {
        proof {
            assert(done + lines_acc(t, n as int, start as int) =~= done);
        }
    }
    out
}

/// The number on the line `text[start..end)`, as [`line_number`] reads it.
fn parse_line_number(text: &[u8], start: usize, end: usize) -> (r: Option<u64>)
    requires
        start <= end <= text@.len(),
    ensures
        r == line_number(text@.subrange(start as int, end as int)),
{
    let ghost l = text@.subrange(start as int, end as int);
    let (a, b, v) = scan_digits(text, start, end, start);
    let c = skip_spaces_exec(text, start, end, b);
    if a < b && c == end {
        v
    } else {
        None
    }
}

/// The pair on the line `text[start..end)`, as [`line_pair`] reads it.
fn parse_line_pair(text: &[u8], start: usize, end: usize) -> (r: Option<(u64, u64)>)
    requires
        start <= end <= text@.len(),
    ensures
        r == line_pair(text@.subrange(start as int, end as int)),
{
    let ghost l = text@.subrange(start as int, end as int);
    let (a, b, v1) = scan_digits(text, start, end, start);
    let c = skip_spaces_exec(text, start, end, b);
    if !(a < b && c < end && text[c] == 44) {
        return None;
    }
    let (d, e, v2) = scan_digits(text, start, end, c + 1);
    let f = skip_spaces_exec(text, start, end, e);
    if d < e && f == end {
        match (v1, v2) {
            (Some(x), Some(y)) => Some((x, y)),
            _ => None,
        }
    } else {
        None
    }
}

/// From `from`, the first position of the line `text[start..end)` that is not a space.
fn skip_spaces_exec(text: &[u8], start: usize, end: usize, from: usize) -> (r: usize)
    requires
        start <= from <= end <= text@.len(),
    ensures
        r == start + skip_spaces(text@.subrange(start as int, end as int), from - start),
        from <= r <= end,
{
    let ghost l = text@.subrange(start as int, end as int);
    let mut i = from;
    while i < end && (text[i] == 32 || text[i] == 9 || text[i] == 13)
        invariant
            start <= from <= i <= end <= text@.len(),
            l == text@.subrange(start as int, end as int),
            skip_spaces(l, from - start) == skip_spaces(l, i - start),
        decreases end - i,
    {
        i = i + 1;
    }
    i
}

/// Skips spaces from `from`, then reads a run of digits: its start, its end, and its
/// value when that fits in 64 bits.
fn scan_digits(text: &[u8], start: usize, end: usize, from: usize) -> (r: (usize, usize, Option<u64>))
    requires
        start <= from <= end <= text@.len(),
    ensures
        r.0 == start + skip_spaces(text@.subrange(start as int, end as int), from - start),
        r.1 == start + skip_digits(text@.subrange(start as int, end as int), r.0 - start),
        from <= r.0 <= r.1 <= end,
        r.2 == (if digits_value(
            text@.subrange(start as int, end as int),
            r.0 - start,
            r.1 - start,
        ) <= u64::MAX {
            Some(
                digits_value(text@.subrange(start as int, end as int), r.0 - start, r.1 - start)
                    as u64,
            )
        } else {
            None::<u64>
        }),
{
    let ghost l = text@.subrange(start as int, end as int);
    let a = skip_spaces_exec(text, start, end, from);
    let mut i = a;
    let mut value: u64 = 0;
    let mut fits = true;
    while i < end && 48 <= text[i] && text[i] <= 57
        invariant
            start <= a <= i <= end <= text@.len(),
            l == text@.subrange(start as int, end as int),
            skip_digits(l, a - start) == skip_digits(l, i - start),
            fits ==> value == digits_value(l, a - start, i - start),
            !fits ==> digits_value(l, a - start, i - start) > u64::MAX,
            digits_value(l, a - start, i - start) >= 0,
        decreases end - i,
    {
        let d = (text[i] - 48) as u64;
        proof {
            assert(l[i - start] == text@[i as int]);
            assert(digits_value(l, a - start, i + 1 - start) == digits_value(l, a - start, i - start)
                * 10 + d);
        }
        if fits && value <= (u64::MAX - d) / 10 {
            value = value * 10 + d;
        } else {
            fits = false;
        }
        i = i + 1;
    }
    (a, i, if fits {
        Some(value)
    } else {
        None
    })
}

/// Reads a predecessor instance from its text.
pub fn parse_pd_instance(text: &[u8]) -> (r: Result<PDInstance, InstanceError>)
    ensures
        pd_instance_of(text@) is None <==> r is Err,
        r matches Ok(inst) ==> pd_instance_of(text@) == Some((inst.numbers@, inst.queries@)),
{
    let ghost nb = keep_nonblank(lines_of(text@));
    let lines = nonblank_line_ranges(text);
    if lines.len() == 0 {
        return Err(InstanceError::Malformed);
    }
    let count = match parse_line_number(text, lines[0].0, lines[0].1) {
        Some(c) => c,
        None => {
            return Err(InstanceError::Malformed);
        },
    };
    if count > (lines.len() - 1) as u64 {
        return Err(InstanceError::Malformed);
    }
    let count = count as usize;
    let mut numbers: Vec<u64> = Vec::new();
    let mut queries: Vec<u64> = Vec::new();
    let mut k: usize = 1;
    while k < lines.len()
        invariant
            nb == keep_nonblank(lines_of(text@)),
            lines@.len() == nb.len(),
            forall|j: int|
                0 <= j < lines@.len() ==> (#[trigger] lines@[j]).0 <= lines@[j].1 <= text@.len()
                    && text@.subrange(lines@[j].0 as int, lines@[j].1 as int) == nb[j],
            line_number(nb[0]) == Some(count as u64),
            1 + count <= nb.len(),
            1 <= k <= lines@.len(),
            forall|j: int| 1 <= j < k ==> #[trigger] line_number(nb[j]) is Some,
            numbers@.len() == if k <= 1 + count {
                k - 1
            } else {
                count as int
            },
            queries@.len() == if k <= 1 + count {
                0
            } else {
                k - 1 - count
            },
            forall|j: int| 0 <= j < numbers@.len() ==> numbers@[j] == line_number(nb[1 + j])->0,
            forall|j: int|
                0 <= j < queries@.len() ==> queries@[j] == line_number(nb[1 + count + j])->0,
        decreases lines@.len() - k,
    {
        let v = match parse_line_number(text, lines[k].0, lines[k].1) {
            Some(v) => v,
            None => {
                return Err(InstanceError::Malformed);
            },
        };
        if k <= count {
            numbers.push(v);
        } else {
            queries.push(v);
        }
        k = k + 1;
    }
    proof {
        assert(numbers@ =~= Seq::new(count as nat, |i: int| line_number(nb[1 + i])->0));
        assert(queries@ =~= Seq::new(
            (nb.len() - 1 - count) as nat,
            |i: int| line_number(nb[1 + count + i])->0,
        ));
    }
    Ok(PDInstance { numbers, queries })
}

/// Reads a range-minimum instance from its text.
pub fn parse_rmq_instance(text: &[u8]) -> (r: Result<RMQInstance, InstanceError>)
    ensures
        rmq_instance_of(text@) is None <==> r is Err,
        r matches Ok(inst) ==> rmq_instance_of(text@) == Some((inst.numbers@, inst.queries@)),
{
    let ghost nb = keep_nonblank(lines_of(text@));
    let lines = nonblank_line_ranges(text);
    if lines.len() == 0 {
        return Err(InstanceError::Malformed);
    }
    let count = match parse_line_number(text, lines[0].0, lines[0].1) {
        Some(c) => c,
        None => {
            return Err(InstanceError::Malformed);
        },
    };
    if count > (lines.len() - 1) as u64 {
        return Err(InstanceError::Malformed);
    }
    let count = count as usize;
    let mut numbers: Vec<u64> = Vec::new();
    let mut queries: Vec<(usize, usize)> = Vec::new();
    let mut k: usize = 1;
    while k < lines.len()
        invariant
            nb == keep_nonblank(lines_of(text@)),
            lines@.len() == nb.len(),
            forall|j: int|
                0 <= j < lines@.len() ==> (#[trigger] lines@[j]).0 <= lines@[j].1 <= text@.len()
                    && text@.subrange(lines@[j].0 as int, lines@[j].1 as int) == nb[j],
            line_number(nb[0]) == Some(count as u64),
            1 + count <= nb.len(),
            1 <= k <= lines@.len(),
            forall|j: int| 1 <= j < k && j <= count ==> #[trigger] line_number(nb[j]) is Some,
            forall|j: int|
                1 + count <= j < k ==> #[trigger] line_pair(nb[j]) is Some && pair_of(nb[j]).0
                    <= usize::MAX && pair_of(nb[j]).1 <= usize::MAX,
            numbers@.len() == if k <= 1 + count {
                k - 1
            } else {
                count as int
            },
            queries@.len() == if k <= 1 + count {
                0
            } else {
                k - 1 - count
            },
            forall|j: int| 0 <= j < numbers@.len() ==> numbers@[j] == line_number(nb[1 + j])->0,
            forall|j: int|
                0 <= j < queries@.len() ==> queries@[j] == (
                    pair_of(nb[1 + count + j]).0 as usize,
                    pair_of(nb[1 + count + j]).1 as usize,
                ),
        decreases lines@.len() - k,
    {
        if k <= count {
            let v = match parse_line_number(text, lines[k].0, lines[k].1) {
                Some(v) => v,
                None => {
                    return Err(InstanceError::Malformed);
                },
            };
            numbers.push(v);
        } else {
            let (a, b) = match parse_line_pair(text, lines[k].0, lines[k].1) {
                Some(p) => p,
                None => {
                    return Err(InstanceError::Malformed);
                },
            };
            if a > usize::MAX as u64 || b > usize::MAX as u64 {
                return Err(InstanceError::Malformed);
            }
            queries.push((a as usize, b as usize));
        }
        k = k + 1;
    }
    proof {
        assert(numbers@ =~= Seq::new(count as nat, |i: int| line_number(nb[1 + i])->0));
        assert(queries@ =~= Seq::new(
            (nb.len() - 1 - count) as nat,
            |i: int|
                (
                    pair_of(nb[1 + count + i]).0 as usize,
                    pair_of(nb[1 + count + i]).1 as usize,
                ),
        ));
    }
    Ok(RMQInstance { numbers, queries })
}

} // verus!
