use vstd::prelude::*;

verus! {

/// Decimal digits of `v`, most significant first.
pub open spec fn decimal(v: nat) -> Seq<u8>
    decreases v,
{
    if v < 10 {
        seq![(48 + v) as u8]
    } else {
        decimal(v / 10).push((48 + v % 10) as u8)
    }
}

/// The values in decimal, separated by `", "`.
pub open spec fn joined(vals: Seq<u64>) -> Seq<u8>
    decreases vals.len(),
{
    if vals.len() == 0 {
        Seq::empty()
    } else if vals.len() == 1 {
        decimal(vals[0] as nat)
    } else {
        joined(vals.drop_last()) + seq![44u8, 32u8] + decimal(vals.last() as nat)
    }
}

/// Appends the decimal digits of `v` to `out`.
pub fn write_decimal(v: u64, out: &mut Vec<u8>)
    ensures
        final(out)@ == old(out)@ + decimal(v as nat),
    decreases v,
{
    if v >= 10 {
        write_decimal(v / 10, out);
    }
    out.push((48 + v % 10) as u8);
    proof {
        assert(final(out)@ =~= old(out)@ + decimal(v as nat)) by {
            if v >= 10 {
                assert(decimal(v as nat) == decimal((v / 10) as nat).push((48 + v % 10) as u8));
            }
        }
    }
}

/// The output line: the results in decimal, separated by `", "`.
pub fn format_results(values: &[u64]) -> (r: Vec<u8>)
    ensures
        r@ == joined(values@),
{
    let mut out: Vec<u8> = Vec::new();
    let mut i: usize = 0;
    while i < values.len()
        invariant
            i <= values@.len(),
            out@ == joined(values@.subrange(0, i as int)),
        decreases values@.len() - i,
    {
        let ghost prefix = values@.subrange(0, i as int);
        let ghost next = values@.subrange(0, i + 1);
        proof {
            assert(next.drop_last() =~= prefix);
        }
        if i > 0 {
            out.push(44);
            out.push(32);
        }
        write_decimal(values[i], &mut out);
        proof {
            if i == 0 {
                assert(out@ =~= joined(next));
            } else {
                assert(out@ =~= joined(next));
            }
        }
        i = i + 1;
    }
    proof {
        assert(values@.subrange(0, values@.len() as int) =~= values@);
    }
    out
}

} // verus!
