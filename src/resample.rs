//! Sample placement for integer-factor interpolation.
use vstd::prelude::*;

verus! {

/// `input` spread out by `factor`: input sample `j` lands at `j * factor`,
/// every other position holds `zero`.
pub open spec fn stuffed<T>(input: Seq<T>, factor: nat, zero: T) -> Seq<T> {
    Seq::new(
        input.len() * factor,
        |i: int|
            if i % (factor as int) == 0 {
                input[i / (factor as int)]
            } else {
                zero
            },
    )
}

/// Inserts `factor - 1` copies of `zero` after each input sample, the first
/// step of interpolation by `factor`.
pub fn zero_stuff<T: Copy>(input: &[T], factor: usize, zero: T) -> (r: Vec<T>)
    requires
        factor > 0,
        input@.len() * factor <= usize::MAX,
    ensures
        r@ == stuffed(input@, factor as nat, zero),
{
    let n = input.len() * factor;
    let mut out: Vec<T> = Vec::new();
    let mut i: usize = 0;
    while i < n
        invariant
            factor > 0,
            n == input@.len() * factor,
            i <= n,
            out@ == stuffed(input@, factor as nat, zero).take(i as int),
        decreases n - i,
    {
        proof {
            assert(i / factor < input@.len()) by (nonlinear_arith)
                requires
                    i < n,
                    n == input@.len() * factor,
                    factor > 0,
            ;
        }
        let v = if i % factor == 0 {
            input[i / factor]
        } else {
            zero
        };
        out.push(v);
        i = i + 1;
        assert(out@ =~= stuffed(input@, factor as nat, zero).take(i as int));
    }
    assert(out@ =~= stuffed(input@, factor as nat, zero));
    out
}

} // verus!
