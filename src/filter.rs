//! Integer rules of the window-method filter designer.
use vstd::prelude::*;

verus! {

/// `n` rounded up to the next odd number.
pub open spec fn odd_up(n: nat) -> nat {
    if n % 2 == 0 {
        n + 1
    } else {
        n
    }
}

proof fn lemma_or_one(n: usize)
    by (bit_vector)
    ensures
        n | 1 == if n % 2 == 0 {
            (n + 1) as usize
        } else {
            n
        },
{
}

/// `n` rounded up to the next odd number, so that a filter of `n` taps has
/// a centre tap.
pub fn odd_taps(n: usize) -> (r: usize)
    ensures
        r == odd_up(n as nat),
{
    proof {
        lemma_or_one(n);
    }
    n | 1
}

/// The tap count of a window-method design: the larger of an explicit
/// count and the count that a transition width calls for (four times the
/// sample rate over the width, rounded up), made odd. `None` when neither
/// asks for any tap.
pub fn tap_count(explicit: Option<usize>, for_width: Option<usize>) -> (r: Option<usize>)
    ensures
        ({
            let e: nat = match explicit {
                Some(n) => n as nat,
                None => 0,
            };
            let w: nat = match for_width {
                Some(n) => n as nat,
                None => 0,
            };
            let m = if e >= w {
                e
            } else {
                w
            };
            r == if m == 0 {
                None
            } else {
                Some(odd_up(m) as usize)
            }
        }),
{
    let mut num_taps: usize = match explicit {
        Some(n) => n,
        None => 0,
    };
    if let Some(w) = for_width {
        if w > num_taps {
            num_taps = w;
        }
    }
    if num_taps == 0 {
        None
    } else {
        Some(odd_taps(num_taps))
    }
}

} // verus!
