//! Early-late symbol timing recovery: a five-sample window slides over the
//! matched filter output and, once per symbol, its centre sample is taken
//! while the comparison of its two ends moves the next decision by one
//! sample.
use vstd::prelude::*;

verus! {

/// How the ends of the window compared at a decision.
#[derive(Clone, Copy, Debug, PartialEq, Eq, Structural)]
pub enum Timing {
    /// Early and late ends within tolerance: keep the symbol period.
    OnTime,
    /// The early end is larger: take the next decision one sample sooner.
    Late,
    /// The late end is larger: take the next decision one sample later.
    Early,
}

/// Countdown to the next decision after a decision judged `timing`, for a
/// nominal period of `d` samples.
pub open spec fn reload(d: nat, timing: Timing) -> nat {
    match timing {
        Timing::OnTime => d,
        Timing::Late => (d - 1) as nat,
        Timing::Early => d + 1,
    }
}

/// Countdown and whether a decision is taken, after one sample arrives with
/// countdown `pos`.
pub open spec fn timing_step(d: nat, pos: nat, timing: Timing) -> (nat, bool) {
    let p = if pos > 0 {
        (pos - 1) as nat
    } else {
        0
    };
    if p == 0 {
        (reload(d, timing), true)
    } else {
        (p, false)
    }
}

/// Countdown and number of decisions after `m` samples from countdown `pos`,
/// every decision being on time.
pub open spec fn on_time_run(d: nat, pos: nat, m: nat) -> (nat, nat)
    decreases m,
{
    if m == 0 {
        (pos, 0)
    } else {
        let prev = on_time_run(d, pos, (m - 1) as nat);
        let step = timing_step(d, prev.0, Timing::OnTime);
        (step.0, prev.1 + if step.1 {
            1nat
        } else {
            0nat
        })
    }
}

/// The window and countdown of an early-late timing gate.
pub struct EarlyLate<T> {
    window: Vec<T>,
    decimation_factor: usize,
    position: usize,
}

impl<T> EarlyLate<T> {
    /// The last five samples, oldest first.
    pub closed spec fn window(&self) -> Seq<T> {
        self.window@
    }

    /// Nominal samples per decision.
    pub closed spec fn decimation_factor(&self) -> nat {
        self.decimation_factor as nat
    }

    /// Samples left until the next decision.
    pub closed spec fn position(&self) -> nat {
        self.position as nat
    }

    #[verifier::type_invariant]
    spec fn well_formed(&self) -> bool {
        &&& self.window@.len() == 5
        &&& 5 <= self.decimation_factor < usize::MAX
        &&& self.position <= self.decimation_factor + 1
    }
}

impl<T: Copy> EarlyLate<T> {
    /// A gate deciding every `decimation_factor` samples, its window filled
    /// with `zero`.
    pub fn new(decimation_factor: usize, zero: T) -> (r: Self)
        requires
            5 <= decimation_factor < usize::MAX,
        ensures
            r.window() == seq![zero, zero, zero, zero, zero],
            r.decimation_factor() == decimation_factor,
            r.position() == decimation_factor,
    {
        let window = vec![zero, zero, zero, zero, zero];
        EarlyLate { window, decimation_factor, position: decimation_factor }
    }

    /// The sample that is the early end of the window once the next sample
    /// has arrived.
    pub fn next_early(&self) -> (r: T)
        ensures
            r == self.window()[1],
    {
        proof {
            use_type_invariant(self);
        }
        self.window[1]
    }

    /// Takes one sample. When the countdown runs out, returns the centre of
    /// the window and restarts the countdown as `timing` says; `timing`
    /// compares the early end ([`Self::next_early`]) with the late end, the
    /// sample given here.
    pub fn process(&mut self, sample: T, timing: Timing) -> (r: Option<T>)
        ensures
            final(self).window() == old(self).window().drop_first().push(sample),
            final(self).window().len() == 5,
            5 <= final(self).decimation_factor() < usize::MAX,
            final(self).decimation_factor() == old(self).decimation_factor(),
            final(self).position() == timing_step(
                old(self).decimation_factor(),
                old(self).position(),
                timing,
            ).0,
            r == if timing_step(old(self).decimation_factor(), old(self).position(), timing).1 {
                Some(final(self).window()[2])
            } else {
                None::<T>
            },
    {
        proof {
            use_type_invariant(&*self);
        }
        self.window = vec![self.window[1], self.window[2], self.window[3], self.window[4], sample];
        assert(self.window@ =~= old(self).window@.drop_first().push(sample));
        if self.position > 0 {
            self.position = self.position - 1;
        }
        if self.position != 0 {
            return None;
        }
        self.position = match timing {
            Timing::OnTime => self.decimation_factor,
            Timing::Late => self.decimation_factor - 1,
            Timing::Early => self.decimation_factor + 1,
        };
        Some(self.window[2])
    }
}

proof fn lemma_on_time_first_cycle(d: nat, r: nat)
    requires
        1 <= d,
        r < d,
    ensures
        on_time_run(d, d, r) == ((d - r) as nat, 0nat),
    decreases r,
{
    if r > 0 {
        lemma_on_time_first_cycle(d, (r - 1) as nat);
    }
}

proof fn lemma_on_time_compose(d: nat, pos: nat, a: nat, b: nat)
    ensures
        on_time_run(d, pos, a + b) == (
            on_time_run(d, on_time_run(d, pos, a).0, b).0,
            on_time_run(d, pos, a).1 + on_time_run(d, on_time_run(d, pos, a).0, b).1,
        ),
    decreases b,
{
    if b > 0 {
        lemma_on_time_compose(d, pos, a, (b - 1) as nat);
        assert((a + b - 1) as nat == a + (b - 1) as nat);
    }
}

/// With every decision on time, a gate that starts a period (countdown at
/// the decimation factor `d`) decides exactly once per `d` samples, on the
/// last sample of each period, and its countdown is back at `d` after every
/// whole number of periods.
pub proof fn lemma_on_time_cadence(d: nat, n: nat, r: nat)
    requires
        5 <= d,
        r < d,
    ensures
        on_time_run(d, d, n * d + r) == ((d - r) as nat, n),
    decreases n,
{
    if n == 0 {
        lemma_on_time_first_cycle(d, r);
    } else {
        let m = (n - 1) as nat;
        lemma_on_time_cadence(d, m, (d - 1) as nat);
        assert(n * d == m * d + (d - 1) + 1) by (nonlinear_arith)
            requires
                n == m + 1,
        ;
        let a = (m * d + (d - 1)) as nat;
        lemma_on_time_compose(d, d, a, 1);
        assert(on_time_run(d, d, a + 1) == (d, n)) by {
            assert(on_time_run(d, 1, 1) == (d, 1nat));
        }
        lemma_on_time_first_cycle(d, r);
        lemma_on_time_compose(d, d, a + 1, r);
        assert(a + 1 + r == n * d + r);
    }
}

} // verus!
