//! Differential coding as used by PSK31: a `1` data bit keeps the carrier
//! phase, a `0` data bit flips it.
use vstd::prelude::*;

verus! {

/// The line symbol sent after the encoder state `acc` absorbs `bit`; it is
/// also the encoder's next state.
pub open spec fn diff_step(acc: bool, bit: bool) -> bool {
    acc ^ !bit
}

/// The data bit recovered from the previous line symbol `last` and the
/// current one `sym`: no phase change means `1`, a flip means `0`.
pub open spec fn undiff_step(last: bool, sym: bool) -> bool {
    !(last ^ sym)
}

/// Encoder state and line symbols after encoding `bits` from state `acc`.
pub open spec fn diff_run(acc: bool, bits: Seq<bool>) -> (bool, Seq<bool>)
    decreases bits.len(),
{
    if bits.len() == 0 {
        (acc, Seq::empty())
    } else {
        let prev = diff_run(acc, bits.drop_last());
        let a = diff_step(prev.0, bits.last());
        (a, prev.1.push(a))
    }
}

/// Decoder state and data bits after decoding `syms` from state `last`.
pub open spec fn undiff_run(last: bool, syms: Seq<bool>) -> (bool, Seq<bool>)
    decreases syms.len(),
{
    if syms.len() == 0 {
        (last, Seq::empty())
    } else {
        let prev = undiff_run(last, syms.drop_last());
        (syms.last(), prev.1.push(undiff_step(prev.0, syms.last())))
    }
}

/// Differential encoder.
pub struct Differential {
    pub acc: bool,
}

impl Differential {
    pub fn new() -> (r: Self)
        ensures
            r.acc == false,
    {
        Differential { acc: false }
    }

    /// Encodes one data bit and returns the line symbol.
    pub fn process(&mut self, bit: bool) -> (r: bool)
        ensures
            r == diff_step(old(self).acc, bit),
            final(self).acc == r,
    {
        self.acc = self.acc ^ !bit;
        self.acc
    }
}

/// Differential decoder, the inverse of [`Differential`].
pub struct InverseDifferential {
    pub last: bool,
}

impl InverseDifferential {
    pub fn new() -> (r: Self)
        ensures
            r.last == false,
    {
        InverseDifferential { last: false }
    }

    /// Decodes one line symbol and returns the data bit.
    pub fn process(&mut self, bit: bool) -> (r: bool)
        ensures
            r == undiff_step(old(self).last, bit),
            final(self).last == bit,
        no_unwind
    {
        let result = self.last == bit;
        self.last = bit;
        result
    }
}

/// Decoding the symbols of an encoder that started in the decoder's state
/// gives back the data bits, and leaves the decoder in the encoder's state.
pub proof fn lemma_diff_round_trip(acc: bool, bits: Seq<bool>)
    ensures
        diff_run(acc, bits).1.len() == bits.len(),
        undiff_run(acc, diff_run(acc, bits).1) == (diff_run(acc, bits).0, bits),
    decreases bits.len(),
{
    if bits.len() > 0 {
        let prev = diff_run(acc, bits.drop_last());
        lemma_diff_round_trip(acc, bits.drop_last());
        let syms = diff_run(acc, bits).1;
        assert(syms.drop_last() =~= prev.1);
        assert(undiff_run(acc, syms).1 =~= bits);
    }
}

} // verus!
