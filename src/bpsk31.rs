//! The bit-level halves of the BPSK31 modem: the symbol frame that the
//! transmitter pulse-shapes, and the receiver's path from symbol decisions
//! to text.
use std::collections::HashMap;
use vstd::prelude::*;

use crate::buffer::Generator;
use crate::codec::differential::{
    diff_run, lemma_diff_round_trip, undiff_run, undiff_step, Differential, InverseDifferential,
};
use crate::codec::varicode::{
    bits_of, decode_run, decoded, encode_ascii_byte, encoded, lemma_varicode_round_trip, settle, frames, lemma_pattern_bits,
    lemma_shift_in_bits, lemma_table_injective, lemma_table_no_double_zero, lemma_table_shape,
    no_double_zero, pattern_table, shift_in, varicode,
};

verus! {

broadcast use vstd::std_specs::hash::group_hash_axioms;

/// Idle zero bits sent before the payload, for the receiver to lock on.
pub const PREAMBLE_BITS: usize = 80;

/// Zero bits sent after the payload.
pub const TAIL_ZERO_BITS: usize = 20;

/// One bits sent after the trailing zeros.
pub const TAIL_ONE_BITS: usize = 30;

/// Symbol periods of silence that close a frame.
pub const GAP_SYMBOLS: usize = 30;

/// The Unicode replacement character, received for an unknown pattern.
pub const REPLACEMENT: char = '\u{FFFD}';

/// `n` copies of `b`.
pub open spec fn repeat_bit(b: bool, n: nat) -> Seq<bool> {
    Seq::new(n, |i: int| b)
}

/// The Varicode bits of `bytes`, one character after the other.
pub open spec fn payload_bits(bytes: Seq<u8>) -> Seq<bool>
    decreases bytes.len(),
{
    if bytes.len() == 0 {
        Seq::empty()
    } else {
        payload_bits(bytes.drop_last()) + encoded(bytes.last())
    }
}

/// The data bits of one frame: preamble, payload, then the tail.
pub open spec fn frame_bits(bytes: Seq<u8>) -> Seq<bool> {
    repeat_bit(false, PREAMBLE_BITS as nat) + payload_bits(bytes) + repeat_bit(
        false,
        TAIL_ZERO_BITS as nat,
    ) + repeat_bit(true, TAIL_ONE_BITS as nat)
}

/// The symbols of one frame: the differentially coded data bits, each
/// `Some(level)`, then the closing silence as `None`.
pub open spec fn frame_symbols(bytes: Seq<u8>) -> Seq<Option<bool>> {
    diff_run(false, frame_bits(bytes)).1.map_values(|s: bool| Some(s)) + Seq::new(
        GAP_SYMBOLS as nat,
        |i: int| None::<bool>,
    )
}

fn push_repeated(out: &mut Vec<bool>, b: bool, n: usize)
    ensures
        final(out)@ == old(out)@ + repeat_bit(b, n as nat),
{
    let mut i: usize = 0;
    while i < n
        invariant
            i <= n,
            out@ == old(out)@ + repeat_bit(b, i as nat),
        decreases n - i,
    {
        out.push(b);
        i = i + 1;
        assert(out@ =~= old(out)@ + repeat_bit(b, i as nat));
    }
}

/// The data bits of one frame carrying `bytes`.
pub fn frame_bits_of(bytes: &Vec<u8>) -> (r: Vec<bool>)
    requires
        forall|i: int| 0 <= i < bytes@.len() ==> #[trigger] bytes@[i] < 128,
    ensures
        r@ == frame_bits(bytes@),
{
    let mut out: Vec<bool> = Vec::new();
    push_repeated(&mut out, false, PREAMBLE_BITS);
    let ghost pre = out@;
    let mut i: usize = 0;
    while i < bytes.len()
        invariant
            i <= bytes@.len(),
            forall|j: int| 0 <= j < bytes@.len() ==> #[trigger] bytes@[j] < 128,
            pre == repeat_bit(false, PREAMBLE_BITS as nat),
            out@ == pre + payload_bits(bytes@.take(i as int)),
        decreases bytes@.len() - i,
    {
        let code = encode_ascii_byte(bytes[i]);
        let mut j: usize = 0;
        let ghost before = out@;
        while j < code.len()
            invariant
                j <= code@.len(),
                out@ == before + code@.take(j as int),
            decreases code@.len() - j,
        {
            out.push(code[j]);
            j = j + 1;
            assert(out@ =~= before + code@.take(j as int));
        }
        assert(bytes@.take(i + 1).drop_last() =~= bytes@.take(i as int));
        assert(code@.take(j as int) =~= code@);
        i = i + 1;
        assert(out@ =~= pre + payload_bits(bytes@.take(i as int)));
    }
    assert(bytes@.take(i as int) =~= bytes@);
    push_repeated(&mut out, false, TAIL_ZERO_BITS);
    push_repeated(&mut out, true, TAIL_ONE_BITS);
    out
}

/// The symbols of one transmitted frame carrying `bytes`.
pub fn frame_symbols_of(bytes: &Vec<u8>) -> (r: Vec<Option<bool>>)
    requires
        forall|i: int| 0 <= i < bytes@.len() ==> #[trigger] bytes@[i] < 128,
    ensures
        r@ == frame_symbols(bytes@),
{
    let bits = frame_bits_of(bytes);
    let mut diff = Differential::new();
    let mut out: Vec<Option<bool>> = Vec::new();
    let mut i: usize = 0;
    while i < bits.len()
        invariant
            i <= bits@.len(),
            diff.acc == diff_run(false, bits@.take(i as int)).0,
            out@ == diff_run(false, bits@.take(i as int)).1.map_values(|s: bool| Some(s)),
        decreases bits@.len() - i,
    {
        let s = diff.process(bits[i]);
        out.push(Some(s));
        assert(bits@.take(i + 1).drop_last() =~= bits@.take(i as int));
        i = i + 1;
        assert(out@ =~= diff_run(false, bits@.take(i as int)).1.map_values(|s: bool| Some(s)));
    }
    assert(bits@.take(i as int) =~= bits@);
    let mut g: usize = 0;
    let ghost coded = out@;
    while g < GAP_SYMBOLS
        invariant
            g <= GAP_SYMBOLS,
            out@ == coded + Seq::new(g as nat, |i: int| None::<bool>),
        decreases GAP_SYMBOLS - g,
    {
        out.push(None);
        g = g + 1;
        assert(out@ =~= coded + Seq::new(g as nat, |i: int| None::<bool>));
    }
    out
}

/// Endless repetition of one frame's symbols, as the transmitter sends it.
pub struct SymbolCycle {
    frame: Vec<Option<bool>>,
    pos: usize,
}

impl SymbolCycle {
    /// The symbols being repeated.
    pub closed spec fn frame(&self) -> Seq<Option<bool>> {
        self.frame@
    }

    /// Index in the frame of the next symbol.
    pub closed spec fn pos(&self) -> nat {
        self.pos as nat
    }

    #[verifier::type_invariant]
    spec fn pos_in_frame(&self) -> bool {
        self.pos < self.frame@.len()
    }

    /// Repeats the frame that carries `bytes`.
    pub fn new(bytes: &Vec<u8>) -> (r: Self)
        requires
            forall|i: int| 0 <= i < bytes@.len() ==> #[trigger] bytes@[i] < 128,
        ensures
            r.frame() == frame_symbols(bytes@),
            r.pos() == 0,
    {
        let frame = frame_symbols_of(bytes);
        SymbolCycle { frame, pos: 0 }
    }

    /// The next symbol; after the last one of the frame comes the first.
    pub fn next(&mut self) -> (r: Option<bool>)
        ensures
            final(self).frame() == old(self).frame(),
            r == old(self).frame()[old(self).pos() as int],
            final(self).pos() == (old(self).pos() + 1) % old(self).frame().len(),
    {
        proof {
            use_type_invariant(&*self);
        }
        let r = self.frame[self.pos];
        if self.pos < self.frame.len() - 1 {
            proof {
                vstd::arithmetic::div_mod::lemma_small_mod(
                    (self.pos + 1) as nat,
                    self.frame@.len(),
                );
            }
            self.pos = self.pos + 1;
        } else {
            proof {
                vstd::arithmetic::div_mod::lemma_mod_self_0(self.frame@.len() as int);
            }
            self.pos = 0;
        }
        r
    }
}

impl Generator<Option<bool>> for SymbolCycle {
    /// The next `len` symbols of the repeated frame, and the cycle moved on
    /// by `len`.
    closed spec fn next_chunk(&self, len: nat) -> (Seq<Option<bool>>, Self) {
        (
            Seq::new(len, |i: int| self.frame@[(self.pos + i) % (self.frame@.len() as int)]),
            SymbolCycle {
                frame: self.frame,
                pos: ((self.pos + len) % (self.frame@.len() as int)) as usize,
            },
        )
    }

    /// Fills `chunk` with the next symbols.
    fn generate(&mut self, chunk: &mut [Option<bool>]) {
        proof {
            use_type_invariant(&*self);
        }
        let ghost n = self.frame@.len() as int;
        let ghost p0 = self.pos as int;
        proof {
            vstd::arithmetic::div_mod::lemma_small_mod(p0 as nat, n as nat);
        }
        let mut i: usize = 0;
        while i < chunk.len()
            invariant
                n > 0,
                self.frame == old(self).frame,
                n == self.frame@.len(),
                p0 == old(self).pos,
                self.pos < n,
                self.pos as int == (p0 + i) % n,
                chunk@.len() == old(chunk)@.len(),
                i <= chunk@.len(),
                forall|j: int| 0 <= j < i ==> chunk@[j] == self.frame@[(p0 + j) % n],
            decreases chunk@.len() - i,
        {
            chunk[i] = self.frame[self.pos];
            proof {
                vstd::arithmetic::div_mod::lemma_add_mod_noop_right(1, p0 + i, n);
            }
            if self.pos < self.frame.len() - 1 {
                proof {
                    vstd::arithmetic::div_mod::lemma_small_mod((self.pos + 1) as nat, n as nat);
                }
                self.pos = self.pos + 1;
            } else {
                proof {
                    vstd::arithmetic::div_mod::lemma_mod_self_0(n);
                }
                self.pos = 0;
            }
            i = i + 1;
        }
        assert(chunk@ =~= old(self).next_chunk(old(chunk)@.len()).0);
    }
}

/// A chunk of symbols drawn from a cycle continues the frame where the cycle
/// stood, wrapping round, and moves the cycle on by the chunk's length.
pub proof fn lemma_symbol_chunk(c: SymbolCycle, len: nat)
    requires
        c.pos() < c.frame().len() <= usize::MAX,
    ensures
        c.next_chunk(len).0 == Seq::new(
            len,
            |i: int| c.frame()[(c.pos() + i) % (c.frame().len() as int)],
        ),
        c.next_chunk(len).1.frame() == c.frame(),
        c.next_chunk(len).1.pos() == (c.pos() + len) % c.frame().len(),
{
}

/// The text received for a completed pattern `k`.
pub open spec fn received_char(k: u32) -> char {
    match decoded(k) {
        Some(b) => b as char,
        None => REPLACEMENT,
    }
}

/// One step of the receiver's bit back end: from the accumulator `acc` and
/// a data bit to the next accumulator and the text completed, if any.
pub open spec fn receive_bit(acc: u32, bit: bool) -> (u32, Option<char>) {
    let k = shift_in(acc, bit);
    if k != 0 && k % 4 == 0 {
        (0, Some(received_char(k)))
    } else {
        (k, None)
    }
}

/// The receiver from symbol decisions to text: differential decoding, then
/// Varicode framing on `00`; an unknown pattern gives [`REPLACEMENT`].
pub struct SymbolDecoder {
    differential: InverseDifferential,
    bits: u32,
    lookup: HashMap<u32, u8>,
}

impl SymbolDecoder {
    /// The last line symbol seen.
    pub closed spec fn last(&self) -> bool {
        self.differential.last
    }

    /// The data bits received since the last character boundary.
    pub closed spec fn acc(&self) -> u32 {
        self.bits
    }

    #[verifier::type_invariant]
    spec fn lookup_is_table(&self) -> bool {
        &&& forall|k: u32| #[trigger] self.lookup@.contains_key(k) <==> decoded(k) is Some
        &&& forall|k: u32| #[trigger]
            self.lookup@.contains_key(k) ==> decoded(k) == Some(self.lookup@[k])
    }

    pub fn new() -> (r: Self)
        ensures
            r.last() == false,
            r.acc() == 0,
    {
        SymbolDecoder { differential: InverseDifferential::new(), bits: 0, lookup: pattern_table() }
    }

    /// Takes one symbol decision (`true` for a positive in-phase sample) and
    /// returns the character it completes, if any.
    pub fn process(&mut self, positive: bool) -> (r: Option<char>)
        ensures
            final(self).last() == positive,
            (final(self).acc(), r) == receive_bit(
                old(self).acc(),
                undiff_step(old(self).last(), positive),
            ),
    {
        proof {
            use_type_invariant(&*self);
        }
        let bit = self.differential.process(positive);
        let b: u32 = if bit {
            1
        } else {
            0
        };
        let k = (self.bits << 1) | b;
        proof {
            lemma_shift_in_bits(self.bits, b);
        }
        if k != 0 && k & 3 == 0 {
            self.bits = 0;
            match self.lookup.get(&k) {
                Some(v) => Some(*v as char),
                None => Some(REPLACEMENT),
            }
        } else {
            self.bits = k;
            None
        }
    }
}

/// Accumulator and outputs of the receiver's bit back end, started at `acc`
/// and fed the data bits `bits` in order.
pub open spec fn receive_run(acc: u32, bits: Seq<bool>) -> (u32, Seq<Option<char>>)
    decreases bits.len(),
{
    if bits.len() == 0 {
        (acc, Seq::empty())
    } else {
        let prev = receive_run(acc, bits.drop_last());
        let step = receive_bit(prev.0, bits.last());
        (step.0, prev.1.push(step.1))
    }
}

/// The values among `outs`, in order.
pub open spec fn somes<A>(outs: Seq<Option<A>>) -> Seq<A>
    decreases outs.len(),
{
    if outs.len() == 0 {
        Seq::empty()
    } else {
        let prev = somes(outs.drop_last());
        match outs.last() {
            Some(c) => prev.push(c),
            None => prev,
        }
    }
}

/// `bytes` read as characters.
pub open spec fn chars_of(bytes: Seq<u8>) -> Seq<char> {
    bytes.map_values(|b: u8| b as char)
}

proof fn lemma_receive_compose(acc: u32, a: Seq<bool>, b: Seq<bool>)
    ensures
        receive_run(acc, a + b) == (
            receive_run(receive_run(acc, a).0, b).0,
            receive_run(acc, a).1 + receive_run(receive_run(acc, a).0, b).1,
        ),
    decreases b.len(),
{
    let first = receive_run(acc, a);
    if b.len() == 0 {
        assert(a + b =~= a);
        assert(first.1 + receive_run(first.0, b).1 =~= first.1);
    } else {
        lemma_receive_compose(acc, a, b.drop_last());
        assert((a + b).drop_last() =~= a + b.drop_last());
        let rest = receive_run(first.0, b.drop_last());
        assert(first.1 + receive_run(first.0, b).1 =~= (first.1 + rest.1).push(
            receive_bit(rest.0, b.last()).1,
        ));
    }
}

proof fn lemma_somes_push<A>(outs: Seq<Option<A>>, x: Option<A>)
    ensures
        somes(outs.push(x)) == match x {
            Some(c) => somes(outs).push(c),
            None => somes(outs),
        },
{
    assert(outs.push(x).drop_last() =~= outs);
}

proof fn lemma_somes_concat<A>(x: Seq<Option<A>>, y: Seq<Option<A>>)
    ensures
        somes(x + y) == somes(x) + somes(y),
    decreases y.len(),
{
    if y.len() == 0 {
        assert(x + y =~= x);
        assert(somes(x) + somes(y) =~= somes(x));
    } else {
        lemma_somes_concat(x, y.drop_last());
        assert((x + y).drop_last() =~= x + y.drop_last());
        if let Some(c) = y.last() {
            assert(somes(x) + somes(y) =~= (somes(x) + somes(y.drop_last())).push(c));
        }
    }
}

proof fn lemma_receive_zeros(n: nat)
    ensures
        receive_run(0, repeat_bit(false, n)).0 == 0,
        somes(receive_run(0, repeat_bit(false, n)).1) == Seq::<char>::empty(),
    decreases n,
{
    if n > 0 {
        lemma_receive_zeros((n - 1) as nat);
        assert(repeat_bit(false, n).drop_last() =~= repeat_bit(false, (n - 1) as nat));
        assert(shift_in(0, false) == 0);
        lemma_somes_push(receive_run(0, repeat_bit(false, (n - 1) as nat)).1, None);
    } else {
        assert(somes(Seq::<Option<char>>::empty()) =~= Seq::<char>::empty());
    }
}

proof fn lemma_odd_not_framed(p: u32)
    by (bit_vector)
    ensures
        ((p << 1) | 1) % 4 != 0,
{
}

proof fn lemma_receive_ones(acc: u32, n: nat)
    ensures
        somes(receive_run(acc, repeat_bit(true, n)).1) == Seq::<char>::empty(),
    decreases n,
{
    if n > 0 {
        lemma_receive_ones(acc, (n - 1) as nat);
        assert(repeat_bit(true, n).drop_last() =~= repeat_bit(true, (n - 1) as nat));
        let prev = receive_run(acc, repeat_bit(true, (n - 1) as nat)).0;
        lemma_shift_in_bits(prev, 1);
        lemma_odd_not_framed(prev);
        assert(shift_in(prev, true) % 4 != 0);
        lemma_somes_push(receive_run(acc, repeat_bit(true, (n - 1) as nat)).1, None);
    } else {
        assert(somes(Seq::<Option<char>>::empty()) =~= Seq::<char>::empty());
    }
}

proof fn lemma_receive_pattern_prefix(c: u32)
    requires
        1 <= c < 1024,
        no_double_zero(c),
    ensures
        receive_run(0, bits_of(c as nat)).0 == c,
        somes(receive_run(0, bits_of(c as nat)).1) == Seq::<char>::empty(),
    decreases c,
{
    lemma_pattern_bits(c);
    let h = c / 2;
    let bs = bits_of(c as nat);
    assert(bs == bits_of(h as nat).push(c % 2 == 1));
    assert(bs.drop_last() =~= bits_of(h as nat));
    if h >= 1 {
        lemma_receive_pattern_prefix(h);
    } else {
        assert(bits_of(0) =~= Seq::<bool>::empty());
        assert(somes(Seq::<Option<char>>::empty()) =~= Seq::<char>::empty());
    }
    let k = shift_in(receive_run(0, bits_of(h as nat)).0, c % 2 == 1);
    assert(k == c);
    lemma_somes_push(receive_run(0, bits_of(h as nat)).1, None);
}

#[verifier::rlimit(40)]
proof fn lemma_receive_char(b: u8)
    requires
        b < 128,
    ensures
        receive_run(0, encoded(b)).0 == 0,
        somes(receive_run(0, encoded(b)).1) == seq![b as char],
{
    lemma_table_shape();
    lemma_table_no_double_zero();
    lemma_table_injective();
    let c = varicode(b as u32);
    lemma_pattern_bits(c);
    lemma_receive_pattern_prefix(c);
    let p = bits_of(c as nat);
    let e = encoded(b);
    assert(e.drop_last() =~= p.push(false));
    assert(e.drop_last().drop_last() =~= p);
    let k1 = shift_in(c, false);
    assert(k1 == c * 2);
    assert(k1 % 4 != 0) by {
        assert(c % 2 == 1);
    }
    let k2 = shift_in(k1, false);
    assert(k2 == c * 4);
    assert(frames(k2, b as u32));
    let w = choose|w: u32| frames(k2, w);
    assert(varicode(w) == varicode(b as u32));
    assert(decoded(k2) == Some(b));
    let r0 = receive_run(0, p);
    let r1 = receive_run(0, e.drop_last());
    assert(r1 == (k1, r0.1.push(None)));
    let r2 = receive_run(0, e);
    assert(r2 == (0u32, r1.1.push(Some(b as char))));
    lemma_somes_push(r0.1, None);
    lemma_somes_push(r1.1, Some(b as char));
    assert(somes(r2.1) =~= seq![b as char]);
}

proof fn lemma_receive_payload(bytes: Seq<u8>)
    requires
        forall|i: int| 0 <= i < bytes.len() ==> #[trigger] bytes[i] < 128,
    ensures
        receive_run(0, payload_bits(bytes)).0 == 0,
        somes(receive_run(0, payload_bits(bytes)).1) == chars_of(bytes),
    decreases bytes.len(),
{
    if bytes.len() == 0 {
        assert(somes(Seq::<Option<char>>::empty()) =~= Seq::<char>::empty());
        assert(chars_of(bytes) =~= Seq::<char>::empty());
    } else {
        let init = bytes.drop_last();
        let last = bytes.last();
        assert(last == bytes[bytes.len() - 1]);
        lemma_receive_payload(init);
        lemma_receive_compose(0, payload_bits(init), encoded(last));
        lemma_receive_char(last);
        lemma_somes_concat(
            receive_run(0, payload_bits(init)).1,
            receive_run(0, encoded(last)).1,
        );
        assert(chars_of(bytes) =~= chars_of(init) + seq![last as char]);
    }
}

/// One frame through the link: a receiver that starts idle and on the
/// transmitter's initial line level decodes the frame's line symbols back
/// into its data bits, and these into exactly the payload text.
pub proof fn lemma_frame_loopback(bytes: Seq<u8>)
    requires
        forall|i: int| 0 <= i < bytes.len() ==> #[trigger] bytes[i] < 128,
    ensures
        undiff_run(false, diff_run(false, frame_bits(bytes)).1).1 == frame_bits(bytes),
        somes(receive_run(0, frame_bits(bytes)).1) == chars_of(bytes),
{
    lemma_diff_round_trip(false, frame_bits(bytes));
    let pre = repeat_bit(false, PREAMBLE_BITS as nat);
    let payload = payload_bits(bytes);
    let zeros = repeat_bit(false, TAIL_ZERO_BITS as nat);
    let ones = repeat_bit(true, TAIL_ONE_BITS as nat);
    lemma_receive_zeros(PREAMBLE_BITS as nat);
    lemma_receive_payload(bytes);
    lemma_receive_compose(0, pre, payload);
    lemma_somes_concat(receive_run(0, pre).1, receive_run(0, payload).1);
    lemma_receive_zeros(TAIL_ZERO_BITS as nat);
    lemma_receive_compose(0, pre + payload, zeros);
    lemma_somes_concat(receive_run(0, pre + payload).1, receive_run(0, zeros).1);
    let body = pre + payload + zeros;
    let tail_acc = receive_run(0, body).0;
    lemma_receive_ones(tail_acc, TAIL_ONE_BITS as nat);
    lemma_receive_compose(0, body, ones);
    lemma_somes_concat(receive_run(0, body).1, receive_run(tail_acc, ones).1);
    assert(Seq::<char>::empty() + chars_of(bytes) =~= chars_of(bytes));
    assert(chars_of(bytes) + Seq::<char>::empty() =~= chars_of(bytes));
}

proof fn lemma_decode_compose(acc: u32, a: Seq<bool>, b: Seq<bool>)
    ensures
        decode_run(acc, a + b) == (
            decode_run(decode_run(acc, a).0, b).0,
            decode_run(acc, a).1 + decode_run(decode_run(acc, a).0, b).1,
        ),
    decreases b.len(),
{
    let first = decode_run(acc, a);
    if b.len() == 0 {
        assert(a + b =~= a);
        assert(first.1 + decode_run(first.0, b).1 =~= first.1);
    } else {
        lemma_decode_compose(acc, a, b.drop_last());
        assert((a + b).drop_last() =~= a + b.drop_last());
        let rest = decode_run(first.0, b.drop_last());
        assert(first.1 + decode_run(first.0, b).1 =~= (first.1 + rest.1).push(
            decoded(shift_in(rest.0, b.last())),
        ));
    }
}

proof fn lemma_somes_none<A>(outs: Seq<Option<A>>)
    requires
        forall|i: int| 0 <= i < outs.len() ==> #[trigger] outs[i] is None,
    ensures
        somes(outs) == Seq::<A>::empty(),
    decreases outs.len(),
{
    if outs.len() > 0 {
        lemma_somes_none(outs.drop_last());
        assert(outs.last() is None);
    }
}

proof fn lemma_two_zero_shifts(a: u32)
    by (bit_vector)
    ensures
        ((a << 1) | 0) % 4 == 0 || ((((a << 1) | 0) << 1) | 0) % 4 == 0,
{
}

proof fn lemma_decode_two_zeros(acc: u32, noise: Seq<bool>)
    ensures
        decode_run(acc, noise + seq![false, false]).0 == 0,
{
    let lead = noise + seq![false, false];
    assert(lead.drop_last() =~= noise.push(false));
    assert(lead.drop_last().drop_last() =~= noise);
    let a = decode_run(acc, noise).0;
    lemma_shift_in_bits(a, 0);
    let k1 = shift_in(a, false);
    lemma_shift_in_bits(k1, 0);
    lemma_two_zero_shifts(a);
    let m = settle(k1);
    assert(decode_run(acc, lead.drop_last()).0 == m);
    assert(decode_run(acc, lead).0 == settle(shift_in(m, false)));
    if m != 0 {
        assert(shift_in(m, false) % 4 == 0);
    } else {
        assert(shift_in(0, false) == 0);
    }
}

proof fn lemma_decode_payload(bytes: Seq<u8>)
    requires
        forall|i: int| 0 <= i < bytes.len() ==> #[trigger] bytes[i] < 128,
    ensures
        decode_run(0, payload_bits(bytes)).0 == 0,
        somes(decode_run(0, payload_bits(bytes)).1) == bytes,
    decreases bytes.len(),
{
    if bytes.len() == 0 {
        assert(somes(Seq::<Option<u8>>::empty()) =~= bytes);
    } else {
        let init = bytes.drop_last();
        let last = bytes.last();
        assert(last == bytes[bytes.len() - 1]);
        lemma_decode_payload(init);
        lemma_decode_compose(0, payload_bits(init), encoded(last));
        lemma_varicode_round_trip(last, 0);
        let e = encoded(last);
        assert(e + Seq::new(0, |i: int| false) =~= e);
        let outs = decode_run(0, e).1;
        lemma_somes_none(outs.drop_last());
        assert(outs =~= outs.drop_last().push(Some(last)));
        lemma_somes_push(outs.drop_last(), Some(last));
        assert(somes(outs) =~= seq![last]);
        lemma_somes_concat(decode_run(0, payload_bits(init)).1, outs);
        assert(bytes =~= init + seq![last]);
    }
}

/// Two zero bits resynchronise a Varicode decoder: whatever it held and
/// whatever bits it was fed before them, it is idle after them, and fed the
/// bits of ASCII text next it emits exactly that text, after any output the
/// earlier bits gave.
pub proof fn lemma_varicode_resync(acc: u32, noise: Seq<bool>, bytes: Seq<u8>)
    requires
        forall|i: int| 0 <= i < bytes.len() ==> #[trigger] bytes[i] < 128,
    ensures
        ({
            let lead = noise + seq![false, false];
            &&& decode_run(acc, lead).0 == 0
            &&& decode_run(acc, lead + payload_bits(bytes)).1 == decode_run(acc, lead).1
                + decode_run(0, payload_bits(bytes)).1
            &&& somes(decode_run(0, payload_bits(bytes)).1) == bytes
        }),
{
    lemma_decode_two_zeros(acc, noise);
    lemma_decode_compose(acc, noise + seq![false, false], payload_bits(bytes));
    lemma_decode_payload(bytes);
}

} // verus!
