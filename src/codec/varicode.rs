//! The PSK31 Varicode: a prefix-free, variable-length code for the 128 ASCII
//! characters, framed by two `0` bits between characters.
use std::collections::HashMap;
use vstd::prelude::*;

verus! {

broadcast use vstd::std_specs::hash::group_hash_axioms;

/// The Varicode pattern of the ASCII character `b`, most significant bit
/// first; every pattern starts and ends with a `1` and holds no `00`.
pub open spec fn varicode(b: u32) -> u32 {
    match b {
        0 => 0b1010101011, 1 => 0b1011011011, 2 => 0b1011101101, 3 => 0b1101110111,
        4 => 0b1011101011, 5 => 0b1101011111, 6 => 0b1011101111, 7 => 0b1011111101,
        8 => 0b1011111111, 9 => 0b11101111, 10 => 0b11101, 11 => 0b1101101111,
        12 => 0b1011011101, 13 => 0b11111, 14 => 0b1101110101, 15 => 0b1110101011,
        16 => 0b1011110111, 17 => 0b1011110101, 18 => 0b1110101101, 19 => 0b1110101111,
        20 => 0b1101011011, 21 => 0b1101101011, 22 => 0b1101101101, 23 => 0b1101010111,
        24 => 0b1101111011, 25 => 0b1101111101, 26 => 0b1110110111, 27 => 0b1101010101,
        28 => 0b1101011101, 29 => 0b1110111011, 30 => 0b1011111011, 31 => 0b1101111111,
        32 => 0b1, 33 => 0b111111111, 34 => 0b101011111, 35 => 0b111110101,
        36 => 0b111011011, 37 => 0b1011010101, 38 => 0b1010111011, 39 => 0b101111111,
        40 => 0b11111011, 41 => 0b11110111, 42 => 0b101101111, 43 => 0b111011111,
        44 => 0b1110101, 45 => 0b110101, 46 => 0b1010111, 47 => 0b110101111,
        48 => 0b10110111, 49 => 0b10111101, 50 => 0b11101101, 51 => 0b11111111,
        52 => 0b101110111, 53 => 0b101011011, 54 => 0b101101011, 55 => 0b110101101,
        56 => 0b110101011, 57 => 0b110110111, 58 => 0b11110101, 59 => 0b110111101,
        60 => 0b111101101, 61 => 0b1010101, 62 => 0b111010111, 63 => 0b1010101111,
        64 => 0b1010111101, 65 => 0b1111101, 66 => 0b11101011, 67 => 0b10101101,
        68 => 0b10110101, 69 => 0b1110111, 70 => 0b11011011, 71 => 0b11111101,
        72 => 0b101010101, 73 => 0b1111111, 74 => 0b111111101, 75 => 0b101111101,
        76 => 0b11010111, 77 => 0b10111011, 78 => 0b11011101, 79 => 0b10101011,
        80 => 0b11010101, 81 => 0b111011101, 82 => 0b10101111, 83 => 0b1101111,
        84 => 0b1101101, 85 => 0b101010111, 86 => 0b110110101, 87 => 0b101011101,
        88 => 0b101110101, 89 => 0b101111011, 90 => 0b1010101101, 91 => 0b111110111,
        92 => 0b111101111, 93 => 0b111111011, 94 => 0b1010111111, 95 => 0b101101101,
        96 => 0b1011011111, 97 => 0b1011, 98 => 0b1011111, 99 => 0b101111,
        100 => 0b101101, 101 => 0b11, 102 => 0b111101, 103 => 0b1011011,
        104 => 0b101011, 105 => 0b1101, 106 => 0b111101011, 107 => 0b10111111,
        108 => 0b11011, 109 => 0b111011, 110 => 0b1111, 111 => 0b111,
        112 => 0b111111, 113 => 0b110111111, 114 => 0b10101, 115 => 0b10111,
        116 => 0b101, 117 => 0b110111, 118 => 0b1111011, 119 => 0b1101011,
        120 => 0b11011111, 121 => 0b1011101, 122 => 0b111010101, 123 => 0b1010110111,
        124 => 0b110111011, 125 => 0b1010110101, 126 => 0b1011010111, 127 => 0b1110110101,
        _ => 0,
    }
}

/// `c` holds no two adjacent zero bits below its leading one.
pub open spec fn no_double_zero(c: u32) -> bool {
    ((c >> 0u32) < 2 || (c >> 0u32) & 3 != 0) &&
    ((c >> 1u32) < 2 || (c >> 1u32) & 3 != 0) &&
    ((c >> 2u32) < 2 || (c >> 2u32) & 3 != 0) &&
    ((c >> 3u32) < 2 || (c >> 3u32) & 3 != 0) &&
    ((c >> 4u32) < 2 || (c >> 4u32) & 3 != 0) &&
    ((c >> 5u32) < 2 || (c >> 5u32) & 3 != 0) &&
    ((c >> 6u32) < 2 || (c >> 6u32) & 3 != 0) &&
    ((c >> 7u32) < 2 || (c >> 7u32) & 3 != 0) &&
    ((c >> 8u32) < 2 || (c >> 8u32) & 3 != 0) &&
    ((c >> 9u32) < 2 || (c >> 9u32) & 3 != 0)
}

/// Every pattern is odd and fits in ten bits.
pub proof fn lemma_table_shape()
    by (bit_vector)
    ensures
        forall|b: u32| #![trigger varicode(b)]
            b < 128 ==> varicode(b) & 1 == 1 && 1 <= varicode(b) < 1024,
{
}

/// No pattern holds two adjacent zero bits.
pub proof fn lemma_table_no_double_zero()
    by (bit_vector)
    ensures
        forall|b: u32| #![trigger varicode(b)] b < 128 ==> no_double_zero(varicode(b)),
{
}

/// No two characters share a pattern.
pub proof fn lemma_table_injective()
    by (bit_vector)
    ensures
        forall|a: u32, b: u32| #![trigger varicode(a), varicode(b)]
            a < 128 && b < 128 && varicode(a) == varicode(b) ==> a == b,
{
}

pub(crate) proof fn lemma_pattern_bits(c: u32)
    by (bit_vector)
    requires
        1 <= c < 1024,
        no_double_zero(c),
    ensures
        c % 4 != 0,
        c / 2 < 1024,
        c / 2 >= 1 ==> no_double_zero(c / 2),
        c << 2 == (c * 4) as u32,
{
}

pub(crate) proof fn lemma_shift_in_bits(acc: u32, b: u32)
    by (bit_vector)
    requires
        b < 2,
    ensures
        (acc << 1) | b == ((acc * 2 + b) % 0x1_0000_0000) as u32,
        ((acc << 1) | b) & 3 == ((acc << 1) | b) % 4,
{
}

/// Binary digits of `x`, most significant first, without leading zeros.
pub open spec fn bits_of(x: nat) -> Seq<bool>
    decreases x,
{
    if x == 0 {
        Seq::empty()
    } else {
        bits_of(x / 2).push(x % 2 == 1)
    }
}

/// The bits sent for the ASCII character `b`: its pattern, then the two
/// framing zeros.
pub open spec fn encoded(b: u8) -> Seq<bool> {
    bits_of(varicode(b as u32) as nat) + seq![false, false]
}

/// `k` is the pattern of character `b` followed by two framing zeros.
pub open spec fn frames(k: u32, b: u32) -> bool {
    b < 128 && varicode(b) * 4 == k
}

/// The character whose framed pattern is `k`, if any.
pub open spec fn decoded(k: u32) -> Option<u8> {
    if exists|b: u32| frames(k, b) {
        Some((choose|b: u32| frames(k, b)) as u8)
    } else {
        None
    }
}

/// The pattern of the ASCII character `b`.
fn pattern(b: u8) -> (r: u32)
    requires
        b < 128,
    ensures
        r == varicode(b as u32),
{
    match b {
        0 => 0b1010101011, 1 => 0b1011011011, 2 => 0b1011101101, 3 => 0b1101110111,
        4 => 0b1011101011, 5 => 0b1101011111, 6 => 0b1011101111, 7 => 0b1011111101,
        8 => 0b1011111111, 9 => 0b11101111, 10 => 0b11101, 11 => 0b1101101111,
        12 => 0b1011011101, 13 => 0b11111, 14 => 0b1101110101, 15 => 0b1110101011,
        16 => 0b1011110111, 17 => 0b1011110101, 18 => 0b1110101101, 19 => 0b1110101111,
        20 => 0b1101011011, 21 => 0b1101101011, 22 => 0b1101101101, 23 => 0b1101010111,
        24 => 0b1101111011, 25 => 0b1101111101, 26 => 0b1110110111, 27 => 0b1101010101,
        28 => 0b1101011101, 29 => 0b1110111011, 30 => 0b1011111011, 31 => 0b1101111111,
        32 => 0b1, 33 => 0b111111111, 34 => 0b101011111, 35 => 0b111110101,
        36 => 0b111011011, 37 => 0b1011010101, 38 => 0b1010111011, 39 => 0b101111111,
        40 => 0b11111011, 41 => 0b11110111, 42 => 0b101101111, 43 => 0b111011111,
        44 => 0b1110101, 45 => 0b110101, 46 => 0b1010111, 47 => 0b110101111,
        48 => 0b10110111, 49 => 0b10111101, 50 => 0b11101101, 51 => 0b11111111,
        52 => 0b101110111, 53 => 0b101011011, 54 => 0b101101011, 55 => 0b110101101,
        56 => 0b110101011, 57 => 0b110110111, 58 => 0b11110101, 59 => 0b110111101,
        60 => 0b111101101, 61 => 0b1010101, 62 => 0b111010111, 63 => 0b1010101111,
        64 => 0b1010111101, 65 => 0b1111101, 66 => 0b11101011, 67 => 0b10101101,
        68 => 0b10110101, 69 => 0b1110111, 70 => 0b11011011, 71 => 0b11111101,
        72 => 0b101010101, 73 => 0b1111111, 74 => 0b111111101, 75 => 0b101111101,
        76 => 0b11010111, 77 => 0b10111011, 78 => 0b11011101, 79 => 0b10101011,
        80 => 0b11010101, 81 => 0b111011101, 82 => 0b10101111, 83 => 0b1101111,
        84 => 0b1101101, 85 => 0b101010111, 86 => 0b110110101, 87 => 0b101011101,
        88 => 0b101110101, 89 => 0b101111011, 90 => 0b1010101101, 91 => 0b111110111,
        92 => 0b111101111, 93 => 0b111111011, 94 => 0b1010111111, 95 => 0b101101101,
        96 => 0b1011011111, 97 => 0b1011, 98 => 0b1011111, 99 => 0b101111,
        100 => 0b101101, 101 => 0b11, 102 => 0b111101, 103 => 0b1011011,
        104 => 0b101011, 105 => 0b1101, 106 => 0b111101011, 107 => 0b10111111,
        108 => 0b11011, 109 => 0b111011, 110 => 0b1111, 111 => 0b111,
        112 => 0b111111, 113 => 0b110111111, 114 => 0b10101, 115 => 0b10111,
        116 => 0b101, 117 => 0b110111, 118 => 0b1111011, 119 => 0b1101011,
        120 => 0b11011111, 121 => 0b1011101, 122 => 0b111010101, 123 => 0b1010110111,
        124 => 0b110111011, 125 => 0b1010110101, 126 => 0b1011010111, 127 => 0b1110110101,
        _ => 0,
    }
}

fn push_bits(x: u32, out: &mut Vec<bool>)
    ensures
        final(out)@ == old(out)@ + bits_of(x as nat),
    decreases x,
{
    if x > 0 {
        push_bits(x / 2, out);
        out.push(x % 2 == 1);
        proof {
            assert(bits_of(x as nat) == bits_of((x / 2) as nat).push(x % 2 == 1));
            assert(final(out)@ =~= old(out)@ + bits_of(x as nat));
        }
    }
}

/// The binary digits of `x`, from its most significant `1` bit down.
pub fn bits(x: u32) -> (r: Vec<bool>)
    requires
        x > 0,
    ensures
        r@ == bits_of(x as nat),
{
    let mut out: Vec<bool> = Vec::new();
    push_bits(x, &mut out);
    assert(out@ =~= bits_of(x as nat));
    out
}

/// Encodes an ASCII byte into the bits sent for it.
pub fn encode_ascii_byte(ascii: u8) -> (r: Vec<bool>)
    requires
        ascii < 128,
    ensures
        r@ == encoded(ascii),
{
    let c = pattern(ascii);
    proof {
        lemma_table_shape();
        lemma_table_no_double_zero();
        lemma_pattern_bits(c);
        let x = (c * 4) as nat;
        assert(bits_of(x) == bits_of(x / 2).push(false));
        assert(bits_of(x / 2) == bits_of(c as nat).push(false));
        assert(bits_of(x) =~= encoded(ascii));
    }
    bits(c << 2)
}

/// The lookup from framed pattern to character.
pub(crate) fn pattern_table() -> (m: HashMap<u32, u8>)
    ensures
        forall|k: u32| #[trigger] m@.contains_key(k) <==> decoded(k) is Some,
        forall|k: u32| #[trigger] m@.contains_key(k) ==> decoded(k) == Some(m@[k]),
{
    let mut m: HashMap<u32, u8> = HashMap::new();
    let mut i: u8 = 0;
    proof {
        lemma_table_shape();
        lemma_table_no_double_zero();
        lemma_table_injective();
    }
    while i < 128
        invariant
            i <= 128,
            forall|k: u32| #[trigger] m@.contains_key(k) <==> exists|b: u32| b < i && frames(k, b),
            forall|k: u32| #[trigger] m@.contains_key(k) ==> m@[k] < i && frames(k, m@[k] as u32),
        decreases 128 - i,
    {
        let c = pattern(i);
        proof {
            lemma_table_shape();
            lemma_table_no_double_zero();
            lemma_pattern_bits(c);
        }
        let k = c << 2;
        let ghost before = m@;
        m.insert(k, i);
        proof {
            assert(frames(k, i as u32));
            assert forall|j: u32| #[trigger] m@.contains_key(j) <==> exists|b: u32|
                b < i + 1 && frames(j, b) by {
                if exists|b: u32| b < i + 1 && frames(j, b) {
                    let b = choose|b: u32| b < i + 1 && frames(j, b);
                    if b < i {
                        assert(before.contains_key(j));
                    }
                }
            }
        }
        i = i + 1;
    }
    proof {
        assert forall|k: u32| #[trigger] m@.contains_key(k) implies decoded(k) == Some(m@[k]) by {
            let b = choose|b: u32| frames(k, b);
            assert(frames(k, m@[k] as u32));
            assert(varicode(b) == varicode(m@[k] as u32));
        }
    }
    m
}

/// The accumulator after `bit` is shifted into `acc` (bits shifted past the
/// top are lost).
pub open spec fn shift_in(acc: u32, bit: bool) -> u32 {
    ((acc * 2 + if bit { 1int } else { 0int }) % 0x1_0000_0000) as u32
}

/// The accumulator after a character boundary check: two trailing zero bits
/// end a character and clear it.
pub open spec fn settle(k: u32) -> u32 {
    if k % 4 == 0 {
        0
    } else {
        k
    }
}

/// Streaming Varicode decoder.
pub struct VaricodeDecode {
    bits: u32,
    lookup: HashMap<u32, u8>,
}

impl VaricodeDecode {
    /// The bits received since the last character boundary.
    pub closed spec fn acc(&self) -> u32 {
        self.bits
    }

    #[verifier::type_invariant]
    spec fn lookup_is_table(&self) -> bool {
        &&& forall|k: u32| #[trigger] self.lookup@.contains_key(k) <==> decoded(k) is Some
        &&& forall|k: u32| #[trigger]
            self.lookup@.contains_key(k) ==> decoded(k) == Some(self.lookup@[k])
    }

    pub fn new() -> (r: Self)
        ensures
            r.acc() == 0,
    {
        VaricodeDecode { bits: 0, lookup: pattern_table() }
    }

    /// Processes an incoming bit; returns the character whose pattern and
    /// framing zeros the received bits now end with, if any.
    pub fn process(&mut self, bit: bool) -> (r: Option<u8>)
        ensures
            r == decoded(shift_in(old(self).acc(), bit)),
            final(self).acc() == settle(shift_in(old(self).acc(), bit)),
    {
        proof {
            use_type_invariant(&*self);
        }
        let b: u32 = if bit {
            1
        } else {
            0
        };
        let k = (self.bits << 1) | b;
        proof {
            lemma_shift_in_bits(self.bits, b);
        }
        let r = match self.lookup.get(&k) {
            Some(v) => Some(*v),
            None => None,
        };
        if k & 3 == 0 {
            self.bits = 0;
        } else {
            self.bits = k;
        }
        r
    }
}

/// Accumulator and outputs of a decoder that starts at `acc` and is fed
/// `bits` in order.
pub open spec fn decode_run(acc: u32, bits: Seq<bool>) -> (u32, Seq<Option<u8>>)
    decreases bits.len(),
{
    if bits.len() == 0 {
        (acc, Seq::empty())
    } else {
        let prev = decode_run(acc, bits.drop_last());
        let k = shift_in(prev.0, bits.last());
        (settle(k), prev.1.push(decoded(k)))
    }
}

proof fn lemma_decode_pattern_prefix(c: u32)
    requires
        1 <= c < 1024,
        no_double_zero(c),
    ensures
        decode_run(0, bits_of(c as nat)).0 == c,
        decode_run(0, bits_of(c as nat)).1.len() == bits_of(c as nat).len(),
        forall|i: int|
            0 <= i < bits_of(c as nat).len() ==> #[trigger] decode_run(0, bits_of(c as nat)).1[i]
                is None,
    decreases c,
{
    lemma_pattern_bits(c);
    let h = c / 2;
    let bs = bits_of(c as nat);
    assert(bs == bits_of(h as nat).push(c % 2 == 1));
    assert(bs.drop_last() =~= bits_of(h as nat));
    if h >= 1 {
        lemma_decode_pattern_prefix(h);
    } else {
        assert(bits_of(0) =~= Seq::<bool>::empty());
    }
    let k = shift_in(decode_run(0, bits_of(h as nat)).0, c % 2 == 1);
    assert(k == c);
    assert(decoded(k) is None);
}

proof fn lemma_decode_zeros(pre: Seq<bool>, n: nat)
    requires
        decode_run(0, pre).0 == 0,
        forall|b: u32| b < 128 ==> #[trigger] varicode(b) >= 1,
    ensures
        decode_run(0, pre + Seq::new(n, |i: int| false)).0 == 0,
        decode_run(0, pre + Seq::new(n, |i: int| false)).1 =~= decode_run(0, pre).1 + Seq::new(
            n,
            |i: int| None::<u8>,
        ),
    decreases n,
{
    let zs = Seq::new(n, |i: int| false);
    if n == 0 {
        assert(pre + zs =~= pre);
    } else {
        lemma_decode_zeros(pre, (n - 1) as nat);
        let all = pre + zs;
        assert(all.drop_last() =~= pre + Seq::new((n - 1) as nat, |i: int| false));
        assert(shift_in(0, false) == 0);
        assert(decoded(0) is None);
    }
}

/// A fresh decoder fed the bits of an ASCII character, then any number of
/// zero bits, emits that character exactly once, on the second framing zero,
/// and ends idle.
#[verifier::rlimit(40)]
pub proof fn lemma_varicode_round_trip(b: u8, n: nat)
    requires
        b < 128,
    ensures
        ({
            let sent = encoded(b) + Seq::new(n, |i: int| false);
            let run = decode_run(0, sent);
            &&& run.0 == 0
            &&& run.1.len() == sent.len()
            &&& run.1[encoded(b).len() - 1] == Some(b)
            &&& forall|i: int|
                0 <= i < run.1.len() && i != encoded(b).len() - 1 ==> #[trigger] run.1[i] is None
        }),
{
    lemma_table_shape();
    lemma_table_no_double_zero();
    lemma_table_injective();
    let c = varicode(b as u32);
    lemma_pattern_bits(c);
    lemma_decode_pattern_prefix(c);
    let p = bits_of(c as nat);
    let e = encoded(b);
    assert(e.drop_last() =~= p.push(false));
    assert(e.drop_last().drop_last() =~= p);
    let k1 = shift_in(c, false);
    assert(k1 == c * 2);
    assert(k1 % 4 != 0) by {
        assert(c % 2 == 1);
    }
    assert(decoded(k1) is None);
    let k2 = shift_in(k1, false);
    assert(k2 == c * 4);
    assert(frames(k2, b as u32));
    let w = choose|w: u32| frames(k2, w);
    assert(varicode(w) == varicode(b as u32));
    assert(decoded(k2) == Some(b));
    let r0 = decode_run(0, p);
    let r1 = decode_run(0, e.drop_last());
    assert(r1 == (settle(k1), r0.1.push(decoded(k1))));
    let r2 = decode_run(0, e);
    assert(r2 == (settle(k2), r1.1.push(decoded(k2))));
    assert(r2.0 == 0);
    lemma_decode_zeros(e, n);
    let run = decode_run(0, e + Seq::new(n, |i: int| false));
    assert forall|i: int| 0 <= i < run.1.len() && i != e.len() - 1 implies #[trigger] run.1[i]
        is None by {
        if i < e.len() {
            assert(run.1[i] == r2.1[i]);
            if i < e.len() - 2 {
                assert(r2.1[i] == r0.1[i]);
            }
        }
    }
}

} // verus!
