use k9api_dsp::codec::differential::{Differential, InverseDifferential};
use k9api_dsp::codec::varicode::{bits, encode_ascii_byte, VaricodeDecode};

#[test]
fn bits_msb_first_without_leading_zeros() {
    assert_eq!(bits(1), vec![true]);
    assert_eq!(bits(0b1011), vec![true, false, true, true]);
    assert_eq!(bits(0b1000), vec![true, false, false, false]);
}

#[test]
fn encode_space_and_e() {
    // ' ' is the single bit 1, 'e' is 11.
    assert_eq!(encode_ascii_byte(b' '), vec![true, false, false]);
    assert_eq!(encode_ascii_byte(b'e'), vec![true, true, false, false]);
}

#[test]
fn encode_k() {
    // 'K' is 101111101.
    let expected = vec![
        true, false, true, true, true, true, true, false, true, false, false,
    ];
    assert_eq!(encode_ascii_byte(b'K'), expected);
}

#[test]
fn encode_nul() {
    // NUL is 1010101011.
    let expected = vec![
        true, false, true, false, true, false, true, false, true, true, false, false,
    ];
    assert_eq!(encode_ascii_byte(0), expected);
}

#[test]
fn every_pattern_starts_with_one_and_has_no_double_zero() {
    for b in 0u8..128 {
        let e = encode_ascii_byte(b);
        assert!(e[0]);
        let n = e.len();
        assert!(!e[n - 1] && !e[n - 2]);
        assert!(e[n - 3]);
        for i in 0..n - 3 {
            assert!(e[i] || e[i + 1], "byte {} has 00 inside its pattern", b);
        }
    }
}

#[test]
fn varicode_round_trip_every_byte_with_trailing_zeros() {
    for b in 0u8..128 {
        let mut dec = VaricodeDecode::new();
        let e = encode_ascii_byte(b);
        let mut outputs = Vec::new();
        for &bit in &e {
            outputs.push(dec.process(bit));
        }
        for _ in 0..7 {
            outputs.push(dec.process(false));
        }
        for (i, o) in outputs.iter().enumerate() {
            if i == e.len() - 1 {
                assert_eq!(*o, Some(b));
            } else {
                assert_eq!(*o, None, "byte {} gave output at bit {}", b, i);
            }
        }
    }
}

#[test]
fn varicode_decodes_a_word() {
    let mut dec = VaricodeDecode::new();
    let mut text = Vec::new();
    for &b in b"Hello, world!" {
        for bit in encode_ascii_byte(b) {
            if let Some(c) = dec.process(bit) {
                text.push(c);
            }
        }
    }
    assert_eq!(text, b"Hello, world!".to_vec());
}

#[test]
fn varicode_unknown_pattern_gives_nothing() {
    // 1111111111 followed by 00 is no character's pattern.
    let mut dec = VaricodeDecode::new();
    for _ in 0..10 {
        assert_eq!(dec.process(true), None);
    }
    assert_eq!(dec.process(false), None);
    assert_eq!(dec.process(false), None);
    // The boundary cleared the accumulator: 'e' decodes next.
    assert_eq!(dec.process(true), None);
    assert_eq!(dec.process(true), None);
    assert_eq!(dec.process(false), None);
    assert_eq!(dec.process(false), Some(b'e'));
}

#[test]
fn differential_encoder_values() {
    let mut d = Differential::new();
    // A zero flips the phase, a one keeps it.
    assert_eq!(d.process(false), true);
    assert_eq!(d.process(false), false);
    assert_eq!(d.process(true), false);
    assert_eq!(d.process(true), false);
    assert_eq!(d.process(false), true);
}

#[test]
fn inverse_differential_values() {
    let mut d = InverseDifferential::new();
    assert_eq!(d.process(true), false);
    assert_eq!(d.process(true), true);
    assert_eq!(d.process(false), false);
    assert_eq!(d.process(false), true);
}

#[test]
fn differential_round_trip() {
    let bits = [
        true, false, false, true, true, true, false, true, false, false, false, true,
    ];
    let mut enc = Differential::new();
    let mut dec = InverseDifferential::new();
    for &b in &bits {
        assert_eq!(dec.process(enc.process(b)), b);
    }
}

#[test]
fn varicode_idle_zeros_give_nothing() {
    let mut dec = VaricodeDecode::new();
    for _ in 0..100 {
        assert_eq!(dec.process(false), None);
    }
}

#[test]
fn varicode_resynchronises_after_two_zeros() {
    let message = b"CQ CQ CQ de K9API K9API K9API pse K\n";
    let noise = [true, true, false, true, true, true, true, false, true, true, true];
    let mut dec = VaricodeDecode::new();
    for &bit in &noise {
        dec.process(bit);
    }
    dec.process(false);
    dec.process(false);
    let mut text = Vec::new();
    for &b in message.iter() {
        for bit in encode_ascii_byte(b) {
            if let Some(c) = dec.process(bit) {
                text.push(c);
            }
        }
    }
    assert_eq!(text, message.to_vec());
}
