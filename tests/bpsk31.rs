use k9api_dsp::bpsk31::{
    frame_bits_of, frame_symbols_of, SymbolCycle, SymbolDecoder, GAP_SYMBOLS, PREAMBLE_BITS,
    REPLACEMENT, TAIL_ONE_BITS, TAIL_ZERO_BITS,
};
use k9api_dsp::codec::varicode::encode_ascii_byte;

#[test]
fn frame_layout() {
    let bytes = b"K".to_vec();
    let bits = frame_bits_of(&bytes);
    let k = encode_ascii_byte(b'K');
    assert_eq!(bits.len(), PREAMBLE_BITS + k.len() + TAIL_ZERO_BITS + TAIL_ONE_BITS);
    assert!(bits[..80].iter().all(|&b| !b));
    assert_eq!(&bits[80..80 + k.len()], &k[..]);
    assert!(bits[80 + k.len()..80 + k.len() + 20].iter().all(|&b| !b));
    assert!(bits[80 + k.len() + 20..].iter().all(|&b| b));
}

#[test]
fn first_payload_symbol_of_k() {
    let symbols = frame_symbols_of(&b"K".to_vec());
    // The preamble alternates, starting with a flip from the idle level.
    for i in 0..PREAMBLE_BITS {
        assert_eq!(symbols[i], Some(i % 2 == 0));
    }
    // After 80 flips the level is back where it started; the leading 1 of
    // K's pattern keeps it, so the first payload symbol is negative.
    assert_eq!(symbols[80], Some(false));
    // K = 101111101: 0 flips, then five 1s keep, then 0 flips, 1 keeps.
    let expected = [false, true, true, true, true, true, true, false, false];
    for (i, &e) in expected.iter().enumerate() {
        assert_eq!(symbols[80 + i], Some(e), "symbol {}", 80 + i);
    }
}

#[test]
fn frame_ends_with_silence() {
    let symbols = frame_symbols_of(&b"K".to_vec());
    let n = symbols.len();
    assert_eq!(n, 80 + 11 + 50 + GAP_SYMBOLS);
    assert!(symbols[n - GAP_SYMBOLS..].iter().all(|s| s.is_none()));
    assert!(symbols[..n - GAP_SYMBOLS].iter().all(|s| s.is_some()));
}

#[test]
fn symbol_cycle_repeats_frame() {
    let bytes = b"e".to_vec();
    let frame = frame_symbols_of(&bytes);
    let mut cycle = SymbolCycle::new(&bytes);
    for round in 0..3 {
        for (i, &s) in frame.iter().enumerate() {
            assert_eq!(cycle.next(), s, "round {} symbol {}", round, i);
        }
    }
}

fn receive(symbols: &[Option<bool>], dec: &mut SymbolDecoder) -> String {
    let mut text = String::new();
    for s in symbols {
        if let Some(level) = s {
            if let Some(c) = dec.process(*level) {
                text.push(c);
            }
        }
    }
    text
}

#[test]
fn loopback_of_k() {
    let symbols = frame_symbols_of(&b"K".to_vec());
    let mut dec = SymbolDecoder::new();
    assert_eq!(receive(&symbols, &mut dec), "K");
}

#[test]
fn loopback_of_cq_call() {
    let message = b"CQ CQ CQ de K9API K9API K9API pse K\n".to_vec();
    let symbols = frame_symbols_of(&message);
    let mut dec = SymbolDecoder::new();
    assert_eq!(receive(&symbols, &mut dec), "CQ CQ CQ de K9API K9API K9API pse K\n");
}

#[test]
fn loopback_second_frame_starts_with_replacement() {
    // The tail of ones and the next preamble's zeros form an unknown pattern.
    let message = b"pse K".to_vec();
    let symbols = frame_symbols_of(&message);
    let mut dec = SymbolDecoder::new();
    assert_eq!(receive(&symbols, &mut dec), "pse K");
    let second = receive(&symbols, &mut dec);
    assert!(second.starts_with(REPLACEMENT));
    assert!(second.ends_with("pse K"));
}

#[test]
fn symbol_decoder_is_silent_while_idle() {
    let mut dec = SymbolDecoder::new();
    // Alternating levels are zero bits.
    for i in 0..100 {
        assert_eq!(dec.process(i % 2 == 0), None);
    }
}

#[test]
fn loopback_of_k_completes_on_second_framing_zero() {
    // K's pattern is nine bits; its second framing zero is data bit
    // 80 + 9 + 2 - 1 of the frame.
    let symbols = frame_symbols_of(&b"K".to_vec());
    let mut dec = SymbolDecoder::new();
    let mut when = Vec::new();
    for (i, s) in symbols.iter().enumerate() {
        if let Some(level) = s {
            if let Some(c) = dec.process(*level) {
                when.push((i, c));
            }
        }
    }
    assert_eq!(when, vec![(PREAMBLE_BITS + 9 + 2 - 1, 'K')]);
}
