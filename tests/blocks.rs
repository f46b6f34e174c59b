use k9api_dsp::bpsk31::{frame_symbols_of, SymbolCycle};
use k9api_dsp::buffer::{Buffer, Generator};
use k9api_dsp::delay_line::DelayLine;
use k9api_dsp::early_late::{EarlyLate, Timing};
use k9api_dsp::filter::{odd_taps, tap_count};
use k9api_dsp::resample::zero_stuff;

fn frame_of_e() -> (Vec<u8>, Vec<Option<bool>>) {
    let bytes = b"e".to_vec();
    let frame = frame_symbols_of(&bytes);
    (bytes, frame)
}

#[test]
fn buffer_fills_in_whole_chunks() {
    let (bytes, frame) = frame_of_e();
    let mut cycle = SymbolCycle::new(&bytes);
    let mut buf: Buffer<Option<bool>> = Buffer::new(4, 4);
    assert_eq!(buf.buffer_size(), 4);
    assert_eq!(buf.chunk_size(), 4);
    assert!(buf.available().is_empty());
    buf.fill_buffer(&mut cycle, 3);
    assert_eq!(buf.available(), &frame[0..4]);
    buf.consume(3);
    assert_eq!(buf.available(), &frame[3..4]);
    buf.fill_buffer(&mut cycle, 1);
    assert_eq!(buf.available(), &frame[3..4]);
    buf.fill_buffer(&mut cycle, 4);
    assert_eq!(buf.available(), &frame[3..8]);
    buf.consume(5);
    assert!(buf.available().is_empty());
    buf.fill_buffer(&mut cycle, 4);
    assert_eq!(buf.available(), &frame[8..12]);
    // The generator moved on by exactly the three chunks it was asked for.
    assert_eq!(cycle.next(), frame[12]);
}

#[test]
fn buffer_worst_case_fits() {
    // buffer_size - 1 waiting, then a full buffer_size request.
    let (bytes, frame) = frame_of_e();
    let mut cycle = SymbolCycle::new(&bytes);
    let mut buf: Buffer<Option<bool>> = Buffer::new(5, 4);
    buf.fill_buffer(&mut cycle, 4);
    assert_eq!(buf.available().len(), 4);
    buf.fill_buffer(&mut cycle, 5);
    assert_eq!(buf.available(), &frame[0..8]);
}

#[test]
fn buffer_chunks_wrap_round_the_frame() {
    let (bytes, frame) = frame_of_e();
    let n = frame.len();
    let mut cycle = SymbolCycle::new(&bytes);
    let mut buf: Buffer<Option<bool>> = Buffer::new(100, 100);
    let mut seen = Vec::new();
    for _ in 0..4 {
        buf.fill_buffer(&mut cycle, 100);
        seen.extend_from_slice(buf.available());
        buf.consume(100);
    }
    for (i, s) in seen.iter().enumerate() {
        assert_eq!(*s, frame[i % n]);
    }
}

#[test]
fn symbol_cycle_fills_chunks() {
    let (bytes, frame) = frame_of_e();
    let mut cycle = SymbolCycle::new(&bytes);
    let mut chunk = [None; 5];
    cycle.generate(&mut chunk);
    assert_eq!(&chunk[..], &frame[0..5]);
    cycle.generate(&mut chunk);
    assert_eq!(&chunk[..], &frame[5..10]);
}

#[test]
fn buffer_append_and_make_room() {
    let mut buf: Buffer<i32> = Buffer::new(4, 4);
    buf.append_chunk(&[1, 2, 3]);
    assert_eq!(buf.available(), &[1, 2, 3]);
    buf.consume(2);
    buf.make_room();
    assert_eq!(buf.available(), &[3]);
    buf.append_chunk(&[4, 5, 6, 7, 8, 9, 10]);
    assert_eq!(buf.available(), &[3, 4, 5, 6, 7, 8, 9, 10]);
}

#[test]
fn early_late_on_time_cadence() {
    let d = 8;
    let mut el = EarlyLate::new(d, 0i32);
    let mut emitted = Vec::new();
    for n in 0..(5 * d as i32) {
        if let Some(x) = el.process(n, Timing::OnTime) {
            emitted.push((n, x));
        }
    }
    // One decision per d samples, on each period's last sample, taking the
    // centre of the window (two samples back).
    assert_eq!(emitted, vec![(7, 5), (15, 13), (23, 21), (31, 29), (39, 37)]);
}

#[test]
fn early_late_adjusts_by_one_sample() {
    let d = 6;
    let mut el = EarlyLate::new(d, 0i32);
    let mut when = Vec::new();
    let timings = [Timing::Late, Timing::Early, Timing::OnTime];
    let mut next = 0;
    for n in 0..30 {
        if el.process(n, timings[next % 3]).is_some() {
            when.push(n);
            next += 1;
        }
    }
    // First after 6 samples, then 5 (late), then 7 (early), then 6.
    assert_eq!(when, vec![5, 10, 17, 23, 28]);
}

#[test]
fn early_late_next_early_is_second_slot() {
    let mut el = EarlyLate::new(5, 0i32);
    for n in 1..=5 {
        el.process(n, Timing::OnTime);
    }
    assert_eq!(el.next_early(), 2);
}

#[test]
fn delay_line_newest_first() {
    let mut line = DelayLine::new(3, 0i32);
    assert_eq!(line.len(), 3);
    line.push(1);
    assert_eq!((line.recent(0), line.recent(1), line.recent(2)), (1, 0, 0));
    line.push(2);
    line.push(3);
    line.push(4);
    assert_eq!((line.recent(0), line.recent(1), line.recent(2)), (4, 3, 2));
    line.push(5);
    assert_eq!((line.recent(0), line.recent(1), line.recent(2)), (5, 4, 3));
}

#[test]
fn delay_line_dot_product() {
    // y[n] = sum_k taps[k] * x[n - k]
    let taps = [1, 10, 100];
    let mut line = DelayLine::new(3, 0i64);
    let mut out = Vec::new();
    for x in [1i64, 2, 3, 4] {
        line.push(x);
        out.push((0..3).map(|k| taps[k] * line.recent(k)).sum::<i64>());
    }
    assert_eq!(out, vec![1, 12, 123, 234]);
}

#[test]
fn tap_count_from_transition_width() {
    // 4 * 8000 / 100 = 320, made odd.
    assert_eq!(tap_count(None, Some(320)), Some(321));
    assert_eq!(tap_count(Some(65), None), Some(65));
    assert_eq!(tap_count(Some(400), Some(320)), Some(401));
    assert_eq!(tap_count(Some(10), Some(641)), Some(641));
    assert_eq!(tap_count(None, None), None);
    assert_eq!(tap_count(Some(0), Some(0)), None);
}

#[test]
fn odd_taps_values() {
    assert_eq!(odd_taps(64), 65);
    assert_eq!(odd_taps(65), 65);
    assert_eq!(odd_taps(0), 1);
    assert_eq!(odd_taps(usize::MAX), usize::MAX);
}

#[test]
fn zero_stuff_places_inputs_at_multiples() {
    assert_eq!(zero_stuff(&[1, 2, 3], 3, 0), vec![1, 0, 0, 2, 0, 0, 3, 0, 0]);
    assert_eq!(zero_stuff(&[7, 8], 1, 0), vec![7, 8]);
    assert_eq!(zero_stuff::<i32>(&[], 4, 0), Vec::<i32>::new());
}
