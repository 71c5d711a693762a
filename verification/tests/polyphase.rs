use resonant_dsp::delay::DelayLine;
use resonant_dsp::polyphase::{gcd, polyphase_decompose, PolyphaseState};

fn run(state: &mut PolyphaseState<i64>, n: usize) -> Vec<i64> {
    let input: Vec<i64> = (0..n as i64).collect();
    let mut out = Vec::new();
    state.process_into(&input, &mut out, |h: &DelayLine<i64>, p: usize| h.get(0) * 1000 + p as i64);
    out
}

#[test]
fn gcd_values() {
    assert_eq!(gcd(4, 2), 2);
    assert_eq!(gcd(160, 147), 1);
    assert_eq!(gcd(0, 5), 5);
    assert_eq!(gcd(5, 0), 5);
    assert_eq!(gcd(12, 18), 6);
}

#[test]
fn polyphase_invalid_factors_return_none() {
    assert!(PolyphaseState::new(0, 1, 0i64).is_none());
    assert!(PolyphaseState::new(1, 0, 0i64).is_none());
    assert!(PolyphaseState::with_quality(2, 1, 3, 0i64).is_none());
    assert!(PolyphaseState::with_quality(2, 1, 4, 0i64).is_some());
}

#[test]
fn polyphase_gcd_reduction() {
    let r = PolyphaseState::new(4, 2, 0i64).unwrap();
    assert_eq!(r.up(), 2);
    assert_eq!(r.down(), 1);
    assert_eq!(r.taps_per_phase(), 16);
    assert_eq!(r.phase(), 0);
}

#[test]
fn polyphase_upsample_2x_output_length() {
    let mut r = PolyphaseState::new(2, 1, 0i64).unwrap();
    assert_eq!(run(&mut r, 100).len(), 200);
}

#[test]
fn polyphase_downsample_2x_output_length() {
    let mut r = PolyphaseState::new(1, 2, 0i64).unwrap();
    assert_eq!(run(&mut r, 100).len(), 50);
}

#[test]
fn polyphase_44100_to_48000_output_length() {
    let mut r = PolyphaseState::new(160, 147, 0i64).unwrap();
    assert_eq!(run(&mut r, 44100).len(), 48000);
}

#[test]
fn output_count_is_ceiling_of_ratio() {
    for (up, down) in [(3usize, 2usize), (2, 3), (5, 7), (7, 5), (1, 4)] {
        for n in 0..40usize {
            let mut r = PolyphaseState::new(up, down, 0i64).unwrap();
            let expected = (n * up + down - 1) / down;
            assert_eq!(run(&mut r, n).len(), expected, "up={up} down={down} n={n}");
        }
    }
}

#[test]
fn push_reports_due_phases() {
    let mut r = PolyphaseState::new(3, 2, 0i64).unwrap();
    assert_eq!(r.push(1), vec![0, 2]);
    assert_eq!(r.phase(), 1);
    assert_eq!(r.push(2), vec![1]);
    assert_eq!(r.phase(), 0);
    assert_eq!(r.history().get(0), 2);
    assert_eq!(r.history().get(1), 1);
}

#[test]
fn outputs_see_history_after_each_input() {
    let mut r = PolyphaseState::new(2, 1, 0i64).unwrap();
    let out = run(&mut r, 3);
    assert_eq!(out, vec![0, 1, 1000, 1001, 2000, 2001]);
}

#[test]
fn oversample_round_trip_keeps_length() {
    for factor in [2usize, 4, 8] {
        let mut up = PolyphaseState::new(factor, 1, 0i64).unwrap();
        let mut down = PolyphaseState::new(1, factor, 0i64).unwrap();
        for n in [1usize, 7, 64, 256] {
            let upsampled = run(&mut up, n);
            assert_eq!(upsampled.len(), n * factor);
            let mut back = Vec::new();
            down.process_into(&upsampled, &mut back, |h: &DelayLine<i64>, _p: usize| h.get(0));
            assert_eq!(back.len(), n);
        }
    }
}

#[test]
fn polyphase_reset_is_idempotent() {
    let mut r = PolyphaseState::new(3, 2, 0i64).unwrap();
    run(&mut r, 5);
    r.reset(0);
    let mut fresh = PolyphaseState::new(3, 2, 0i64).unwrap();
    assert_eq!(run(&mut r, 9), run(&mut fresh, 9));
}

#[test]
fn decompose_interleaves_sub_filters() {
    let h: Vec<u32> = (0..12).collect();
    let c = polyphase_decompose(&h, 3, 4);
    assert_eq!(c, vec![0, 3, 6, 9, 1, 4, 7, 10, 2, 5, 8, 11]);
}

fn dot(h: &DelayLine<f32>, p: usize) -> f32 {
    let mut y = 0.0_f32;
    for k in 0..h.len() {
        y += h.get(k) * ((k + 1 + p) as f32) * 0.01;
    }
    y
}

fn process_f32(state: &mut PolyphaseState<f32>, input: &[f32]) -> Vec<f32> {
    let mut out = Vec::new();
    state.process_into(input, &mut out, |h: &DelayLine<f32>, p: usize| dot(h, p));
    out
}

#[test]
fn polyphase_streaming_matches_batch() {
    let mut r_batch = PolyphaseState::new(3, 2, 0.0_f32).unwrap();
    let mut r_stream = PolyphaseState::new(3, 2, 0.0_f32).unwrap();
    let full: Vec<f32> = (0..200).map(|i| (i as f32 * 0.05).sin()).collect();
    let batch = process_f32(&mut r_batch, &full);
    let mut streamed = process_f32(&mut r_stream, &full[..100]);
    streamed.extend(process_f32(&mut r_stream, &full[100..]));
    assert_eq!(batch.len(), streamed.len());
    for (a, b) in batch.iter().zip(streamed.iter()) {
        assert!((a - b).abs() < 1e-6, "streaming mismatch: {a} vs {b}");
    }
    assert_eq!(r_batch.phase(), r_stream.phase());
}

#[test]
fn polyphase_upsample_output_length() {
    let mut r = PolyphaseState::new(2, 1, 0.0_f32).unwrap();
    assert_eq!(process_f32(&mut r, &vec![0.0_f32; 200]).len(), 400);
}

#[test]
fn polyphase_rational_output_length_44100_to_48000() {
    let mut r = PolyphaseState::new(160, 147, 0.0_f32).unwrap();
    let out = process_f32(&mut r, &vec![0.0_f32; 44100]);
    let expected = 44100 * 160 / 147;
    assert!((out.len() as i64 - expected as i64).abs() <= 2);
}

#[test]
fn consumed_samples_output_count() {
    for (up, down) in [(3usize, 2usize), (2, 3), (160, 147)] {
        let l0 = 37usize;
        for n in [0usize, 1, 5, 50] {
            let mut fresh = PolyphaseState::new(up, down, 0i64).unwrap();
            run(&mut fresh, l0);
            let got = run(&mut fresh, n).len();
            let ceil = |x: usize| (x * up + down - 1) / down;
            assert_eq!(got, ceil(l0 + n) - ceil(l0));
        }
    }
}
