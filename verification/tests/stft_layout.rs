use resonant_dsp::error::FftError;
use resonant_dsp::stft::FrameLayout;

#[test]
fn analyze_produces_correct_frame_count() {
    let l = FrameLayout::new(64, 32);
    assert_eq!(l.frame_offsets(256).unwrap().len(), 7);
}

#[test]
fn analyze_frame_count() {
    let l = FrameLayout::new(128, 64);
    assert_eq!(l.frame_offsets(512).unwrap().len(), 7);
}

#[test]
fn frame_count_formula() {
    let l = FrameLayout::new(32, 16);
    assert_eq!(l.frame_offsets(128).unwrap().len(), 7);
}

#[test]
fn offsets_are_hop_apart() {
    let l = FrameLayout::new(4, 3);
    assert_eq!(l.frame_offsets(11).unwrap(), vec![0, 3, 6]);
}

#[test]
fn analyze_empty_returns_error() {
    let l = FrameLayout::new(16, 8);
    assert_eq!(l.frame_offsets(0), Err(FftError::Empty));
}

#[test]
fn analyze_empty_signal() {
    let l = FrameLayout::new(16, 8);
    assert_eq!(l.frame_offsets(0), Err(FftError::Empty));
}

#[test]
fn synthesize_empty_frames() {
    let l = FrameLayout::new(16, 8);
    assert_eq!(l.synthesis_len(0), 0);
}

#[test]
fn analyze_shorter_than_window_returns_empty() {
    let l = FrameLayout::new(16, 8);
    assert!(l.frame_offsets(8).unwrap().is_empty());
}

#[test]
fn stft_accessors() {
    let l = FrameLayout::new(512, 128);
    assert_eq!(l.window_size(), 512);
    assert_eq!(l.hop_size(), 128);
}

#[test]
fn synthesis_len_values() {
    let l = FrameLayout::new(16, 8);
    assert_eq!(l.synthesis_len(0), 0);
    assert_eq!(l.synthesis_len(1), 16);
    assert_eq!(l.synthesis_len(7), 64);
}

#[test]
fn analysis_then_synthesis_length() {
    let l = FrameLayout::new(16, 16);
    let frames = l.frame_offsets(64).unwrap().len();
    assert_eq!(l.synthesis_len(frames), 64);
    let l = FrameLayout::new(16, 5);
    let frames = l.frame_offsets(30).unwrap().len();
    assert_eq!(frames, 3);
    assert_eq!(l.synthesis_len(frames), 26);
}
