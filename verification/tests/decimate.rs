use resonant_dsp::decimate::{decimate_len, downsample};

#[test]
fn returns_none_for_factor_below_2() {
    assert_eq!(decimate_len(100, 0), None);
    assert_eq!(decimate_len(100, 1), None);
}

#[test]
fn returns_none_for_empty_input() {
    assert_eq!(decimate_len(0, 2), None);
}

#[test]
fn output_length_is_correct() {
    assert_eq!(decimate_len(1000, 3), Some(334));
}

#[test]
fn output_length_exact_multiple() {
    assert_eq!(decimate_len(1000, 5), Some(200));
}

#[test]
fn different_factors_produce_different_lengths() {
    assert_eq!(decimate_len(1200, 2), Some(600));
    assert_eq!(decimate_len(1200, 3), Some(400));
    assert_eq!(decimate_len(1200, 4), Some(300));
}

#[test]
fn decimate_len_of_module_example() {
    assert_eq!(decimate_len(480, 3), Some(160));
}

#[test]
fn downsample_keeps_every_factor_th() {
    let v: Vec<u32> = (0..10).collect();
    assert_eq!(downsample(&v, 3), vec![0, 3, 6, 9]);
    assert_eq!(downsample(&v, 4), vec![0, 4, 8]);
    assert_eq!(downsample(&v, 1), v);
    assert_eq!(downsample::<u32>(&[], 2), Vec::<u32>::new());
}
