use resonant_dsp::delay::DelayLine;

fn history(d: &DelayLine<i32>) -> Vec<i32> {
    let mut out = vec![0; d.len()];
    d.linearize_into(&mut out);
    out
}

#[test]
fn new_delay_line_is_zero() {
    let d = DelayLine::new(3, 0i32);
    assert_eq!(d.len(), 3);
    assert_eq!(history(&d), vec![0, 0, 0]);
    assert_eq!(d.position(), 0);
}

#[test]
fn push_puts_newest_first() {
    let mut d = DelayLine::new(3, 0i32);
    d.push(1);
    assert_eq!(history(&d), vec![1, 0, 0]);
    d.push(2);
    d.push(3);
    assert_eq!(history(&d), vec![3, 2, 1]);
    d.push(4);
    assert_eq!(history(&d), vec![4, 3, 2]);
    assert_eq!(d.get(0), 4);
    assert_eq!(d.get(2), 2);
}

#[test]
fn impulse_leaves_after_len_pushes() {
    let mut d = DelayLine::new(3, 0i32);
    d.push(1);
    d.push(0);
    d.push(0);
    assert_eq!(history(&d), vec![0, 0, 1]);
    d.push(0);
    assert_eq!(history(&d), vec![0, 0, 0]);
}

#[test]
fn storage_order_and_position() {
    let mut d = DelayLine::new(2, 0i32);
    d.push(5);
    assert_eq!(d.contents(), &vec![5, 0]);
    assert_eq!(d.position(), 1);
    d.push(6);
    assert_eq!(d.contents(), &vec![5, 6]);
    assert_eq!(d.position(), 0);
    d.push(7);
    assert_eq!(d.contents(), &vec![7, 6]);
}

#[test]
fn reset_clears_history() {
    let mut d = DelayLine::new(4, 0i32);
    d.push(9);
    d.push(8);
    d.reset(0);
    assert_eq!(history(&d), vec![0, 0, 0, 0]);
    assert_eq!(d.position(), 0);
    d.push(1);
    assert_eq!(d.get(0), 1);
}

#[test]
fn single_slot_keeps_latest() {
    let mut d = DelayLine::new(1, 0i32);
    d.push(3);
    d.push(4);
    assert_eq!(history(&d), vec![4]);
}
