use stft_codec::staging::{emit_prefix, keep_right_half, slide_in};

#[test]
fn slide_in_shifts_history_and_reads_new_samples() {
    let mut block = vec![0i64; 6];
    let mut history = vec![1i64, 2, 3];
    let src = [10i64, 11, 12, 13, 14];
    slide_in(&mut block, &mut history, &src, 1, 3, 0);
    assert_eq!(block, vec![1, 2, 3, 11, 12, 13]);
    assert_eq!(history, vec![11, 12, 13]);
    slide_in(&mut block, &mut history, &src, 4, 1, 0);
    assert_eq!(block, vec![11, 12, 13, 14, 0, 0]);
    assert_eq!(history, vec![14, 0, 0]);
    slide_in(&mut block, &mut history, &src, 5, 0, -1);
    assert_eq!(block, vec![14, 0, 0, -1, -1, -1]);
    assert_eq!(history, vec![-1, -1, -1]);
}

#[test]
fn slide_in_works_on_real_samples() {
    let mut block = vec![0.0f64; 4];
    let mut history = vec![0.5f64, 0.25];
    slide_in(&mut block, &mut history, &[1.5f64, 2.5], 0, 2, 0.0);
    assert_eq!(block, vec![0.5, 0.25, 1.5, 2.5]);
    assert_eq!(history, vec![1.5, 2.5]);
}

#[test]
fn emit_prefix_writes_only_the_requested_range() {
    let mut dst = [7u8; 6];
    let src = vec![1u8, 2, 3, 4];
    emit_prefix(&mut dst[..], 3, &src, 3);
    assert_eq!(dst, [7, 7, 7, 1, 2, 3]);
    emit_prefix(&mut dst[..], 0, &src, 0);
    assert_eq!(dst, [7, 7, 7, 1, 2, 3]);
    emit_prefix(&mut dst[..], 0, &src, 2);
    assert_eq!(dst, [1, 2, 7, 1, 2, 3]);
}

#[test]
fn keep_right_half_stores_the_second_half() {
    let mut tail = vec![0i32; 3];
    keep_right_half(&mut tail, &vec![1, 2, 3, 4, 5, 6]);
    assert_eq!(tail, vec![4, 5, 6]);
}
