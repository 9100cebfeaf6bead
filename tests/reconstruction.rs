use std::f64::consts::PI;

use stft_codec::geometry::BlockGeometry;
use stft_codec::schedule::Schedule;
use stft_codec::staging::{emit_prefix, keep_right_half, slide_in};
use xfft::rfft;

const SNR_THRESH: f64 = 300.0;

struct Engine {
    geometry: BlockGeometry,
    win: Vec<f64>,
    fft: rfft::Ctx,
}

fn engine(n: usize) -> Engine {
    let geometry = BlockGeometry::new(n).unwrap();
    let w = (2.0 * PI) / (2 * n) as f64;
    let win = (0..n).map(|i| 0.5 - 0.5 * (w * (i as f64 + 0.5)).cos()).collect();
    Engine { geometry, win, fft: rfft::Ctx::new(2 * n) }
}

fn process(engine: &Engine, x: &[f64], filter: fn(&mut [f64])) -> Vec<f64> {
    let n = engine.geometry.half();
    let nn = engine.geometry.block_len();
    let mut schedule = Schedule::new(&engine.geometry, x.len()).unwrap();
    let mut y = vec![0.0f64; x.len()];
    schedule.check_buffers(x.len(), y.len()).unwrap();
    let mut block = vec![0.0f64; nn];
    let mut history = vec![0.0f64; n];
    let mut tail = vec![0.0f64; n];
    let mut synth = vec![0.0f64; n];
    let sf = 1.0 / (n as f64).sqrt();
    while let Some(step) = schedule.next_step() {
        slide_in(&mut block, &mut history, x, step.input_start, step.input_len, 0.0);
        for i in 0..nn {
            block[i] *= engine.win[engine.geometry.window_index(i)];
        }
        engine.fft.fwd(&mut block[..]);
        block.iter_mut().for_each(|v| *v *= sf);
        filter(&mut block[..]);
        engine.fft.bwd(&mut block[..]);
        block.iter_mut().for_each(|v| *v *= sf);
        for i in 0..n {
            synth[i] = tail[i] + block[i];
        }
        emit_prefix(&mut y[..], step.output_start, &synth, step.output_len);
        keep_right_half(&mut tail, &block);
    }
    y
}

fn compute_snr(s1: &[f64], s2: &[f64]) -> f64 {
    let mut sss: f64 = 0.0;
    let mut ses: f64 = 0.0;
    for i in 0..s1.len() {
        sss += s1[i] * s1[i];
        let err = s1[i] - s2[i];
        ses += err * err;
    }
    10.0 * (sss / ses).log10()
}

fn identity(_x: &mut [f64]) {}

fn shift(x: &mut [f64]) {
    const SHIFT: usize = 4;
    for i in 0..x.len() - SHIFT {
        x[i] = x[i + SHIFT];
    }
    for i in x.len() - SHIFT..x.len() {
        x[i] = 0.0;
    }
}

fn tones(total: usize) -> (Vec<f64>, Vec<f64>) {
    let w_left = 8.0 * PI / total as f64;
    let w_right = 12.0 * PI / total as f64;
    let left = (0..total).map(|i| (w_left * i as f64).cos()).collect();
    let right = (0..total).map(|i| (w_right * i as f64).cos()).collect();
    (left, right)
}

fn check_reconstruction(n: usize, total: usize) {
    let ctx = engine(n);
    let (x_left, x_right) = tones(total);
    let y_left = process(&ctx, &x_left, identity);
    let y_right = process(&ctx, &x_right, identity);
    assert_eq!(y_left.len(), total);
    assert_eq!(y_right.len(), total);
    let snr = compute_snr(&x_left, &y_left);
    if snr < SNR_THRESH {
        panic!("Left channel SNR: {} is below the threshold: {}", snr, SNR_THRESH);
    }
    let snr = compute_snr(&x_right, &y_right);
    if snr < SNR_THRESH {
        panic!("Right channel SNR: {} is below the threshold: {}", snr, SNR_THRESH);
    }
}

#[test]
fn fist_last_block() {
    check_reconstruction(128, 128);
}

#[test]
fn fist_mid_last_block() {
    check_reconstruction(128, 256);
}

#[test]
fn first_second_last_last_block() {
    check_reconstruction(128, 128 + 32);
}

#[test]
fn all_blocks() {
    check_reconstruction(128, 1024 + 32);
}

#[test]
fn signal_shorter_than_block_reconstructs() {
    check_reconstruction(256, 128);
}

#[test]
fn repeated_processing_is_bit_identical() {
    let ctx = engine(128);
    let (x, _) = tones(1024 + 32);
    let first = process(&ctx, &x, identity);
    let second = process(&ctx, &x, identity);
    assert!(first.iter().zip(second.iter()).all(|(a, b)| a.to_bits() == b.to_bits()));
}

#[test]
fn filter_changes_the_output() {
    let ctx = engine(128);
    let (x, _) = tones(1024 + 32);
    let plain = process(&ctx, &x, identity);
    let shifted = process(&ctx, &x, shift);
    let snr = compute_snr(&plain, &shifted);
    assert!(snr < 60.0, "filtered output is too close to the identity output: {}", snr);
}
