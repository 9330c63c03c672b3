use lab2::framing::{apply_window, pad_to, stft_frames, windows};
use lab2::signal::{generate, generate_signal, periodic_extend, SignalKind, SignalStream};
use lab2::spectrum::{
    bit_reverse, bit_reverse_permute, complex_mul, dtfse_terms, fft_stages, interleaved_complex,
    spectrum_product, Complex,
};
use lab2::{DspError, Shape};

#[test]
fn ten_samples_give_four_overlapping_frames() {
    let signal: Vec<i32> = (0..10).collect();
    let frames = windows(&signal, 4, 2);
    assert_eq!(frames.len(), (10 - 4) / 2 + 1);
    assert_eq!(frames.len(), 4);
    for f in &frames {
        assert_eq!(f.len(), 4);
    }
    assert_eq!(frames[0], vec![0, 1, 2, 3]);
    assert_eq!(frames[3], vec![6, 7, 8, 9]);
    for i in 0..3 {
        assert_eq!(frames[i][2..], frames[i + 1][..2]);
    }
}

#[test]
fn frame_larger_than_signal_gives_none() {
    assert!(windows(&vec![1, 2, 3], 4, 1).is_empty());
}

#[test]
fn window_pairs_with_reversed_frame() {
    let r = apply_window(&vec![1, 2, 3], &vec![10, 20, 30]);
    assert_eq!(r, vec![30i64, 40, 30]);
}

#[test]
fn stft_frames_are_weighted_windows() {
    let signal: Vec<i32> = (1..=6).collect();
    let rows = stft_frames(&signal, &vec![1, 2, 3, 4], 2);
    assert_eq!(rows.len(), 2);
    assert_eq!(rows[0], vec![4i64, 6, 6, 4]);
    assert_eq!(rows[1], vec![6i64, 10, 12, 12]);
}

#[test]
fn basic_signals() {
    let pulse: Vec<_> = (0..4).map(|n| generate(&SignalKind::UnitPulse, n)).collect();
    assert_eq!(pulse, vec![Some(1), Some(0), Some(0), Some(0)]);
    assert_eq!(generate(&SignalKind::UnitStep, 7), Some(1));
    assert_eq!(generate(&SignalKind::UnitRamp, 9), Some(9));
    assert_eq!(generate(&SignalKind::UnitRamp, i32::MAX as usize + 1), None);
}

#[test]
fn exponential_signal() {
    assert_eq!(generate(&SignalKind::Exponential { base: 2 }, 10), Some(1024));
    assert_eq!(generate(&SignalKind::Exponential { base: 2 }, 31), None);
    assert_eq!(generate(&SignalKind::Exponential { base: -2 }, 31), Some(i32::MIN));
    assert_eq!(generate(&SignalKind::Exponential { base: 0 }, 0), Some(1));
    assert_eq!(generate(&SignalKind::Exponential { base: -1 }, 1_000_001), Some(-1));
}

#[test]
fn square_signal_repeats_by_period() {
    let sq = SignalKind::Square { amplitude: 3, period: 4 };
    assert_eq!(
        generate_signal(&sq, 9),
        Some(vec![3, 3, -3, -3, 3, 3, -3, -3, 3])
    );
    let low = SignalKind::Square { amplitude: i32::MIN, period: 2 };
    assert_eq!(generate_signal(&low, 1), Some(vec![i32::MIN]));
    assert_eq!(generate_signal(&low, 2), None);
}

#[test]
fn triangle_and_sawtooth_signals() {
    let tri = SignalKind::Triangle { step: 1, period: 8 };
    assert_eq!(
        generate_signal(&tri, 9),
        Some(vec![-4, -2, 0, 2, 4, 2, 0, -2, -4])
    );
    let saw = SignalKind::Sawtooth { step: 2, period: 3 };
    assert_eq!(generate_signal(&saw, 7), Some(vec![0, 2, 4, 0, 2, 4, 0]));
}

#[test]
fn one_period_extended() {
    assert_eq!(periodic_extend(&vec![1, 2, 3], 7), vec![1, 2, 3, 1, 2, 3, 1]);
    assert!(periodic_extend(&vec![1], 0).is_empty());
}

#[test]
fn transform_lengths() {
    assert_eq!(fft_stages(1), Ok(0));
    assert_eq!(fft_stages(8), Ok(3));
    assert_eq!(fft_stages(1024), Ok(10));
    assert_eq!(fft_stages(12), Err(DspError::NotPowerOfTwo));
    assert_eq!(fft_stages(0), Err(DspError::NotPowerOfTwo));
    assert_eq!(fft_stages(usize::MAX), Err(DspError::NotPowerOfTwo));
}

#[test]
fn bit_reversed_order() {
    assert_eq!(bit_reverse(1, 3), 4);
    assert_eq!(bit_reverse(6, 3), 3);
    let mut buf: Vec<u32> = (0..8).collect();
    bit_reverse_permute(&mut buf, 3);
    assert_eq!(buf, vec![0, 4, 2, 6, 1, 5, 3, 7]);
    bit_reverse_permute(&mut buf, 3);
    assert_eq!(buf, (0..8).collect::<Vec<u32>>());
}

#[test]
fn complex_products() {
    let a = Complex { re: 1, im: 2 };
    let b = Complex { re: 3, im: 4 };
    assert_eq!(complex_mul(a, b), Some(Complex { re: -5, im: 10 }));
    let big = Complex { re: i64::MAX, im: 0 };
    assert_eq!(complex_mul(big, big), None);
    let ys = spectrum_product(&vec![a, b], &vec![b, a]).unwrap();
    assert_eq!(ys, vec![Complex { re: -5, im: 10 }; 2]);
    assert_eq!(spectrum_product(&vec![a], &vec![]), Err(DspError::LengthMismatch));
    assert_eq!(spectrum_product(&vec![big], &vec![big]), Err(DspError::Overflow));
}

#[test]
fn series_order_check() {
    assert_eq!(dtfse_terms(0, 8), Ok(1));
    assert_eq!(dtfse_terms(7, 8), Ok(8));
    assert_eq!(dtfse_terms(8, 8), Err(DspError::OrderTooLarge));
}

#[test]
fn real_signal_as_interleaved_complex() {
    assert_eq!(interleaved_complex(&vec![5, 6, -7]), vec![5, 0, 6, 0, -7, 0]);
    assert!(interleaved_complex(&vec![]).is_empty());
}

#[test]
fn shapes_exist() {
    let shapes = [Shape::Line, Shape::Points];
    assert_eq!(shapes.len(), 2);
}

#[test]
fn signal_stream_hands_out_samples_then_ends() {
    let mut s = SignalStream::new(SignalKind::UnitRamp, 3);
    assert_eq!(s.next_sample(), Ok(Some(0)));
    assert_eq!(s.next_sample(), Ok(Some(1)));
    assert_eq!(s.next_sample(), Ok(Some(2)));
    assert_eq!(s.next_sample(), Ok(None));
    assert_eq!(s.next_sample(), Ok(None));
}

#[test]
fn signal_stream_reports_overflow_and_moves_on() {
    let mut s = SignalStream::new(SignalKind::Exponential { base: 2 }, 33);
    for n in 0..31 {
        assert_eq!(s.next_sample(), Ok(Some(1 << n)));
    }
    assert_eq!(s.next_sample(), Err(DspError::Overflow));
    assert_eq!(s.next_sample(), Err(DspError::Overflow));
    assert_eq!(s.next_sample(), Ok(None));
}

#[test]
fn impulse_response_padded_or_cut_to_length() {
    assert_eq!(pad_to(&vec![1, 2], 4, 0), vec![1, 2, 0, 0]);
    assert_eq!(pad_to(&vec![1, 2, 3], 2, 0), vec![1, 2]);
    assert!(pad_to(&vec![1, 2, 3], 0, 0).is_empty());
}

#[test]
fn frames_of_real_valued_samples() {
    let signal: Vec<f32> = (0..6).map(|n| n as f32 * 0.5).collect();
    let frames = windows(&signal, 3, 3);
    assert_eq!(frames, vec![vec![0.0, 0.5, 1.0], vec![1.5, 2.0, 2.5]]);
}
