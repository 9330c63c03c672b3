use lab2::filter::{convolution_sum, filter_direct_form, lookahead_filter, DirectFormFilter};
use lab2::DspError;

#[test]
fn identity_filter_passes_input_through() {
    let x = vec![1, 2, 3, 4, 5];
    let y = filter_direct_form(&vec![1], &vec![], &x);
    assert_eq!(y, Ok(vec![1i128, 2, 3, 4, 5]));
}

#[test]
fn feedforward_filter_equals_convolution() {
    let b = vec![3, -2, 5];
    let x = vec![4, -1, 7, 0, 2, 9, -6];
    let direct = filter_direct_form(&b, &vec![], &x).unwrap();
    let conv = convolution_sum(&b, &x);
    assert_eq!(direct, conv);
    assert_eq!(conv, vec![12, -11, 43, -19, 41, 23, -26]);
}

#[test]
fn convolution_zero_fills_before_start() {
    let y = convolution_sum(&vec![1, 2, 3], &vec![1, 1, 1, 1]);
    assert_eq!(y, vec![1i128, 3, 6, 6]);
}

#[test]
fn convolution_of_empty_input_is_empty() {
    assert_eq!(convolution_sum(&vec![1, 2], &vec![]), Vec::<i128>::new());
}

#[test]
fn convolution_with_empty_response_is_zero() {
    assert_eq!(convolution_sum(&vec![], &vec![4, 5]), vec![0i128, 0]);
}

#[test]
fn convolution_extremes_are_exact() {
    let x = vec![i32::MIN, i32::MIN, i32::MIN];
    let y = convolution_sum(&vec![i32::MIN, i32::MIN], &x);
    let p = (i32::MIN as i128) * (i32::MIN as i128);
    assert_eq!(y, vec![p, 2 * p, 2 * p]);
}

// Samples of sin(πn/5) and the coefficients 2.2, -1.1, scaled to integers.
#[test]
fn two_tap_filter_on_sinusoid() {
    let w0 = std::f32::consts::PI / 5.0;
    let x: Vec<i32> = (0..10)
        .map(|n| ((w0 * n as f32).sin() * 1_000_000.0).round() as i32)
        .collect();
    let y = filter_direct_form(&vec![22, -11], &vec![], &x).unwrap();
    assert_eq!(y.len(), 10);
    assert_eq!(y[0], 22 * x[0] as i128);
    for n in 1..10 {
        assert_eq!(y[n], 22 * x[n] as i128 - 11 * x[n - 1] as i128);
    }
    for n in 1..10 {
        let exact = 2.2 * (w0 * n as f32).sin() - 1.1 * (w0 * (n - 1) as f32).sin();
        assert!((y[n] as f32 / 10_000_000.0 - exact).abs() < 1e-5);
    }
}

#[test]
fn accumulator_feedback_turns_step_into_ramp() {
    // y[n] = x[n] + y[n-1]
    let y = filter_direct_form(&vec![1], &vec![-1], &vec![1, 1, 1, 1, 1]);
    assert_eq!(y, Ok(vec![1i128, 2, 3, 4, 5]));
}

#[test]
fn second_order_feedback() {
    // y[n] = x[n] + y[n-1] - 2·y[n-2]... with a = [-1, 2]
    let y = filter_direct_form(&vec![1], &vec![-1, 2], &vec![1, 0, 0, 0]).unwrap();
    // y0 = 1, y1 = 1, y2 = 1 - 2 = -1, y3 = -1 - 2 = -3
    assert_eq!(y, vec![1, 1, -1, -3]);
}

#[test]
fn feedback_growth_overflows() {
    let x = vec![i32::MAX; 10];
    let y = filter_direct_form(&vec![i32::MAX], &vec![i32::MIN], &x);
    assert_eq!(y, Err(DspError::Overflow));
}

#[test]
fn empty_coefficients_are_rejected() {
    assert_eq!(
        filter_direct_form(&vec![], &vec![1], &vec![1, 2]),
        Err(DspError::EmptyCoefficients)
    );
}

#[test]
fn empty_signal_is_rejected() {
    assert_eq!(
        filter_direct_form(&vec![1], &vec![], &vec![]),
        Err(DspError::EmptySignal)
    );
}

#[test]
fn lookahead_skips_last_sample() {
    let step = vec![1; 10];
    let y = lookahead_filter(&step, 22, -11);
    assert_eq!(y, vec![11i128; 9]);
    let y = lookahead_filter(&vec![1, 2, 4], 3, 5);
    assert_eq!(y, vec![3 * 2 + 5, 3 * 4 + 5 * 2]);
}

#[test]
fn lookahead_of_short_inputs_is_empty() {
    assert_eq!(lookahead_filter(&vec![], 1, 1), Vec::<i128>::new());
    assert_eq!(lookahead_filter(&vec![7], 1, 1), Vec::<i128>::new());
}

#[test]
fn streaming_filter_matches_block_filter() {
    let b = vec![2, -3, 1];
    let a = vec![-1, 2];
    let x = vec![5, -4, 3, 0, 0, 7, -1, 2];
    let block = filter_direct_form(&b, &a, &x).unwrap();
    let mut f = DirectFormFilter::new(b, a).ok().unwrap();
    let streamed: Vec<i128> = x.iter().map(|s| f.step(*s).unwrap()).collect();
    assert_eq!(streamed, block);
}

#[test]
fn streaming_filter_keeps_state_on_overflow() {
    let mut f = DirectFormFilter::new(vec![i32::MAX], vec![i32::MIN]).ok().unwrap();
    let mut outputs = Vec::new();
    loop {
        match f.step(i32::MAX) {
            Ok(v) => outputs.push(v),
            Err(e) => {
                assert_eq!(e, DspError::Overflow);
                break;
            }
        }
    }
    assert_eq!(outputs.len(), 3);
    assert_eq!(f.step(i32::MAX), Err(DspError::Overflow));
    let block = filter_direct_form(&vec![i32::MAX], &vec![i32::MIN], &vec![i32::MAX; 3]);
    assert_eq!(block, Ok(outputs));
}

#[test]
fn streaming_filter_needs_coefficients() {
    assert!(matches!(
        DirectFormFilter::new(vec![], vec![1]),
        Err(DspError::EmptyCoefficients)
    ));
}
