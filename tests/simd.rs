use rten::simd::{load_padded, simd_fold, simd_map};

const LANES: usize = 4;

/// Sum of `xs` using four partial sums, combined at the end.
fn lane_sum(xs: &[f32]) -> f32 {
    let acc = simd_fold(
        xs,
        vec![0.0f32; LANES],
        LANES,
        |acc: Vec<f32>, x: Vec<f32>| acc.iter().zip(x.iter()).map(|(a, b)| a + b).collect(),
        0.0,
    );
    acc.iter().sum()
}

/// Sum of squares of `xs - offset` using four partial sums.
fn lane_sum_square_sub(xs: &[f32], offset: f32) -> f32 {
    let acc = simd_fold(
        xs,
        vec![0.0f32; LANES],
        LANES,
        move |acc: Vec<f32>, x: Vec<f32>| {
            acc.iter()
                .zip(x.iter())
                .map(|(a, b)| (b - offset).mul_add(b - offset, *a))
                .collect()
        },
        offset,
    );
    acc.iter().sum()
}

fn close(a: f32, b: f32) -> bool {
    (a - b).abs() <= 1e-4 * a.abs().max(b.abs()).max(1.0)
}

#[test]
fn sum_of_100_elements_matches_sequential_sum() {
    let xs: Vec<f32> = (0..100).map(|i| i as f32 * 0.1).collect();
    let expected: f32 = xs.iter().sum();
    assert!(close(lane_sum(&xs), expected));
}

#[test]
fn sum_square_sub_matches_variance_numerator() {
    let xs: Vec<f32> = (0..100).map(|i| i as f32 * 0.1).collect();
    let mean = xs.iter().sum::<f32>() / xs.len() as f32;
    let expected: f32 = xs.iter().map(|x| (x - mean) * (x - mean)).sum();
    assert!(close(lane_sum_square_sub(&xs, mean), expected));
}

#[test]
fn fold_counts_windows() {
    // Counting windows: 10 elements in windows of 4 make 3 windows.
    let n = simd_fold(&[1u8; 10], 0usize, 4, |acc: usize, _x: Vec<u8>| acc + 1, 0);
    assert_eq!(n, 3);
    let n = simd_fold(&[1u8; 0], 0usize, 4, |acc: usize, _x: Vec<u8>| acc + 1, 0);
    assert_eq!(n, 0);
}

#[test]
fn fold_pads_the_last_window() {
    // The padded lanes take part in the fold: integer sum with pad 100.
    let xs: Vec<i64> = (1..=6).collect();
    let total = simd_fold(&xs, 0i64, 4, |acc: i64, x: Vec<i64>| acc + x.iter().sum::<i64>(), 100);
    assert_eq!(total, 21 + 200);
}

#[test]
fn map_never_writes_padding() {
    for len in 0..=(3 * LANES + 1) {
        let input: Vec<f32> = (0..len).map(|i| i as f32 - 2.5).collect();
        let mut output = vec![0.0f32; len];
        simd_map(
            &input,
            &mut output,
            LANES,
            |v: Vec<f32>| v.iter().map(|x| x * x).collect(),
            f32::NAN,
        );
        for i in 0..len {
            assert!(!output[i].is_nan());
            assert_eq!(output[i], input[i] * input[i]);
        }
    }
}

#[test]
fn map_of_exact_multiple() {
    let input: Vec<i32> = (0..8).collect();
    let mut output = vec![0; 8];
    simd_map(&input, &mut output, 4, |v: Vec<i32>| v.iter().map(|x| x + 1).collect(), -1);
    assert_eq!(output, (1..9).collect::<Vec<i32>>());
}

#[test]
fn load_padded_fills_tail() {
    let xs = [1, 2, 3];
    assert_eq!(load_padded(&xs, 1, 4, 9), vec![2, 3, 9, 9]);
    assert_eq!(load_padded(&xs, 3, 2, 9), vec![9, 9]);
}
