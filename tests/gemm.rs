use rten::gemm::gemm_int8;
use rten::im2col::{ConvGeometry, Im2Col};
use rten::kernels::{
    select_int8_kernel, ArmInt8DotKernel, ArmNeonKernel, CpuFeatures, GenericInt8Kernel, Int8Kernel,
    INT8_DOT_MR, INT8_DOT_NR,
};
use rten::packing::{pack_a_block, pack_b_block, packed_a_layout, packed_b_layout, Matrix};
use rten::quant::{pack_int8_a, pack_int8_b};

fn int8_kernel() -> ArmInt8DotKernel {
    ArmInt8DotKernel::new(&CpuFeatures { i8mm: true }).unwrap()
}

/// Deterministic `u8` values covering the whole range.
fn u8_data(n: usize, seed: u32) -> Vec<u8> {
    (0..n as u32).map(|i| ((i * 37 + seed * 11) % 256) as u8).collect()
}

/// Deterministic `i8` values covering the whole range.
fn i8_data(n: usize, seed: u32) -> Vec<i8> {
    (0..n as u32).map(|i| (((i * 53 + seed * 7) % 256) as i32 - 128) as i8).collect()
}

/// `C = (A - za) (B - zb)` computed by subtracting zero points before each
/// multiply.
fn reference_qgemm(
    a: &[u8],
    b: &[i8],
    m: usize,
    k: usize,
    n: usize,
    za: &[u8],
    zb: &[i8],
) -> Vec<i32> {
    let mut c = vec![0i32; m * n];
    for i in 0..m {
        for j in 0..n {
            let mut acc = 0i32;
            for d in 0..k {
                acc += (a[i * k + d] as i32 - za[i] as i32) * (b[d * n + j] as i32 - zb[j] as i32);
            }
            c[i * n + j] = acc;
        }
    }
    c
}

/// Blocked product of `a` (`m x k`) and `b` (`k x n`) with the quantized
/// kernel, tile by tile.
fn blocked_qgemm(
    a: &[u8],
    b: &[i8],
    m: usize,
    k: usize,
    n: usize,
    za: &[u8],
    zb: &[i8],
    beta: i32,
    out: &mut Vec<i32>,
) {
    let kernel = int8_kernel();
    let am = Matrix::from_rows(a.to_vec(), m, k);
    let bm = Matrix::from_rows(b.to_vec(), k, n);
    let pa = kernel.pack_a_block(&am, 0..m, 0..k);
    let pb = kernel.pack_b_block(&bm, 0..k, 0..n);
    let mut row = 0;
    while row < m {
        let used_rows = (m - row).min(INT8_DOT_MR);
        let mut col = 0;
        while col < n {
            let used_cols = (n - col).min(INT8_DOT_NR);
            kernel.kernel(
                out,
                row * n + col,
                n,
                &pa,
                row,
                &pb,
                col,
                used_rows,
                used_cols,
                beta,
                &za[row..],
                &zb[col..],
            );
            col += INT8_DOT_NR;
        }
        row += INT8_DOT_MR;
    }
}

#[test]
fn pack_a_round_trip_with_padding() {
    // 5 x 3 matrix with non-unit column stride (column-major storage).
    let rows = 5;
    let cols = 3;
    let data: Vec<i32> = (0..15).collect();
    let a = Matrix::new(data, rows, cols, 1, rows);
    let mr = 4;
    let layout = packed_a_layout(rows, cols, mr);
    assert_eq!(layout.size, 2 * 4 * 3);
    let mut out = Vec::new();
    pack_a_block(&mut out, &a, 0..rows, 0..cols, mr, -1);
    assert_eq!(out.len(), layout.size);
    for i in 0..8 {
        for k in 0..cols {
            let pos = (i / mr) * (mr * cols) + k * mr + i % mr;
            if i < rows {
                assert_eq!(out[pos], a.get(i, k));
            } else {
                assert_eq!(out[pos], -1);
            }
        }
    }
}

#[test]
fn pack_b_round_trip_with_padding() {
    let rows = 3;
    let cols = 5;
    let data: Vec<i32> = (0..15).collect();
    let b = Matrix::from_rows(data, rows, cols);
    let nr = 4;
    let layout = packed_b_layout(rows, cols, nr);
    assert_eq!(layout.size, 2 * 4 * 3);
    let mut out = Vec::new();
    pack_b_block(&mut out, &b, 1..3, 1..5, nr, 0);
    assert_eq!(out.len(), 4 * 2);
    for j in 0..4 {
        for k in 0..2 {
            let pos = (j / nr) * (nr * 2) + k * nr + j % nr;
            assert_eq!(out[pos], b.get(1 + k, 1 + j));
        }
    }
    // Exact panel layout: depth-major within the panel.
    assert_eq!(out, vec![6, 7, 8, 9, 11, 12, 13, 14]);
}

#[test]
fn neon_kernel_layout_requires_packing_for_strided_columns() {
    let kernel = ArmNeonKernel::new().unwrap();
    assert_eq!(kernel.mr(), 8);
    assert_eq!(kernel.nr(), 8);
    assert_eq!(kernel.name(), "arm-neon");
    let contiguous = Matrix::from_rows(vec![0.0f32; 6], 2, 3);
    let strided = Matrix::new(vec![0.0f32; 6], 2, 3, 1, 2);
    assert!(!kernel.packed_a_layout(&contiguous, 2, 3).must_pack);
    assert!(kernel.packed_a_layout(&strided, 2, 3).must_pack);
    assert_eq!(kernel.packed_a_layout(&contiguous, 9, 3).size, 16 * 3);
    assert_eq!(kernel.packed_b_layout(3, 9).size, 16 * 3);
}

#[test]
fn quantized_kernel_matches_reference() {
    let (m, k, n) = (13, 10, 7);
    let a = u8_data(m * k, 1);
    let b = i8_data(k * n, 2);
    let za: Vec<u8> = (0..m as u32).map(|i| (i * 19 % 256) as u8).collect();
    let zb: Vec<i8> = (0..n as u32).map(|j| ((j * 29 % 256) as i32 - 128) as i8).collect();
    let expected = reference_qgemm(&a, &b, m, k, n, &za, &zb);
    let mut out = vec![0i32; m * n];
    blocked_qgemm(&a, &b, m, k, n, &za, &zb, 0, &mut out);
    assert_eq!(out, expected);
}

#[test]
fn quantized_kernel_accumulates_when_beta_nonzero() {
    let (m, k, n) = (3, 5, 2);
    let a = u8_data(m * k, 3);
    let b = i8_data(k * n, 4);
    let za = vec![3u8; m];
    let zb = vec![-2i8; n];
    let expected = reference_qgemm(&a, &b, m, k, n, &za, &zb);
    let mut out: Vec<i32> = (0..(m * n) as i32).collect();
    blocked_qgemm(&a, &b, m, k, n, &za, &zb, 1, &mut out);
    for i in 0..m * n {
        assert_eq!(out[i], expected[i] + i as i32);
    }
}

#[test]
fn quantized_kernel_exact_value() {
    // 1 x 2 times 2 x 1: (10 - 2) * (3 - 1) + (20 - 2) * (-4 - 1) = 16 - 90.
    let a = vec![10u8, 20];
    let b = vec![3i8, -4];
    let mut out = vec![0i32; 1];
    blocked_qgemm(&a, &b, 1, 2, 1, &[2], &[1], 0, &mut out);
    assert_eq!(out, vec![-74]);
}

#[test]
fn boundary_tile_matches_zero_padded_tiles() {
    // (MR + 1) x k times k x (NR - 1).
    let (m, k, n) = (INT8_DOT_MR + 1, 6, INT8_DOT_NR - 1);
    let a = u8_data(m * k, 5);
    let b = i8_data(k * n, 6);
    let za = vec![0u8; m];
    let zb = vec![0i8; n];
    let mut out = vec![0i32; m * n];
    blocked_qgemm(&a, &b, m, k, n, &za, &zb, 0, &mut out);

    // Pad both operands with zeros up to whole tiles.
    let (pm, pn) = (2 * INT8_DOT_MR, INT8_DOT_NR);
    let mut a_pad = vec![0u8; pm * k];
    a_pad[..m * k].copy_from_slice(&a);
    let mut b_pad = vec![0i8; k * pn];
    for d in 0..k {
        for j in 0..n {
            b_pad[d * pn + j] = b[d * n + j];
        }
    }
    let mut out_pad = vec![0i32; pm * pn];
    blocked_qgemm(&a_pad, &b_pad, pm, k, pn, &vec![0u8; pm], &vec![0i8; pn], 0, &mut out_pad);
    for i in 0..m {
        for j in 0..n {
            assert_eq!(out[i * n + j], out_pad[i * pn + j]);
        }
    }
    assert_eq!(out, reference_qgemm(&a, &b, m, k, n, &za, &zb));
}

#[test]
fn quantized_kernel_leaves_rest_of_output_alone() {
    let kernel = int8_kernel();
    let (k, n) = (4, 4);
    let a = Matrix::from_rows(u8_data(2 * k, 7), 2, k);
    let b = Matrix::from_rows(i8_data(k * n, 8), k, n);
    let pa = pack_int8_a(&a, 0..2, 0..k, INT8_DOT_MR);
    let pb = pack_int8_b(&b, 0..k, 0..n, INT8_DOT_NR);
    let mut out = vec![7i32; 4 * 6];
    kernel.kernel(&mut out, 1, 6, &pa, 0, &pb, 0, 2, 3, 0, &[0, 0], &[0, 0, 0]);
    for (pos, v) in out.iter().enumerate() {
        let (r, c) = (pos / 6, pos % 6);
        if !(r < 2 && (1..4).contains(&c)) {
            assert_eq!(*v, 7, "position {pos}");
        }
    }
}

#[test]
fn quantized_gemv_matches_reference() {
    let kernel = int8_kernel();
    let (k, n) = (9, 5);
    let a = u8_data(k, 9);
    let b = i8_data(k * n, 10);
    let zb: Vec<i8> = vec![1, -1, 0, 5, -7];
    let bm = Matrix::from_rows(b.clone(), k, n);
    let mut out = vec![0i32; n];
    kernel.gemv_kernel(&mut out, &a, &bm, 0, 4, Some(&zb));
    let expected = reference_qgemm(&a, &b, 1, k, n, &[4], &zb);
    assert_eq!(out, expected);

    let mut out2 = vec![1i32; n];
    kernel.gemv_kernel(&mut out2, &a, &bm, 1, 0, None);
    let expected2 = reference_qgemm(&a, &b, 1, k, n, &[0], &[0; 5]);
    for j in 0..n {
        assert_eq!(out2[j], expected2[j] + 1);
    }
}

#[test]
fn int8_packing_pads_depth_and_sums_rows() {
    let a = Matrix::from_rows(vec![1u8, 2, 3, 4, 5, 6, 7, 8, 9, 10], 2, 5);
    let pa = pack_int8_a(&a, 0..2, 0..5, 4);
    assert_eq!(pa.lines(), 4);
    assert_eq!(pa.depth(), 5);
    assert_eq!(pa.line_stride(), 8);
    assert_eq!(pa.row_sum(0), 15);
    assert_eq!(pa.row_sum(1), 40);
    assert_eq!(pa.row_sum(2), 0);
    assert_eq!(pa.get(1, 4), 10);
    assert_eq!(pa.get(1, 5), 0);
    assert_eq!(pa.get(3, 0), 0);
}

#[test]
fn unsupported_feature_gives_no_kernel() {
    assert!(ArmInt8DotKernel::new(&CpuFeatures { i8mm: false }).is_none());
    assert!(ArmInt8DotKernel::new(&CpuFeatures { i8mm: true }).is_some());
}

#[test]
fn capability_probe_is_consistent() {
    for has in [false, true] {
        let features = CpuFeatures { i8mm: has };
        let first = ArmInt8DotKernel::new(&features).is_some();
        for _ in 0..3 {
            assert_eq!(ArmInt8DotKernel::new(&features).is_some(), first);
        }
    }
}

#[test]
fn int8_kernel_reports_tile_size() {
    let kernel = int8_kernel();
    assert_eq!(kernel.mr(), 8);
    assert_eq!(kernel.nr(), 4);
    assert_eq!(kernel.name(), "arm-udot-int8");
}

#[test]
fn dispatcher_falls_back_without_extension() {
    let k = select_int8_kernel(&CpuFeatures { i8mm: false });
    assert!(matches!(k, Int8Kernel::Generic(_)));
    assert_eq!(k.name(), "generic-int8");
    let k = select_int8_kernel(&CpuFeatures { i8mm: true });
    assert!(matches!(k, Int8Kernel::ArmDot(_)));
    assert_eq!(k.name(), "arm-udot-int8");
}

#[test]
fn generic_kernel_matches_dot_kernel() {
    let (m, k, n) = (8, 9, 4);
    let a = Matrix::from_rows(u8_data(m * k, 11), m, k);
    let b = Matrix::from_rows(i8_data(k * n, 12), k, n);
    let pa = pack_int8_a(&a, 0..m, 0..k, INT8_DOT_MR);
    let pb = pack_int8_b(&b, 0..k, 0..n, INT8_DOT_NR);
    let za: Vec<u8> = (0..8).map(|i| i * 30).collect();
    let zb: Vec<i8> = vec![-5, 0, 9, 127];
    let mut out1 = vec![0i32; m * n];
    let mut out2 = vec![0i32; m * n];
    int8_kernel().kernel(&mut out1, 0, n, &pa, 0, &pb, 0, 8, 4, 0, &za, &zb);
    GenericInt8Kernel::new().unwrap().kernel(&mut out2, 0, n, &pa, 0, &pb, 0, 8, 4, 0, &za, &zb);
    assert_eq!(out1, out2);
    let a_rows: Vec<u8> = (0..m * k).map(|i| a.get(i / k, i % k)).collect();
    let b_rows: Vec<i8> = (0..k * n).map(|i| b.get(i / n, i % n)).collect();
    assert_eq!(out1, reference_qgemm(&a_rows, &b_rows, m, k, n, &za, &zb));
}

fn geometry(pad: usize, stride: usize, dilation: usize) -> ConvGeometry {
    ConvGeometry {
        kernel_h: 2,
        kernel_w: 2,
        stride_h: stride,
        stride_w: stride,
        pad_top: pad,
        pad_left: pad,
        pad_bottom: pad,
        pad_right: pad,
        dilation_h: dilation,
        dilation_w: dilation,
    }
}

#[test]
fn im2col_view_without_padding() {
    // One 3x3 channel, 2x2 windows, stride 1: 4 output positions.
    let image: Vec<i32> = (1..=9).collect();
    let view = Im2Col::new(image, 1, 3, 3, geometry(0, 1, 1), 0);
    assert_eq!(view.rows(), 4);
    assert_eq!(view.cols(), 4);
    let kernel = ArmNeonKernel::new().unwrap();
    let mut out = Vec::new();
    kernel.pack_im2col(&mut out, &view, 0..4, 0..4);
    // One panel of 8 columns (4 real, 4 padding), depth 4, depth-major.
    assert_eq!(out.len(), 8 * 4);
    // Row (ky, kx) = (0, 0): top-left sample of each window.
    assert_eq!(&out[0..8], &[1, 2, 4, 5, 0, 0, 0, 0]);
    // Row (0, 1).
    assert_eq!(&out[8..16], &[2, 3, 5, 6, 0, 0, 0, 0]);
    // Row (1, 0).
    assert_eq!(&out[16..24], &[4, 5, 7, 8, 0, 0, 0, 0]);
    // Row (1, 1).
    assert_eq!(&out[24..32], &[5, 6, 8, 9, 0, 0, 0, 0]);
}

#[test]
fn im2col_padding_reads_zero() {
    // One 2x2 channel with one cell of padding: 3x3 output positions.
    let image = vec![1, 2, 3, 4];
    let view = Im2Col::new(image, 1, 2, 2, geometry(1, 1, 1), -1);
    assert_eq!(view.rows(), 4);
    assert_eq!(view.cols(), 9);
    let kernel = ArmNeonKernel::new().unwrap();
    let mut out = Vec::new();
    kernel.pack_im2col(&mut out, &view, 0..1, 0..9);
    // Top-left tap of each window: only the bottom-right four windows see
    // the image.
    assert_eq!(out.len(), 16);
    assert_eq!(&out[0..9], &[-1, -1, -1, -1, 1, 2, -1, 3, 4]);
    assert_eq!(&out[9..16], &[-1; 7]);
}

#[test]
fn im2col_with_stride_and_dilation() {
    // 5x5 image, 2x2 kernel dilated by 2, stride 2: 2x2 outputs.
    let image: Vec<i32> = (0..25).collect();
    let view = Im2Col::new(image, 1, 5, 5, geometry(0, 2, 2), 0);
    assert_eq!(view.cols(), 4);
    let kernel = ArmNeonKernel::new().unwrap();
    let mut out = Vec::new();
    kernel.pack_im2col(&mut out, &view, 3..4, 0..4);
    // Tap (1, 1) sits 2 rows and 2 columns below each window start.
    assert_eq!(&out[0..4], &[12, 14, 22, 24]);
}

/// Blocked float product `alpha * A B + beta * C` built from the library's
/// packing and tile merge, with the multiply-accumulate done here.
fn blocked_sgemm(a: &Matrix<f32>, b: &Matrix<f32>, c: &mut Vec<f32>, alpha: f32, beta: f32) {
    let kernel = ArmNeonKernel::new().unwrap();
    let (m, k, n) = (a.rows(), a.cols(), b.cols());
    let (mr, nr) = (kernel.mr(), kernel.nr());
    let mut pa = Vec::new();
    let mut pb = Vec::new();
    kernel.pack_a_block(&mut pa, a, 0..m, 0..k, 0.0);
    kernel.pack_b_block(&mut pb, b, 0..k, 0..n, 0.0);
    let mut row = 0;
    while row < m {
        let used_rows = (m - row).min(mr);
        let mut col = 0;
        while col < n {
            let used_cols = (n - col).min(nr);
            let a_panel = &pa[(row / mr) * mr * k..];
            let b_panel = &pb[(col / nr) * nr * k..];
            let mut tmp = vec![0.0f32; mr * nr];
            for d in 0..k {
                for r in 0..mr {
                    for cc in 0..nr {
                        tmp[r * nr + cc] += a_panel[d * mr + r] * b_panel[d * nr + cc];
                    }
                }
            }
            for v in tmp.iter_mut() {
                *v *= alpha;
            }
            rten::tile::accumulate_into(
                &tmp,
                nr,
                c,
                row * n + col,
                n,
                used_rows,
                used_cols,
                beta == 0.0,
                |old: f32, new: f32| beta * old + new,
            );
            col += nr;
        }
        row += mr;
    }
}

#[test]
fn float_blocked_product_matches_naive_product() {
    for &(m, k, n) in &[(1, 1, 1), (9, 5, 7), (17, 3, 9), (8, 8, 8), (3, 20, 17)] {
        let a_data: Vec<f32> = (0..m * k).map(|i| ((i * 7 % 13) as f32 - 6.0) * 0.25).collect();
        let b_data: Vec<f32> = (0..k * n).map(|i| ((i * 5 % 11) as f32 - 5.0) * 0.5).collect();
        let a = Matrix::from_rows(a_data.clone(), m, k);
        let b = Matrix::from_rows(b_data.clone(), k, n);
        let c0: Vec<f32> = (0..m * n).map(|i| i as f32 * 0.1).collect();
        let (alpha, beta) = (1.5f32, 0.5f32);
        let mut c = c0.clone();
        blocked_sgemm(&a, &b, &mut c, alpha, beta);
        for i in 0..m {
            for j in 0..n {
                let mut acc = 0.0f32;
                for d in 0..k {
                    acc += a_data[i * k + d] * b_data[d * n + j];
                }
                let expected = alpha * acc + beta * c0[i * n + j];
                let got = c[i * n + j];
                assert!((got - expected).abs() <= 1e-4 * expected.abs().max(1.0), "({i}, {j})");
            }
        }
    }
}

#[test]
fn float_beta_zero_overwrites_destination() {
    let a = Matrix::from_rows(vec![1.0f32, 2.0], 1, 2);
    let b = Matrix::from_rows(vec![3.0f32, 4.0], 2, 1);
    let mut c = vec![f32::NAN];
    blocked_sgemm(&a, &b, &mut c, 1.0, 0.0);
    assert_eq!(c, vec![11.0]);
}

#[test]
fn gemm_int8_matches_reference_for_tile_boundaries() {
    for &(m, k, n) in &[(1, 1, 1), (8, 4, 4), (9, 7, 3), (16, 13, 8), (3, 33, 11), (0, 3, 2), (2, 0, 3)] {
        let a = u8_data(m * k, 21);
        let b = i8_data(k * n, 22);
        let za: Vec<u8> = (0..m as u32).map(|i| (i * 41 % 256) as u8).collect();
        let zb: Vec<i8> = (0..n as u32).map(|j| ((j * 67 % 256) as i32 - 128) as i8).collect();
        let expected = reference_qgemm(&a, &b, m, k, n, &za, &zb);
        for features in [CpuFeatures { i8mm: true }, CpuFeatures { i8mm: false }] {
            let kernel = select_int8_kernel(&features);
            let c = gemm_int8(
                &kernel,
                &Matrix::from_rows(a.clone(), m, k),
                &Matrix::from_rows(b.clone(), k, n),
                &za,
                &zb,
            );
            assert_eq!(c, expected, "m={m} k={k} n={n}");
        }
    }
}

#[test]
fn gemm_int8_boundary_tile_equals_padded_product() {
    let (m, k, n) = (INT8_DOT_MR + 1, 5, INT8_DOT_NR - 1);
    let a = u8_data(m * k, 31);
    let b = i8_data(k * n, 32);
    let za = vec![7u8; m];
    let zb = vec![-3i8; n];
    let kernel = select_int8_kernel(&CpuFeatures { i8mm: true });
    let c = gemm_int8(&kernel, &Matrix::from_rows(a.clone(), m, k), &Matrix::from_rows(b.clone(), k, n), &za, &zb);

    let (pm, pn) = (2 * INT8_DOT_MR, INT8_DOT_NR);
    let mut a_pad = vec![0u8; pm * k];
    a_pad[..m * k].copy_from_slice(&a);
    let mut b_pad = vec![0i8; k * pn];
    for d in 0..k {
        for j in 0..n {
            b_pad[d * pn + j] = b[d * n + j];
        }
    }
    let mut za_pad = za.clone();
    za_pad.resize(pm, 0);
    let mut zb_pad = zb.clone();
    zb_pad.resize(pn, 0);
    let c_pad = gemm_int8(&kernel, &Matrix::from_rows(a_pad, pm, k), &Matrix::from_rows(b_pad, k, pn), &za_pad, &zb_pad);
    for i in 0..m {
        for j in 0..n {
            assert_eq!(c[i * n + j], c_pad[i * pn + j]);
        }
    }
}

#[test]
fn gemm_int8_with_strided_operand() {
    // `b` stored column-major: element (d, j) at j * k + d.
    let (m, k, n) = (2, 3, 2);
    let a = vec![1u8, 2, 3, 4, 5, 6];
    let b_cols = vec![1i8, 0, -1, 2, 2, 2];
    let kernel = select_int8_kernel(&CpuFeatures { i8mm: false });
    let c = gemm_int8(&kernel, &Matrix::from_rows(a, m, k), &Matrix::new(b_cols, k, n, 1, k), &[0, 0], &[0, 0]);
    assert_eq!(c, vec![1 - 3, 2 + 4 + 6, 4 - 6, 8 + 10 + 12]);
}

#[test]
fn quantized_kernel_scales_existing_output_by_beta() {
    let (m, k, n) = (3, 5, 2);
    let a = u8_data(m * k, 13);
    let b = i8_data(k * n, 14);
    let za = vec![1u8; m];
    let zb = vec![2i8; n];
    let expected = reference_qgemm(&a, &b, m, k, n, &za, &zb);
    for beta in [2, -3] {
        let mut out: Vec<i32> = (0..(m * n) as i32).collect();
        blocked_qgemm(&a, &b, m, k, n, &za, &zb, beta, &mut out);
        for i in 0..m * n {
            assert_eq!(out[i], expected[i] + beta * i as i32);
        }
    }
}

#[test]
fn quantized_gemv_scales_existing_output_by_beta() {
    let kernel = int8_kernel();
    let (k, n) = (6, 3);
    let a = u8_data(k, 15);
    let b = i8_data(k * n, 16);
    let bm = Matrix::from_rows(b.clone(), k, n);
    let mut out = vec![1i32, 2, 3];
    kernel.gemv_kernel(&mut out, &a, &bm, 2, 0, None);
    let expected = reference_qgemm(&a, &b, 1, k, n, &[0], &[0; 3]);
    for j in 0..n {
        assert_eq!(out[j], expected[j] + 2 * (j as i32 + 1));
    }
}

#[test]
fn int8_layouts_count_sums() {
    let kernel = int8_kernel();
    let la = kernel.packed_a_layout(8, 4);
    assert_eq!(la.size, 32);
    assert_eq!(la.sums, 8);
    assert!(la.must_pack);
    let la = kernel.packed_a_layout(9, 5);
    assert_eq!(la.size, 16 * 8);
    assert_eq!(la.sums, 16);
    let lb = kernel.packed_b_layout(5, 3);
    assert_eq!(lb.size, 4 * 8);
    assert_eq!(lb.sums, 4);
    let a = Matrix::from_rows(u8_data(9 * 5, 1), 9, 5);
    let pa = kernel.pack_a_block(&a, 0..9, 0..5);
    assert_eq!(pa.lines(), la.sums);
    assert_eq!(pa.lines() * pa.line_stride(), la.size);
    assert_eq!(packed_a_layout(9, 5, 8).sums, 0);
}
