//! Matrix-multiplication micro-kernels for Arm: a float kernel whose packing
//! is shared with the generic panel layout, and an 8-bit integer kernel built
//! on the unsigned-by-signed dot product instruction.
use vstd::prelude::*;

use crate::packing::{
    pack_a_block, pack_b_block, packed_a_layout, packed_b_layout, packed_index, packed_size,
    panel_count, Matrix, PackedLayout,
};
use crate::quant::{
    lemma_qdot_bound, lemma_qdot_decompose, lemma_qdot_zero_tail, pack_int8_a, pack_int8_b, qdot,
    round_up4, PackedInt8A, PackedInt8B, MAX_QUANT_DEPTH,
};
use crate::tile::{accumulate_into, in_tile};
use crate::im2col::Im2Col;
use crate::packing::{lemma_packed_index, pack_panels, PanelSource};

verus! {

/// Sum of the four products of lane group `i` of `a` and `b`.
pub open spec fn dot4(a: Seq<u8>, b: Seq<i8>, i: int) -> int {
    a[4 * i] * b[4 * i] + a[4 * i + 1] * b[4 * i + 1] + a[4 * i + 2] * b[4 * i + 2] + a[4 * i
        + 3] * b[4 * i + 3]
}

/// Largest magnitude that `dot4` can reach.
pub const DOT4_BOUND: i32 = 130560;

proof fn lemma_product_bound(x: u8, y: i8)
    ensures
        -32640 <= x * y <= 32640,
{
    let (a, b) = (x as int, y as int);
    assert(-32640 <= a * b <= 32640) by (nonlinear_arith)
        requires
            0 <= a <= 255,
            -128 <= b <= 127,
    ;
}

fn usdot_lane(a: &[u8; 16], b: &[i8; 16], c: i32, i: usize) -> (r: i32)
    requires
        i < 4,
    ensures
        -DOT4_BOUND <= dot4(a@, b@, i as int) <= DOT4_BOUND,
        r == c.wrapping_add(dot4(a@, b@, i as int) as i32),
{
    let k = 4 * i;
    proof {
        lemma_product_bound(a@[k as int], b@[k as int]);
        lemma_product_bound(a@[k + 1], b@[k + 1]);
        lemma_product_bound(a@[k + 2], b@[k + 2]);
        lemma_product_bound(a@[k + 3], b@[k + 3]);
    }
    let p0 = a[k] as i32 * b[k] as i32;
    let p1 = a[k + 1] as i32 * b[k + 1] as i32;
    let p2 = a[k + 2] as i32 * b[k + 2] as i32;
    let p3 = a[k + 3] as i32 * b[k + 3] as i32;
    c.wrapping_add(p0 + p1 + p2 + p3)
}

/// Dot products of groups of four `u8` values of `a` with four `i8` values
/// of `b`, added with wrap-around into the four lanes of `c`: the
/// unsigned-by-signed dot product instruction.
fn usdot(a: [u8; 16], b: [i8; 16], c: [i32; 4]) -> (r: [i32; 4])
    ensures
        forall|i: int|
            0 <= i < 4 ==> #[trigger] r@[i] == c@[i].wrapping_add(dot4(a@, b@, i) as i32),
        forall|i: int| 0 <= i < 4 ==> -DOT4_BOUND <= #[trigger] dot4(a@, b@, i) <= DOT4_BOUND,
{
    let r0 = usdot_lane(&a, &b, c[0], 0);
    let r1 = usdot_lane(&a, &b, c[1], 1);
    let r2 = usdot_lane(&a, &b, c[2], 2);
    let r3 = usdot_lane(&a, &b, c[3], 3);
    let r = [r0, r1, r2, r3];
    assert(r@ =~= seq![r0, r1, r2, r3]);
    assert forall|i: int| 0 <= i < 4 implies -DOT4_BOUND <= #[trigger] dot4(a@, b@, i)
        <= DOT4_BOUND by {
        if i == 0 {
        } else if i == 1 {
        } else if i == 2 {
        } else {
        }
    }
    r
}

} // verus!

verus! {

proof fn lemma_dot_step(la: Seq<u8>, lb: Seq<i8>, k: int, before: int, after: int)
    requires
        0 <= k,
        k + 4 <= la.len(),
        k + 4 <= lb.len(),
        before == qdot(la, lb, 0, 0, k),
        -32640 * k <= before <= 32640 * k,
        after == before + (la[k] * lb[k] + la[k + 1] * lb[k + 1] + la[k + 2] * lb[k + 2] + la[k
            + 3] * lb[k + 3]),
    ensures
        after == qdot(la, lb, 0, 0, k + 4),
        -32640 * (k + 4) <= after <= 32640 * (k + 4),
{
    assert(qdot(la, lb, 0, 0, k + 1) == qdot(la, lb, 0, 0, k) + (la[k] - 0) * (lb[k] - 0));
    assert(qdot(la, lb, 0, 0, k + 2) == qdot(la, lb, 0, 0, k + 1) + (la[k + 1] - 0) * (lb[k + 1]
        - 0));
    assert(qdot(la, lb, 0, 0, k + 3) == qdot(la, lb, 0, 0, k + 2) + (la[k + 2] - 0) * (lb[k + 2]
        - 0));
    assert(qdot(la, lb, 0, 0, k + 4) == qdot(la, lb, 0, 0, k + 3) + (la[k + 3] - 0) * (lb[k + 3]
        - 0));
    lemma_product_bound(la[k], lb[k]);
    lemma_product_bound(la[k + 1], lb[k + 1]);
    lemma_product_bound(la[k + 2], lb[k + 2]);
    lemma_product_bound(la[k + 3], lb[k + 3]);
}

/// Raw dot products, over the padded depth, of row `l` of `a` with columns
/// `col .. col + 4` of `b`.
fn row_dots(a: &PackedInt8A, l: usize, b: &PackedInt8B, col: usize) -> (r: [i32; 4])
    requires
        a.wf(),
        b.wf(),
        a.depth_view() == b.depth_view(),
        l < a.lines_view(),
        col + 4 <= b.lines_view(),
    ensures
        forall|c: int|
            0 <= c < 4 ==> #[trigger] r@[c] == qdot(
                a.line(l as int),
                b.line(col + c),
                0,
                0,
                a.depth_view() as int,
            ),
{
    let d4 = a.line_stride();
    let nk = d4 / 4;
    let _ = b.lines();
    let ghost la = a.line(l as int);
    proof {
        a.lemma_line_len(l as int);
        assert forall|c: int| 0 <= c < 4 implies #[trigger] b.line(col + c).len() == d4 by {
            b.lemma_line_len(col + c);
        }
        assert(nk * 4 == d4) by (nonlinear_arith)
            requires
                nk == d4 / 4,
                d4 == round_up4(a.depth_view() as int),
        ;
    }
    let mut acc: [i32; 4] = [0, 0, 0, 0];
    let mut kb: usize = 0;
    while kb < nk
        invariant
            a.wf(),
            b.wf(),
            a.depth_view() == b.depth_view(),
            l < a.lines_view(),
            col + 4 <= b.lines_view(),
            d4 == a.stride_view() == b.stride_view(),
            nk * 4 == d4,
            la == a.line(l as int),
            la.len() == d4,
            col + 4 <= usize::MAX,
            forall|c: int| 0 <= c < 4 ==> #[trigger] b.line(col + c).len() == d4,
            kb <= nk,
            forall|c: int|
                0 <= c < 4 ==> #[trigger] acc@[c] == qdot(la, b.line(col + c), 0, 0, 4 * kb),
            forall|c: int| 0 <= c < 4 ==> -32640 * (4 * kb) <= #[trigger] acc@[c] <= 32640 * (4 * kb),
        decreases nk - kb,
    {
        let k = 4 * kb;
        let x0 = a.get(l, k);
        let x1 = a.get(l, k + 1);
        let x2 = a.get(l, k + 2);
        let x3 = a.get(l, k + 3);
        let av: [u8; 16] = [x0, x1, x2, x3, x0, x1, x2, x3, x0, x1, x2, x3, x0, x1, x2, x3];
        let y00 = b.get(col, k);
        let y01 = b.get(col, k + 1);
        let y02 = b.get(col, k + 2);
        let y03 = b.get(col, k + 3);
        let y10 = b.get(col + 1, k);
        let y11 = b.get(col + 1, k + 1);
        let y12 = b.get(col + 1, k + 2);
        let y13 = b.get(col + 1, k + 3);
        let y20 = b.get(col + 2, k);
        let y21 = b.get(col + 2, k + 1);
        let y22 = b.get(col + 2, k + 2);
        let y23 = b.get(col + 2, k + 3);
        let y30 = b.get(col + 3, k);
        let y31 = b.get(col + 3, k + 1);
        let y32 = b.get(col + 3, k + 2);
        let y33 = b.get(col + 3, k + 3);
        let bv: [i8; 16] = [
            y00,
            y01,
            y02,
            y03,
            y10,
            y11,
            y12,
            y13,
            y20,
            y21,
            y22,
            y23,
            y30,
            y31,
            y32,
            y33,
        ];
        proof {
            assert(av@ =~= seq![x0, x1, x2, x3, x0, x1, x2, x3, x0, x1, x2, x3, x0, x1, x2, x3]);
            assert(bv@ =~= seq![
                y00,
                y01,
                y02,
                y03,
                y10,
                y11,
                y12,
                y13,
                y20,
                y21,
                y22,
                y23,
                y30,
                y31,
                y32,
                y33,
            ]);
            assert(32640 * 4 * kb <= 32640 * 33024) by (nonlinear_arith)
                requires
                    kb < nk,
                    nk * 4 == d4,
                    d4 <= MAX_QUANT_DEPTH + 3,
            ;
            assert forall|c: int| 0 <= c < 4 implies i32::MIN + DOT4_BOUND <= #[trigger] acc@[c]
                <= i32::MAX - DOT4_BOUND && -32640 * (4 * kb) <= acc@[c] <= 32640 * (4 * kb) by {
                let v = acc@[c] as int;
                let kk = kb as int;
                assert(-32640 * (4 * kk) <= v <= 32640 * (4 * kk));
                assert(32640 * 4 * kk <= 32640 * 33024);
            }
        }
        let next = usdot(av, bv, acc);
        proof {
            lemma_dot_step(la, b.line(col as int), 4 * kb, acc@[0] as int, next@[0] as int);
            lemma_dot_step(la, b.line(col + 1), 4 * kb, acc@[1] as int, next@[1] as int);
            lemma_dot_step(la, b.line(col + 2), 4 * kb, acc@[2] as int, next@[2] as int);
            lemma_dot_step(la, b.line(col + 3), 4 * kb, acc@[3] as int, next@[3] as int);
            assert forall|c: int| 0 <= c < 4 implies #[trigger] next@[c] == qdot(
                la,
                b.line(col + c),
                0,
                0,
                4 * kb + 4,
            ) && -32640 * (4 * kb + 4) <= next@[c] <= 32640 * (4 * kb + 4) by {
                if c == 0 {
                } else if c == 1 {
                } else if c == 2 {
                } else {
                }
            }
        }
        acc = next;
        kb += 1;
    }
    proof {
        assert forall|c: int| 0 <= c < 4 implies #[trigger] acc@[c] == qdot(
            la,
            b.line(col + c),
            0,
            0,
            a.depth_view() as int,
        ) by {
            assert forall|k: int| a.depth_view() <= k < d4 implies la[k] == 0 by {
                assert(a.line(l as int)[k] == 0);
            }
            lemma_qdot_zero_tail(la, b.line(col + c), a.depth_view() as int, d4 as int);
        }
    }
    acc
}

} // verus!

verus! {

/// Instruction-set extensions that kernel selection depends on, as reported
/// by the CPU.
pub struct CpuFeatures {
    /// The 8-bit integer matrix multiplication extension, which provides the
    /// unsigned-by-signed dot product.
    pub i8mm: bool,
}

/// Zero-point corrected dot product of packed row `ar` of `a` and packed
/// column `bc` of `b`, over the depth.
pub open spec fn kernel_value(
    a: PackedInt8A,
    ar: int,
    b: PackedInt8B,
    bc: int,
    za: u8,
    zb: i8,
) -> int {
    qdot(a.line(ar), b.line(bc), za as int, zb as int, a.depth_view() as int)
}

/// 8-bit integer matrix multiplication kernel using the Arm dot product
/// instructions: `u8` left operand, `i8` right operand, `i32` output.
pub struct ArmInt8DotKernel {
    _private: (),
}

/// Rows of the tile that the 8-bit kernel computes.
pub const INT8_DOT_MR: usize = 8;

/// Columns of the tile that the 8-bit kernel computes.
pub const INT8_DOT_NR: usize = 4;

proof fn lemma_prefix_sums_bound(la: Seq<u8>, lb: Seq<i8>, n: int)
    requires
        0 <= n <= la.len(),
        n <= lb.len(),
    ensures
        0 <= crate::quant::prefix_sum_u8(la, n) <= 255 * n,
        -128 * n <= crate::quant::prefix_sum_i8(lb, n) <= 127 * n,
{
    if n > 0 {
        crate::quant::lemma_sum_u8_step(la, n - 1);
        crate::quant::lemma_sum_i8_step(lb, n - 1);
    } else {
        assert(la.take(0) =~= Seq::<u8>::empty());
        assert(lb.take(0) =~= Seq::<i8>::empty());
    }
}

impl ArmInt8DotKernel {
    /// The kernel, where the CPU has the dot product instructions it needs.
    pub fn new(features: &CpuFeatures) -> (r: Option<Self>)
        ensures
            r.is_some() == features.i8mm,
    {
        if !features.i8mm {
            return None;
        }
        Some(ArmInt8DotKernel { _private: () })
    }

    pub fn name(&self) -> &'static str {
        "arm-udot-int8"
    }

    pub fn mr(&self) -> (r: usize)
        ensures
            r == INT8_DOT_MR,
    {
        INT8_DOT_MR
    }

    pub fn nr(&self) -> (r: usize)
        ensures
            r == INT8_DOT_NR,
    {
        INT8_DOT_NR
    }

    /// Compute the `used_rows x used_cols` part of a tile: entry `(r, c)` is
    /// the dot product of packed row `a_row + r` of `a` and packed column
    /// `b_col + c` of `b` after subtracting the zero points `a_zero[r]` and
    /// `b_zero[c]`, plus `beta` times the destination's value; where `beta`
    /// is zero the destination is only written, never read. Integer products
    /// are exact, so there is no `alpha` scale. No other element of `tile`
    /// changes.
    pub fn kernel(
        &self,
        tile: &mut Vec<i32>,
        tile_start: usize,
        tile_row_stride: usize,
        a: &PackedInt8A,
        a_row: usize,
        b: &PackedInt8B,
        b_col: usize,
        used_rows: usize,
        used_cols: usize,
        beta: i32,
        a_zero: &[u8],
        b_zero: &[i8],
    )
        requires
            a.wf(),
            b.wf(),
            a.depth_view() == b.depth_view(),
            1 <= used_rows <= INT8_DOT_MR,
            1 <= used_cols <= INT8_DOT_NR,
            a_row + used_rows <= a.lines_view(),
            b_col + INT8_DOT_NR <= b.lines_view(),
            used_rows <= a_zero@.len(),
            used_cols <= b_zero@.len(),
            used_cols <= tile_row_stride,
            tile_start + (used_rows - 1) * tile_row_stride + used_cols <= old(tile)@.len(),
            beta != 0 ==> forall|r: int, c: int|
                0 <= r < used_rows && 0 <= c < used_cols ==> i32::MIN <= beta * old(tile)@[tile_start + r
                    * tile_row_stride + c] + #[trigger] kernel_value(
                    *a,
                    a_row + r,
                    *b,
                    b_col + c,
                    a_zero@[r],
                    b_zero@[c],
                ) <= i32::MAX,
        ensures
            final(tile)@.len() == old(tile)@.len(),
            forall|r: int, c: int|
                0 <= r < used_rows && 0 <= c < used_cols ==> #[trigger] final(tile)@[tile_start + r
                    * tile_row_stride + c] == (if beta == 0 {
                    0
                } else {
                    beta * old(tile)@[tile_start + r * tile_row_stride + c]
                }) + kernel_value(*a, a_row + r, *b, b_col + c, a_zero@[r], b_zero@[c]),
            forall|j: int|
                0 <= j < old(tile)@.len() && !in_tile(
                    j,
                    tile_start as int,
                    tile_row_stride as int,
                    used_rows as int,
                    used_cols as int,
                ) ==> #[trigger] final(tile)@[j] == old(tile)@[j],
    {
        let depth = a.depth();
        let _ = a.lines();
        let _ = b.lines();
        let mut tmp: Vec<i32> = vec![0; 32];
        let mut r: usize = 0;
        while r < used_rows
            invariant
                a.wf(),
                b.wf(),
                a.depth_view() == b.depth_view(),
                depth == a.depth_view(),
                1 <= used_rows <= INT8_DOT_MR,
                1 <= used_cols <= INT8_DOT_NR,
                a_row + used_rows <= a.lines_view() <= usize::MAX,
                b_col + INT8_DOT_NR <= b.lines_view() <= usize::MAX,
                used_rows <= a_zero@.len(),
                used_cols <= b_zero@.len(),
                r <= used_rows,
                tmp@.len() == 32,
                forall|r2: int, c2: int|
                    0 <= r2 < r && 0 <= c2 < used_cols ==> #[trigger] tmp@[r2 * 4 + c2]
                        == kernel_value(*a, a_row + r2, *b, b_col + c2, a_zero@[r2], b_zero@[c2]),
            decreases used_rows - r,
        {
            let l = a_row + r;
            let dots = row_dots(a, l, b, b_col);
            let rsum = a.row_sum(l);
            let za = a_zero[r];
            let mut c: usize = 0;
            while c < used_cols
                invariant
                    a.wf(),
                    b.wf(),
                    a.depth_view() == b.depth_view(),
                    depth == a.depth_view(),
                    1 <= used_cols <= INT8_DOT_NR,
                    r < used_rows <= INT8_DOT_MR,
                    l == a_row + r,
                    l < a.lines_view(),
                    b_col + INT8_DOT_NR <= b.lines_view() <= usize::MAX,
                    used_rows <= a_zero@.len(),
                    used_cols <= b_zero@.len(),
                    za == a_zero@[r as int],
                    rsum == crate::quant::prefix_sum_u8(a.line(l as int), depth as int),
                    forall|c3: int|
                        0 <= c3 < 4 ==> #[trigger] dots@[c3] == qdot(
                            a.line(l as int),
                            b.line(b_col + c3),
                            0,
                            0,
                            depth as int,
                        ),
                    c <= used_cols,
                    tmp@.len() == 32,
                    forall|r2: int, c2: int|
                        (0 <= r2 < r && 0 <= c2 < used_cols) || (r2 == r && 0 <= c2 < c)
                            ==> #[trigger] tmp@[r2 * 4 + c2] == kernel_value(
                            *a,
                            a_row + r2,
                            *b,
                            b_col + c2,
                            a_zero@[r2],
                            b_zero@[c2],
                        ),
                decreases used_cols - c,
            {
                let csum = b.col_sum(b_col + c);
                let zb = b_zero[c];
                let ghost la = a.line(l as int);
                let ghost lb = b.line(b_col + c);
                proof {
                    a.lemma_line_len(l as int);
                    b.lemma_line_len(b_col + c);
                    lemma_qdot_decompose(la, lb, za as int, zb as int, depth as int);
                    lemma_qdot_bound(la, lb, za as int, zb as int, depth as int);
                    lemma_prefix_sums_bound(la, lb, depth as int);
                    let (d, x, y) = (depth as int, za as int, zb as int);
                    let (sa, sb) = (rsum as int, csum as int);
                    assert(-32640 * 33025 <= y * sa <= 32640 * 33025) by (nonlinear_arith)
                        requires
                            0 <= sa <= 255 * d,
                            -128 <= y <= 127,
                            0 <= d <= 33025,
                    ;
                    assert(-32640 * 33025 <= x * sb <= 32640 * 33025) by (nonlinear_arith)
                        requires
                            -128 * d <= sb <= 127 * d,
                            0 <= x <= 255,
                            0 <= d <= 33025,
                    ;
                    assert(-32640 * 33025 <= d * x * y <= 32640 * 33025) by (nonlinear_arith)
                        requires
                            0 <= x <= 255,
                            -128 <= y <= 127,
                            0 <= d <= 33025,
                    ;
                    assert(0 <= d * x <= 33025 * 255) by (nonlinear_arith)
                        requires
                            0 <= x <= 255,
                            0 <= d <= 33025,
                    ;
                    assert(65025 * d <= 65025 * 33025) by (nonlinear_arith)
                        requires
                            0 <= d <= 33025,
                    ;
                }
                let v: i64 = dots[c] as i64 - zb as i64 * rsum as i64 - za as i64 * csum as i64
                    + depth as i64 * za as i64 * zb as i64;
                tmp.set(r * 4 + c, v as i32);
                c += 1;
            }
            r += 1;
        }
        let add = move |x: i32, y: i32| -> (z: i32)
            requires
                i32::MIN <= beta * x + y <= i32::MAX,
            ensures
                z == beta * x + y,
            {
                proof {
                    let (bb, xx) = (beta as int, x as int);
                    assert(-0x4000_0000_0000_0000 <= bb * xx <= 0x4000_0000_0000_0000)
                        by (nonlinear_arith)
                        requires
                            -0x8000_0000 <= bb < 0x8000_0000,
                            -0x8000_0000 <= xx < 0x8000_0000,
                    ;
                }
                (beta as i64 * x as i64 + y as i64) as i32
            };
        proof {
            assert forall|r2: int, c2: int|
                0 <= r2 < used_rows && 0 <= c2 < used_cols implies #[trigger] (r2 * 4 + c2) < 32
                && tmp@[r2 * 4 + c2] == kernel_value(
                *a,
                a_row + r2,
                *b,
                b_col + c2,
                a_zero@[r2],
                b_zero@[c2],
            ) by {
                assert(r2 * 4 + c2 < 32) by (nonlinear_arith)
                    requires
                        0 <= r2 < 8,
                        0 <= c2 < 4,
                ;
            }
        }
        accumulate_into(
            tmp.as_slice(),
            INT8_DOT_NR,
            tile,
            tile_start,
            tile_row_stride,
            used_rows,
            used_cols,
            beta == 0,
            add,
        );
    }
}

} // verus!

verus! {

/// Column `j` of `b`, over its first `n` rows.
pub open spec fn column<T: Copy>(b: Matrix<T>, j: int, n: int) -> Seq<T> {
    Seq::new(n as nat, |k: int| b.at(k, j))
}

/// Zero point of column `j`: zero when no zero points are given.
pub open spec fn zero_point_at(zero: Option<&[i8]>, j: int) -> int {
    match zero {
        Some(z) => z@[j] as int,
        None => 0,
    }
}

impl ArmInt8DotKernel {
    /// Layout of the packed left operand: panels of `MR` rows with the depth
    /// rounded up to a multiple of four, and one sum per packed row (what
    /// `pack_a_block` returns); packing is always required.
    pub fn packed_a_layout(&self, rows: usize, cols: usize) -> (r: PackedLayout)
        requires
            rows + INT8_DOT_MR <= usize::MAX,
            cols + 3 <= usize::MAX,
            INT8_DOT_MR * round_up4(cols as int) <= usize::MAX,
            packed_size(rows as int, round_up4(cols as int), INT8_DOT_MR as int) <= usize::MAX,
        ensures
            r.size == packed_size(rows as int, round_up4(cols as int), INT8_DOT_MR as int),
            r.panel_stride == INT8_DOT_MR * round_up4(cols as int),
            r.sums == panel_count(rows as int, INT8_DOT_MR as int) * INT8_DOT_MR,
            r.must_pack,
    {
        let d4 = (cols + 3) / 4 * 4;
        let mut layout = packed_a_layout(rows, d4, INT8_DOT_MR);
        layout.must_pack = true;
        layout.sums = (rows + INT8_DOT_MR - 1) / INT8_DOT_MR * INT8_DOT_MR;
        layout
    }

    /// Layout of the packed right operand: panels of `NR` columns with the
    /// depth rounded up to a multiple of four, and one sum per packed column
    /// (what `pack_b_block` returns).
    pub fn packed_b_layout(&self, rows: usize, cols: usize) -> (r: PackedLayout)
        requires
            cols + INT8_DOT_NR <= usize::MAX,
            rows + 3 <= usize::MAX,
            INT8_DOT_NR * round_up4(rows as int) <= usize::MAX,
            packed_size(cols as int, round_up4(rows as int), INT8_DOT_NR as int) <= usize::MAX,
        ensures
            r.size == packed_size(cols as int, round_up4(rows as int), INT8_DOT_NR as int),
            r.panel_stride == INT8_DOT_NR * round_up4(rows as int),
            r.sums == panel_count(cols as int, INT8_DOT_NR as int) * INT8_DOT_NR,
            !r.must_pack,
    {
        let d4 = (rows + 3) / 4 * 4;
        let mut layout = packed_b_layout(d4, cols, INT8_DOT_NR);
        layout.sums = (cols + INT8_DOT_NR - 1) / INT8_DOT_NR * INT8_DOT_NR;
        layout
    }

    /// Pack rows `rows`, columns `cols` of `a` for this kernel.
    pub fn pack_a_block(
        &self,
        a: &Matrix<u8>,
        rows: std::ops::Range<usize>,
        cols: std::ops::Range<usize>,
    ) -> (r: PackedInt8A)
        requires
            a.wf(),
            rows.start <= rows.end <= a.rows_view(),
            cols.start <= cols.end <= a.cols_view(),
            cols.end - cols.start <= MAX_QUANT_DEPTH,
            rows.end + INT8_DOT_MR <= usize::MAX,
            panel_count((rows.end - rows.start) as int, INT8_DOT_MR as int) * INT8_DOT_MR
                * round_up4((cols.end - cols.start) as int) <= usize::MAX,
        ensures
            r.wf(),
            r.lines_view() == panel_count((rows.end - rows.start) as int, INT8_DOT_MR as int)
                * INT8_DOT_MR,
            r.depth_view() == cols.end - cols.start,
            forall|l: int, k: int|
                0 <= l < r.lines_view() && 0 <= k < cols.end - cols.start ==> #[trigger] r.line(
                    l,
                )[k] == (if l < rows.end - rows.start {
                    a.at(rows.start + l, cols.start + k)
                } else {
                    0u8
                }),
    {
        pack_int8_a(a, rows, cols, INT8_DOT_MR)
    }

    /// Pack rows `rows`, columns `cols` of `b` for this kernel.
    pub fn pack_b_block(
        &self,
        b: &Matrix<i8>,
        rows: std::ops::Range<usize>,
        cols: std::ops::Range<usize>,
    ) -> (r: PackedInt8B)
        requires
            b.wf(),
            rows.start <= rows.end <= b.rows_view(),
            cols.start <= cols.end <= b.cols_view(),
            rows.end - rows.start <= MAX_QUANT_DEPTH,
            cols.end + INT8_DOT_NR <= usize::MAX,
            panel_count((cols.end - cols.start) as int, INT8_DOT_NR as int) * INT8_DOT_NR
                * round_up4((rows.end - rows.start) as int) <= usize::MAX,
        ensures
            r.wf(),
            r.lines_view() == panel_count((cols.end - cols.start) as int, INT8_DOT_NR as int)
                * INT8_DOT_NR,
            r.depth_view() == rows.end - rows.start,
            forall|l: int, k: int|
                0 <= l < r.lines_view() && 0 <= k < rows.end - rows.start ==> #[trigger] r.line(
                    l,
                )[k] == (if l < cols.end - cols.start {
                    b.at(rows.start + k, cols.start + l)
                } else {
                    0i8
                }),
    {
        pack_int8_b(b, rows, cols, INT8_DOT_NR)
    }

    /// Matrix-vector product: `out[j]` is the dot product of `a` with column
    /// `j` of `b` after subtracting the zero points `a_zero` and
    /// `b_zero[j]`, plus `beta` times the old `out[j]`; where `beta` is zero
    /// `out[j]` is only written, never read.
    pub fn gemv_kernel(
        &self,
        out: &mut Vec<i32>,
        a: &[u8],
        b: &Matrix<i8>,
        beta: i32,
        a_zero: u8,
        b_zero: Option<&[i8]>,
    )
        requires
            b.wf(),
            a@.len() == b.rows_view(),
            b.rows_view() <= MAX_QUANT_DEPTH,
            old(out)@.len() == b.cols_view(),
            b_zero.is_some() ==> b_zero.unwrap()@.len() == b.cols_view(),
            beta != 0 ==> forall|j: int|
                0 <= j < b.cols_view() ==> i32::MIN <= beta * old(out)@[j] + #[trigger] qdot(
                    a@,
                    column(*b, j, b.rows_view() as int),
                    a_zero as int,
                    zero_point_at(b_zero, j),
                    b.rows_view() as int,
                ) <= i32::MAX,
        ensures
            final(out)@.len() == old(out)@.len(),
            forall|j: int|
                0 <= j < b.cols_view() ==> #[trigger] final(out)@[j] == (if beta == 0 {
                    0
                } else {
                    beta * old(out)@[j]
                }) + qdot(
                    a@,
                    column(*b, j, b.rows_view() as int),
                    a_zero as int,
                    zero_point_at(b_zero, j),
                    b.rows_view() as int,
                ),
    {
        let depth = b.rows();
        let n = b.cols();
        let mut j: usize = 0;
        while j < n
            invariant
                b.wf(),
                a@.len() == b.rows_view() == depth,
                depth <= MAX_QUANT_DEPTH,
                n == b.cols_view(),
                out@.len() == n,
                b_zero.is_some() ==> b_zero.unwrap()@.len() == n,
                j <= n,
                beta != 0 ==> forall|j2: int|
                    j <= j2 < n ==> i32::MIN <= beta * out@[j2] + #[trigger] qdot(
                        a@,
                        column(*b, j2, depth as int),
                        a_zero as int,
                        zero_point_at(b_zero, j2),
                        depth as int,
                    ) <= i32::MAX,
                forall|j2: int| j <= j2 < n ==> #[trigger] out@[j2] == old(out)@[j2],
                forall|j2: int|
                    0 <= j2 < j ==> #[trigger] out@[j2] == (if beta == 0 {
                        0
                    } else {
                        beta * old(out)@[j2]
                    }) + qdot(
                        a@,
                        column(*b, j2, depth as int),
                        a_zero as int,
                        zero_point_at(b_zero, j2),
                        depth as int,
                    ),
            decreases n - j,
        {
            let zb: i8 = match b_zero {
                Some(z) => z[j],
                None => 0,
            };
            let ghost col = column(*b, j as int, depth as int);
            let mut sum: i64 = 0;
            let mut k: usize = 0;
            while k < depth
                invariant
                    b.wf(),
                    a@.len() == b.rows_view() == depth,
                    depth <= MAX_QUANT_DEPTH,
                    j < n == b.cols_view(),
                    col == column(*b, j as int, depth as int),
                    k <= depth,
                    sum == qdot(a@, col, a_zero as int, zb as int, k as int),
                    -65025 * k <= sum <= 65025 * k,
                decreases depth - k,
            {
                let x = a[k] as i64 - a_zero as i64;
                let y = b.get(k, j) as i64 - zb as i64;
                proof {
                    assert(-65025 <= x * y <= 65025) by (nonlinear_arith)
                        requires
                            -255 <= x <= 255,
                            -255 <= y <= 255,
                    ;
                }
                sum = sum + x * y;
                k += 1;
            }
            proof {
                assert(zb as int == zero_point_at(b_zero, j as int));
            }
            proof {
                let (bb, xx) = (beta as int, out@[j as int] as int);
                assert(-0x4000_0000_0000_0000 <= bb * xx <= 0x4000_0000_0000_0000)
                    by (nonlinear_arith)
                    requires
                        -0x8000_0000 <= bb < 0x8000_0000,
                        -0x8000_0000 <= xx < 0x8000_0000,
                ;
            }
            let prev: i64 = if beta == 0 {
                0
            } else {
                beta as i64 * out[j] as i64
            };
            out.set(j, (prev + sum) as i32);
            j += 1;
        }
    }
}

} // verus!

verus! {

/// Float matrix multiplication kernel for Arm Neon. This crate holds its
/// capability probe, blocking factors and packing (the generic panel
/// layout); its floating-point multiply-accumulate is not modelled here.
pub struct ArmNeonKernel {
    _private: (),
}

/// Rows of the tile that the Neon kernel computes.
pub const NEON_MR: usize = 8;

/// Columns of the tile that the Neon kernel computes.
pub const NEON_NR: usize = 8;

impl ArmNeonKernel {
    /// The kernel; Neon is part of the baseline instruction set, so it is
    /// always available.
    pub fn new() -> (r: Option<Self>)
        ensures
            r.is_some(),
    {
        Some(ArmNeonKernel { _private: () })
    }

    pub fn name(&self) -> &'static str {
        "arm-neon"
    }

    pub fn mr(&self) -> (r: usize)
        ensures
            r == NEON_MR,
    {
        NEON_MR
    }

    pub fn nr(&self) -> (r: usize)
        ensures
            r == NEON_NR,
    {
        NEON_NR
    }

    /// Layout of the packed left operand; packing is required where the
    /// columns of `a` are not adjacent in memory.
    pub fn packed_a_layout<T: Copy>(&self, a: &Matrix<T>, rows: usize, cols: usize) -> (r:
        PackedLayout)
        requires
            rows + NEON_MR <= usize::MAX,
            NEON_MR * cols <= usize::MAX,
            packed_size(rows as int, cols as int, NEON_MR as int) <= usize::MAX,
        ensures
            r.size == packed_size(rows as int, cols as int, NEON_MR as int),
            r.panel_stride == NEON_MR * cols,
            r.must_pack == (a.col_stride_view() != 1),
    {
        let mut info = packed_a_layout(rows, cols, NEON_MR);
        info.must_pack = a.col_stride() != 1;
        info
    }

    /// Pack rows `rows`, columns `cols` of `a` into panels of `MR` rows,
    /// padding with `zero`.
    pub fn pack_a_block<T: Copy>(
        &self,
        out: &mut Vec<T>,
        a: &Matrix<T>,
        rows: std::ops::Range<usize>,
        cols: std::ops::Range<usize>,
        zero: T,
    )
        requires
            a.wf(),
            rows.start <= rows.end <= a.rows_view(),
            cols.start <= cols.end <= a.cols_view(),
            rows.end + NEON_MR <= usize::MAX,
            packed_size((rows.end - rows.start) as int, (cols.end - cols.start) as int, NEON_MR as int)
                <= usize::MAX,
        ensures
            final(out)@.len() == packed_size(
                (rows.end - rows.start) as int,
                (cols.end - cols.start) as int,
                NEON_MR as int,
            ),
            forall|i: int, k: int|
                0 <= i < rows.end - rows.start && 0 <= k < cols.end - cols.start ==> final(out)@[
                    #[trigger] packed_index(i, k, (cols.end - cols.start) as int, NEON_MR as int)]
                    == a.at(rows.start + i, cols.start + k),
            forall|i: int, k: int|
                rows.end - rows.start <= i < panel_count(
                    (rows.end - rows.start) as int,
                    NEON_MR as int,
                ) * NEON_MR && 0 <= k < cols.end - cols.start ==> final(out)@[#[trigger] packed_index(
                    i,
                    k,
                    (cols.end - cols.start) as int,
                    NEON_MR as int,
                )] == zero,
    {
        pack_a_block(out, a, rows, cols, NEON_MR, zero);
    }

    /// Layout of the packed right operand.
    pub fn packed_b_layout(&self, rows: usize, cols: usize) -> (r: PackedLayout)
        requires
            cols + NEON_NR <= usize::MAX,
            NEON_NR * rows <= usize::MAX,
            packed_size(cols as int, rows as int, NEON_NR as int) <= usize::MAX,
        ensures
            r.size == packed_size(cols as int, rows as int, NEON_NR as int),
            r.panel_stride == NEON_NR * rows,
            !r.must_pack,
    {
        packed_b_layout(rows, cols, NEON_NR)
    }

    /// Pack rows `rows`, columns `cols` of `b` into panels of `NR` columns,
    /// padding with `zero`.
    pub fn pack_b_block<T: Copy>(
        &self,
        out: &mut Vec<T>,
        b: &Matrix<T>,
        rows: std::ops::Range<usize>,
        cols: std::ops::Range<usize>,
        zero: T,
    )
        requires
            b.wf(),
            rows.start <= rows.end <= b.rows_view(),
            cols.start <= cols.end <= b.cols_view(),
            cols.end + NEON_NR <= usize::MAX,
            packed_size((cols.end - cols.start) as int, (rows.end - rows.start) as int, NEON_NR as int)
                <= usize::MAX,
        ensures
            final(out)@.len() == packed_size(
                (cols.end - cols.start) as int,
                (rows.end - rows.start) as int,
                NEON_NR as int,
            ),
            forall|j: int, k: int|
                0 <= j < cols.end - cols.start && 0 <= k < rows.end - rows.start ==> final(out)@[
                    #[trigger] packed_index(j, k, (rows.end - rows.start) as int, NEON_NR as int)]
                    == b.at(rows.start + k, cols.start + j),
            forall|j: int, k: int|
                cols.end - cols.start <= j < panel_count(
                    (cols.end - cols.start) as int,
                    NEON_NR as int,
                ) * NEON_NR && 0 <= k < rows.end - rows.start ==> final(out)@[#[trigger] packed_index(
                    j,
                    k,
                    (rows.end - rows.start) as int,
                    NEON_NR as int,
                )] == zero,
    {
        pack_b_block(out, b, rows, cols, NEON_NR, zero);
    }
}

} // verus!

verus! {

/// Zero-point corrected dot product of packed row `l` of `a` and packed
/// column `col` of `b`, one term at a time.
fn scalar_value(a: &PackedInt8A, l: usize, b: &PackedInt8B, col: usize, za: u8, zb: i8) -> (r:
    i32)
    requires
        a.wf(),
        b.wf(),
        a.depth_view() == b.depth_view(),
        l < a.lines_view(),
        col < b.lines_view(),
    ensures
        r == kernel_value(*a, l as int, *b, col as int, za, zb),
{
    let depth = a.depth();
    let ghost la = a.line(l as int);
    let ghost lb = b.line(col as int);
    proof {
        a.lemma_line_len(l as int);
        b.lemma_line_len(col as int);
    }
    let mut sum: i64 = 0;
    let mut k: usize = 0;
    while k < depth
        invariant
            a.wf(),
            b.wf(),
            a.depth_view() == b.depth_view() == depth,
            l < a.lines_view(),
            col < b.lines_view(),
            la == a.line(l as int),
            lb == b.line(col as int),
            la.len() == a.stride_view(),
            lb.len() == b.stride_view(),
            depth <= MAX_QUANT_DEPTH,
            k <= depth,
            sum == qdot(la, lb, za as int, zb as int, k as int),
            -65025 * k <= sum <= 65025 * k,
        decreases depth - k,
    {
        let x = a.get(l, k) as i64 - za as i64;
        let y = b.get(col, k) as i64 - zb as i64;
        proof {
            assert(-65025 <= x * y <= 65025) by (nonlinear_arith)
                requires
                    -255 <= x <= 255,
                    -255 <= y <= 255,
            ;
        }
        sum = sum + x * y;
        k += 1;
    }
    proof {
        assert(65025 * depth <= 65025 * 33025) by (nonlinear_arith)
            requires
                depth <= 33025,
        ;
    }
    sum as i32
}

/// Portable 8-bit integer kernel: the packing and tile of
/// `ArmInt8DotKernel`, with scalar arithmetic that every CPU has.
pub struct GenericInt8Kernel {
    _private: (),
}

impl GenericInt8Kernel {
    /// The kernel; it needs no extension, so it is always available.
    pub fn new() -> (r: Option<Self>)
        ensures
            r.is_some(),
    {
        Some(GenericInt8Kernel { _private: () })
    }

    pub fn name(&self) -> &'static str {
        "generic-int8"
    }

    /// Same contract as `ArmInt8DotKernel::kernel`.
    pub fn kernel(
        &self,
        tile: &mut Vec<i32>,
        tile_start: usize,
        tile_row_stride: usize,
        a: &PackedInt8A,
        a_row: usize,
        b: &PackedInt8B,
        b_col: usize,
        used_rows: usize,
        used_cols: usize,
        beta: i32,
        a_zero: &[u8],
        b_zero: &[i8],
    )
        requires
            a.wf(),
            b.wf(),
            a.depth_view() == b.depth_view(),
            1 <= used_rows <= INT8_DOT_MR,
            1 <= used_cols <= INT8_DOT_NR,
            a_row + used_rows <= a.lines_view(),
            b_col + INT8_DOT_NR <= b.lines_view(),
            used_rows <= a_zero@.len(),
            used_cols <= b_zero@.len(),
            used_cols <= tile_row_stride,
            tile_start + (used_rows - 1) * tile_row_stride + used_cols <= old(tile)@.len(),
            beta != 0 ==> forall|r: int, c: int|
                0 <= r < used_rows && 0 <= c < used_cols ==> i32::MIN <= beta * old(tile)@[tile_start + r
                    * tile_row_stride + c] + #[trigger] kernel_value(
                    *a,
                    a_row + r,
                    *b,
                    b_col + c,
                    a_zero@[r],
                    b_zero@[c],
                ) <= i32::MAX,
        ensures
            final(tile)@.len() == old(tile)@.len(),
            forall|r: int, c: int|
                0 <= r < used_rows && 0 <= c < used_cols ==> #[trigger] final(tile)@[tile_start + r
                    * tile_row_stride + c] == (if beta == 0 {
                    0
                } else {
                    beta * old(tile)@[tile_start + r * tile_row_stride + c]
                }) + kernel_value(*a, a_row + r, *b, b_col + c, a_zero@[r], b_zero@[c]),
            forall|j: int|
                0 <= j < old(tile)@.len() && !in_tile(
                    j,
                    tile_start as int,
                    tile_row_stride as int,
                    used_rows as int,
                    used_cols as int,
                ) ==> #[trigger] final(tile)@[j] == old(tile)@[j],
    {
        let _ = a.lines();
        let _ = b.lines();
        let mut tmp: Vec<i32> = vec![0; 32];
        let mut r: usize = 0;
        while r < used_rows
            invariant
                a.wf(),
                b.wf(),
                a.depth_view() == b.depth_view(),
                1 <= used_rows <= INT8_DOT_MR,
                1 <= used_cols <= INT8_DOT_NR,
                a_row + used_rows <= a.lines_view() <= usize::MAX,
                b_col + INT8_DOT_NR <= b.lines_view() <= usize::MAX,
                used_rows <= a_zero@.len(),
                used_cols <= b_zero@.len(),
                r <= used_rows,
                tmp@.len() == 32,
                forall|r2: int, c2: int|
                    0 <= r2 < r && 0 <= c2 < used_cols ==> #[trigger] tmp@[r2 * 4 + c2]
                        == kernel_value(*a, a_row + r2, *b, b_col + c2, a_zero@[r2], b_zero@[c2]),
            decreases used_rows - r,
        {
            let mut c: usize = 0;
            while c < used_cols
                invariant
                    a.wf(),
                    b.wf(),
                    a.depth_view() == b.depth_view(),
                    1 <= used_cols <= INT8_DOT_NR,
                    r < used_rows <= INT8_DOT_MR,
                    a_row + used_rows <= a.lines_view() <= usize::MAX,
                    b_col + INT8_DOT_NR <= b.lines_view() <= usize::MAX,
                    used_rows <= a_zero@.len(),
                    used_cols <= b_zero@.len(),
                    c <= used_cols,
                    tmp@.len() == 32,
                    forall|r2: int, c2: int|
                        (0 <= r2 < r && 0 <= c2 < used_cols) || (r2 == r && 0 <= c2 < c)
                            ==> #[trigger] tmp@[r2 * 4 + c2] == kernel_value(
                            *a,
                            a_row + r2,
                            *b,
                            b_col + c2,
                            a_zero@[r2],
                            b_zero@[c2],
                        ),
                decreases used_cols - c,
            {
                let v = scalar_value(a, a_row + r, b, b_col + c, a_zero[r], b_zero[c]);
                tmp.set(r * 4 + c, v);
                c += 1;
            }
            r += 1;
        }
        let add = move |x: i32, y: i32| -> (z: i32)
            requires
                i32::MIN <= beta * x + y <= i32::MAX,
            ensures
                z == beta * x + y,
            {
                proof {
                    let (bb, xx) = (beta as int, x as int);
                    assert(-0x4000_0000_0000_0000 <= bb * xx <= 0x4000_0000_0000_0000)
                        by (nonlinear_arith)
                        requires
                            -0x8000_0000 <= bb < 0x8000_0000,
                            -0x8000_0000 <= xx < 0x8000_0000,
                    ;
                }
                (beta as i64 * x as i64 + y as i64) as i32
            };
        proof {
            assert forall|r2: int, c2: int|
                0 <= r2 < used_rows && 0 <= c2 < used_cols implies #[trigger] (r2 * 4 + c2) < 32
                && tmp@[r2 * 4 + c2] == kernel_value(
                *a,
                a_row + r2,
                *b,
                b_col + c2,
                a_zero@[r2],
                b_zero@[c2],
            ) by {
                assert(r2 * 4 + c2 < 32) by (nonlinear_arith)
                    requires
                        0 <= r2 < 8,
                        0 <= c2 < 4,
                ;
            }
        }
        accumulate_into(
            tmp.as_slice(),
            INT8_DOT_NR,
            tile,
            tile_start,
            tile_row_stride,
            used_rows,
            used_cols,
            beta == 0,
            add,
        );
    }
}

/// The kernel chosen for 8-bit operands.
pub enum Int8Kernel {
    ArmDot(ArmInt8DotKernel),
    Generic(GenericInt8Kernel),
}

/// Pick the most specialised 8-bit kernel that the CPU supports: the dot
/// product kernel where its extension is present, else the portable one.
pub fn select_int8_kernel(features: &CpuFeatures) -> (r: Int8Kernel)
    ensures
        features.i8mm <==> r is ArmDot,
        !features.i8mm <==> r is Generic,
{
    match ArmInt8DotKernel::new(features) {
        Some(k) => Int8Kernel::ArmDot(k),
        None => Int8Kernel::Generic(GenericInt8Kernel::new().unwrap()),
    }
}

/// Probing twice on the same features gives the same answer.
pub proof fn lemma_probe_consistent(
    features: CpuFeatures,
    first: Option<ArmInt8DotKernel>,
    second: Option<ArmInt8DotKernel>,
)
    requires
        first.is_some() == features.i8mm,
        second.is_some() == features.i8mm,
    ensures
        first.is_some() == second.is_some(),
{
}

impl Int8Kernel {
    pub fn name(&self) -> &'static str {
        match self {
            Int8Kernel::ArmDot(k) => k.name(),
            Int8Kernel::Generic(k) => k.name(),
        }
    }
}

} // verus!

verus! {

/// Row `i` of `a` from column `c0`, over `n` columns.
pub open spec fn row_from(a: Matrix<u8>, i: int, c0: int, n: int) -> Seq<u8> {
    Seq::new(n as nat, |k: int| a.at(i, c0 + k))
}

/// Column `j` of `b` from row `r0`, over `n` rows.
pub open spec fn column_from(b: Matrix<i8>, j: int, r0: int, n: int) -> Seq<i8> {
    Seq::new(n as nat, |k: int| b.at(r0 + k, j))
}

/// Reference value of entry `(i, j)` of `(A - za) (B - zb)` over `depth`:
/// zero points are subtracted before each multiply.
pub open spec fn reference_entry(
    a: Matrix<u8>,
    b: Matrix<i8>,
    i: int,
    j: int,
    depth: int,
    za: int,
    zb: int,
) -> int {
    qdot(row_from(a, i, 0, depth), column_from(b, j, 0, depth), za, zb, depth)
}

/// A corrected dot product depends only on the first `n` elements.
pub proof fn lemma_qdot_ext(a1: Seq<u8>, b1: Seq<i8>, a2: Seq<u8>, b2: Seq<i8>, za: int, zb: int, n: int)
    requires
        0 <= n,
        n <= a1.len() && n <= a2.len() && n <= b1.len() && n <= b2.len(),
        forall|k: int| 0 <= k < n ==> a1[k] == a2[k] && b1[k] == b2[k],
    ensures
        qdot(a1, b1, za, zb, n) == qdot(a2, b2, za, zb, n),
    decreases n,
{
    if n > 0 {
        lemma_qdot_ext(a1, b1, a2, b2, za, zb, n - 1);
    }
}

/// What the quantized kernels compute for row `i` of a packed block of `a`
/// and column `j` of a packed block of `b` is the reference product of that
/// row and column with the zero points subtracted before each multiply.
pub proof fn lemma_packed_value_is_reference(
    a: Matrix<u8>,
    b: Matrix<i8>,
    pa: PackedInt8A,
    pb: PackedInt8B,
    m: int,
    n: int,
    depth: int,
    i: int,
    j: int,
    za: u8,
    zb: i8,
)
    requires
        pa.wf(),
        pb.wf(),
        pa.depth_view() == depth,
        pb.depth_view() == depth,
        m <= pa.lines_view(),
        n <= pb.lines_view(),
        forall|l: int, k: int| 0 <= l < m && 0 <= k < depth ==> #[trigger] pa.line(l)[k] == a.at(l, k),
        forall|l: int, k: int| 0 <= l < n && 0 <= k < depth ==> #[trigger] pb.line(l)[k] == b.at(k, l),
        0 <= i < m,
        0 <= j < n,
    ensures
        kernel_value(pa, i, pb, j, za, zb) == reference_entry(a, b, i, j, depth, za as int, zb as int),
{
    pa.lemma_line_len(i);
    pb.lemma_line_len(j);
    assert(depth <= pa.stride_view()) by {
        assert(depth <= round_up4(depth)) by (nonlinear_arith)
            requires
                depth >= 0,
        ;
    }
    assert(depth <= pb.stride_view()) by {
        assert(depth <= round_up4(depth)) by (nonlinear_arith)
            requires
                depth >= 0,
        ;
    }
    lemma_qdot_ext(
        pa.line(i),
        pb.line(j),
        row_from(a, i, 0, depth),
        column_from(b, j, 0, depth),
        za as int,
        zb as int,
        depth,
    );
}

/// Zero-padding both operands up to whole tiles and discarding the padded
/// part of the product gives the product of the unpadded operands.
pub proof fn lemma_zero_padding_invisible(
    a: Matrix<u8>,
    b: Matrix<i8>,
    a_pad: Matrix<u8>,
    b_pad: Matrix<i8>,
    m: int,
    n: int,
    depth: int,
    za: int,
    zb: int,
)
    requires
        0 <= depth,
        forall|i: int, k: int| 0 <= i < m && 0 <= k < depth ==> #[trigger] a_pad.at(i, k) == a.at(i, k),
        forall|j: int, k: int| 0 <= j < n && 0 <= k < depth ==> #[trigger] b_pad.at(k, j) == b.at(k, j),
    ensures
        forall|i: int, j: int|
            0 <= i < m && 0 <= j < n ==> #[trigger] reference_entry(a_pad, b_pad, i, j, depth, za, zb)
                == reference_entry(a, b, i, j, depth, za, zb),
{
    assert forall|i: int, j: int| 0 <= i < m && 0 <= j < n implies #[trigger] reference_entry(
        a_pad,
        b_pad,
        i,
        j,
        depth,
        za,
        zb,
    ) == reference_entry(a, b, i, j, depth, za, zb) by {
        lemma_qdot_ext(
            row_from(a_pad, i, 0, depth),
            column_from(b_pad, j, 0, depth),
            row_from(a, i, 0, depth),
            column_from(b, j, 0, depth),
            za,
            zb,
            depth,
        );
    }
}

} // verus!

verus! {

impl ArmNeonKernel {
    /// Pack rows `rows` and columns `cols` of the implicit matrix of
    /// `image` into panels of `NR` columns, as `pack_b_block` does for a
    /// matrix in memory. Samples that fall in the padding, and columns past
    /// the block, hold the view's zero.
    pub fn pack_im2col<T: Copy>(
        &self,
        out: &mut Vec<T>,
        image: &Im2Col<T>,
        rows: std::ops::Range<usize>,
        cols: std::ops::Range<usize>,
    )
        requires
            image.wf(),
            rows.start <= rows.end <= image.src_rows(),
            cols.start <= cols.end <= image.src_cols(),
            cols.end + NEON_NR <= usize::MAX,
            packed_size((cols.end - cols.start) as int, (rows.end - rows.start) as int, NEON_NR as int)
                <= usize::MAX,
        ensures
            final(out)@.len() == packed_size(
                (cols.end - cols.start) as int,
                (rows.end - rows.start) as int,
                NEON_NR as int,
            ),
            forall|j: int, k: int|
                0 <= j < cols.end - cols.start && 0 <= k < rows.end - rows.start ==> final(out)@[
                    #[trigger] packed_index(j, k, (rows.end - rows.start) as int, NEON_NR as int)]
                    == image.sample(rows.start + k, cols.start + j),
            forall|j: int, k: int|
                cols.end - cols.start <= j < panel_count(
                    (cols.end - cols.start) as int,
                    NEON_NR as int,
                ) * NEON_NR && 0 <= k < rows.end - rows.start ==> final(out)@[#[trigger] packed_index(
                    j,
                    k,
                    (rows.end - rows.start) as int,
                    NEON_NR as int,
                )] == image.zero_view(),
    {
        let ghost n = (cols.end - cols.start) as int;
        let ghost d = (rows.end - rows.start) as int;
        let ghost r0 = rows.start as int;
        let ghost c0 = cols.start as int;
        let zero = image.zero();
        pack_panels(out, image, true, cols, rows, NEON_NR, zero);
        let nr = NEON_NR;
        assert forall|j: int, k: int|
            0 <= j < panel_count(n, nr as int) * nr && 0 <= k < d implies final(out)@[#[trigger] packed_index(
            j,
            k,
            d,
            nr as int,
        )] == (if j < n { image.sample(r0 + k, c0 + j) } else { zero }) by {
            lemma_packed_index(j, k, n, d, nr as int);
        }
        assert forall|j: int, k: int| 0 <= j < n && 0 <= k < d implies final(out)@[
            #[trigger] packed_index(j, k, d, nr as int)] == image.sample(r0 + k, c0 + j) by {
            assert(j < panel_count(n, nr as int) * nr) by (nonlinear_arith)
                requires
                    0 <= j < n,
                    nr > 0,
            ;
            lemma_packed_index(j, k, n, d, nr as int);
        }
    }
}

} // verus!
