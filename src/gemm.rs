//! Blocked 8-bit matrix multiplication: pack both operands once, then run
//! the chosen micro-kernel over every output tile.
use vstd::prelude::*;
use vstd::arithmetic::div_mod::lemma_fundamental_div_mod_converse;

use crate::kernels::{
    kernel_value, lemma_packed_value_is_reference, reference_entry, Int8Kernel, INT8_DOT_MR,
    INT8_DOT_NR,
};
use crate::packing::{panel_count, Matrix};
use crate::quant::{pack_int8_a, pack_int8_b, round_up4, PackedInt8A, PackedInt8B, MAX_QUANT_DEPTH};
use crate::tile::{in_tile, tile_col, tile_row};

verus! {

/// Entry `(i, j)` of a row-major matrix with `n` columns.
pub open spec fn cell(c: Seq<i32>, n: int, i: int, j: int) -> i32 {
    c[i * n + j]
}

/// A position in a tile lies at the tile's start plus its row and column.
proof fn lemma_in_tile_position(p: int, start: int, rs: int, rows: int, cols: int)
    requires
        rs > 0,
        in_tile(p, start, rs, rows, cols),
    ensures
        p == start + tile_row(p, start, rs) * rs + tile_col(p, start, rs),
        0 <= tile_row(p, start, rs),
        0 <= tile_col(p, start, rs),
{
    let x = p - start;
    assert(x == (x / rs) * rs + x % rs && 0 <= x % rs && 0 <= x / rs) by (nonlinear_arith)
        requires
            rs > 0,
            x >= 0,
    ;
}

/// Row-major positions with the column below `n` are unique.
proof fn lemma_cell_unique(i1: int, j1: int, i2: int, j2: int, n: int)
    requires
        0 <= j1 < n,
        0 <= j2 < n,
        0 <= i1,
        0 <= i2,
        i1 * n + j1 == i2 * n + j2,
    ensures
        i1 == i2,
        j1 == j2,
{
    lemma_fundamental_div_mod_converse(i1 * n + j1, n, i1, j1);
    lemma_fundamental_div_mod_converse(i2 * n + j2, n, i2, j2);
}

/// `C = (A - za) (B - zb)` for a `u8` matrix `a` (`m x k`) and an `i8`
/// matrix `b` (`k x n`), with one zero point per row of `a` and per column
/// of `b`. The result is row-major, `m x n`.
pub fn gemm_int8(
    kernel: &Int8Kernel,
    a: &Matrix<u8>,
    b: &Matrix<i8>,
    a_zero: &[u8],
    b_zero: &[i8],
) -> (c: Vec<i32>)
    requires
        a.wf(),
        b.wf(),
        a.cols_view() == b.rows_view(),
        a.cols_view() <= MAX_QUANT_DEPTH,
        a_zero@.len() == a.rows_view(),
        b_zero@.len() == b.cols_view(),
        a.rows_view() * b.cols_view() <= usize::MAX,
        a.rows_view() + INT8_DOT_MR <= usize::MAX,
        b.cols_view() + INT8_DOT_NR <= usize::MAX,
        panel_count(a.rows_view() as int, INT8_DOT_MR as int) * INT8_DOT_MR * round_up4(
            a.cols_view() as int,
        ) <= usize::MAX,
        panel_count(b.cols_view() as int, INT8_DOT_NR as int) * INT8_DOT_NR * round_up4(
            b.rows_view() as int,
        ) <= usize::MAX,
    ensures
        c@.len() == a.rows_view() * b.cols_view(),
        forall|i: int, j: int|
            0 <= i < a.rows_view() && 0 <= j < b.cols_view() ==> #[trigger] cell(
                c@,
                b.cols_view() as int,
                i,
                j,
            ) == reference_entry(
                *a,
                *b,
                i,
                j,
                a.cols_view() as int,
                a_zero@[i] as int,
                b_zero@[j] as int,
            ),
{
    let m = a.rows();
    let k = a.cols();
    let n = b.cols();
    let pa = pack_int8_a(a, 0..m, 0..k, INT8_DOT_MR);
    let pb = pack_int8_b(b, 0..k, 0..n, INT8_DOT_NR);
    let ghost depth = k as int;
    proof {
        assert forall|l: int, d: int| 0 <= l < m && 0 <= d < depth implies #[trigger] pa.line(l)[d]
            == a.at(l, d) by {}
        assert forall|l: int, d: int| 0 <= l < n && 0 <= d < depth implies #[trigger] pb.line(l)[d]
            == b.at(d, l) by {}
        assert(m <= panel_count(m as int, 8) * 8) by (nonlinear_arith);
        assert(n <= panel_count(n as int, 4) * 4) by (nonlinear_arith);
    }
    let mut c: Vec<i32> = vec![0; m * n];
    let mut row: usize = 0;
    while row < m
        invariant
            pa.wf(),
            pb.wf(),
            pa.depth_view() == depth == k,
            pb.depth_view() == depth,
            m == a.rows_view(),
            n == b.cols_view(),
            k == a.cols_view(),
            a_zero@.len() == m,
            b_zero@.len() == n,
            m <= pa.lines_view(),
            pa.lines_view() == panel_count(m as int, 8) * 8,
            pb.lines_view() == panel_count(n as int, 4) * 4,
            n <= pb.lines_view(),
            m + 8 <= usize::MAX,
            n + 4 <= usize::MAX,
            m * n <= usize::MAX,
            forall|l: int, d: int| 0 <= l < m && 0 <= d < depth ==> #[trigger] pa.line(l)[d] == a.at(l, d),
            forall|l: int, d: int| 0 <= l < n && 0 <= d < depth ==> #[trigger] pb.line(l)[d] == b.at(d, l),
            row % 8 == 0,
            row <= pa.lines_view(),
            c@.len() == m * n,
            forall|i: int, j: int|
                0 <= i < row && i < m && 0 <= j < n ==> #[trigger] cell(c@, n as int, i, j)
                    == reference_entry(*a, *b, i, j, depth, a_zero@[i] as int, b_zero@[j] as int),
        decreases pa.lines_view() - row,
    {
        let used_rows = if m - row < INT8_DOT_MR {
            m - row
        } else {
            INT8_DOT_MR
        };
        let mut za: Vec<u8> = Vec::new();
        let mut r: usize = 0;
        while r < used_rows
            invariant
                row + used_rows <= m,
                a_zero@.len() == m,
                r <= used_rows,
                za@ == a_zero@.subrange(row as int, row + r),
            decreases used_rows - r,
        {
            za.push(a_zero[row + r]);
            r += 1;
        }
        proof {
            assert(row + 8 <= pa.lines_view()) by (nonlinear_arith)
                requires
                    row % 8 == 0,
                    row < m,
                    m <= pa.lines_view(),
                    pa.lines_view() % 8 == 0,
            ;
        }
        let mut col: usize = 0;
        while col < n
            invariant
                pa.wf(),
                pb.wf(),
                pa.depth_view() == depth == k,
                pb.depth_view() == depth,
                m == a.rows_view(),
                n == b.cols_view(),
                a_zero@.len() == m,
                b_zero@.len() == n,
                m <= pa.lines_view(),
                n <= pb.lines_view(),
                pb.lines_view() == panel_count(n as int, 4) * 4,
                n + 4 <= usize::MAX,
                m * n <= usize::MAX,
                forall|l: int, d: int| 0 <= l < m && 0 <= d < depth ==> #[trigger] pa.line(l)[d] == a.at(l, d),
                forall|l: int, d: int| 0 <= l < n && 0 <= d < depth ==> #[trigger] pb.line(l)[d] == b.at(d, l),
                row < m,
                1 <= used_rows <= 8,
                row + used_rows <= m,
                row + used_rows <= pa.lines_view(),
                used_rows == 8 || row + used_rows == m,
                za@ == a_zero@.subrange(row as int, row + used_rows),
                col % 4 == 0,
                col <= pb.lines_view(),
                c@.len() == m * n,
                forall|i: int, j: int|
                    0 <= i < row && i < m && 0 <= j < n ==> #[trigger] cell(c@, n as int, i, j)
                        == reference_entry(*a, *b, i, j, depth, a_zero@[i] as int, b_zero@[j] as int),
                forall|i: int, j: int|
                    row <= i < row + used_rows && 0 <= j < col && j < n ==> #[trigger] cell(
                        c@,
                        n as int,
                        i,
                        j,
                    ) == reference_entry(*a, *b, i, j, depth, a_zero@[i] as int, b_zero@[j] as int),
            decreases pb.lines_view() - col,
        {
            let used_cols = if n - col < INT8_DOT_NR {
                n - col
            } else {
                INT8_DOT_NR
            };
            let mut zb: Vec<i8> = Vec::new();
            let mut t: usize = 0;
            while t < used_cols
                invariant
                    col + used_cols <= n,
                    b_zero@.len() == n,
                    t <= used_cols,
                    zb@ == b_zero@.subrange(col as int, col + t),
                decreases used_cols - t,
            {
                zb.push(b_zero[col + t]);
                t += 1;
            }
            proof {
                assert(col + 4 <= pb.lines_view()) by (nonlinear_arith)
                    requires
                        col % 4 == 0,
                        col < n,
                        n <= pb.lines_view(),
                        pb.lines_view() % 4 == 0,
                ;
                assert(row * n + col + (used_rows - 1) * n + used_cols <= m * n) by (nonlinear_arith)
                    requires
                        row + used_rows <= m,
                        col + used_cols <= n,
                        used_rows >= 1,
                ;
            }
            let start = row * n + col;
            let ghost before = c@;
            match kernel {
                Int8Kernel::ArmDot(kr) => kr.kernel(
                    &mut c,
                    start,
                    n,
                    &pa,
                    row,
                    &pb,
                    col,
                    used_rows,
                    used_cols,
                    0,
                    za.as_slice(),
                    zb.as_slice(),
                ),
                Int8Kernel::Generic(kr) => kr.kernel(
                    &mut c,
                    start,
                    n,
                    &pa,
                    row,
                    &pb,
                    col,
                    used_rows,
                    used_cols,
                    0,
                    za.as_slice(),
                    zb.as_slice(),
                ),
            }
            proof {
                // Cells of earlier tiles are outside this tile.
                assert forall|i: int, j: int|
                    (0 <= i < row && i < m && 0 <= j < n) || (row <= i < row + used_rows && 0 <= j
                        < col && j < n) implies #[trigger] cell(c@, n as int, i, j) == cell(
                    before,
                    n as int,
                    i,
                    j,
                ) by {
                    let p = i * n + j;
                    assert(i < m);
                    assert(i * n <= (m - 1) * n) by (nonlinear_arith)
                        requires
                            0 <= i < m,
                            n >= 0,
                    ;
                    assert(0 <= i * n) by (nonlinear_arith)
                        requires
                            0 <= i,
                            n >= 0,
                    ;
                    assert((m - 1) * n + n == m * n) by (nonlinear_arith);
                    if in_tile(p, start as int, n as int, used_rows as int, used_cols as int) {
                        lemma_in_tile_position(p, start as int, n as int, used_rows as int, used_cols as int);
                        let tr = tile_row(p, start as int, n as int);
                        let tc = tile_col(p, start as int, n as int);
                        assert(p == (row + tr) * n + (col + tc)) by (nonlinear_arith)
                            requires
                                p == start + tr * n + tc,
                                start == row * n + col,
                        ;
                        lemma_cell_unique(i, j, row + tr, col + tc, n as int);
                    }
                }
                // Cells of this tile hold the reference values.
                assert forall|i: int, j: int|
                    row <= i < row + used_rows && col <= j < col + used_cols implies #[trigger] cell(
                    c@,
                    n as int,
                    i,
                    j,
                ) == reference_entry(*a, *b, i, j, depth, a_zero@[i] as int, b_zero@[j] as int) by {
                    let r2 = i - row;
                    let c2 = j - col;
                    assert(start + r2 * n + c2 == i * n + j) by (nonlinear_arith)
                        requires
                            start == row * n + col,
                            r2 == i - row,
                            c2 == j - col,
                    ;
                    assert(za@[r2] == a_zero@[i]);
                    assert(zb@[c2] == b_zero@[j]);
                    lemma_packed_value_is_reference(
                        *a,
                        *b,
                        pa,
                        pb,
                        m as int,
                        n as int,
                        depth,
                        i,
                        j,
                        a_zero@[i],
                        b_zero@[j],
                    );
                }
            }
            col = col + INT8_DOT_NR;
        }
        row = row + INT8_DOT_MR;
    }
    c
}

} // verus!
