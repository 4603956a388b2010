//! Matrices with arbitrary strides, and the packing of their blocks into the
//! panel layouts that the micro-kernels read.
use vstd::prelude::*;
use vstd::arithmetic::div_mod::lemma_fundamental_div_mod_converse;

verus! {

/// Something that can be read as a matrix, element by element: a matrix in
/// memory, or a view that computes where each element comes from.
pub trait PanelSource<T> {
    spec fn src_wf(&self) -> bool;

    spec fn src_rows(&self) -> nat;

    spec fn src_cols(&self) -> nat;

    spec fn src_at(&self, i: int, j: int) -> T;

    /// Element at row `i`, column `j`.
    fn get_at(&self, i: usize, j: usize) -> (r: T)
        requires
            self.src_wf(),
            i < self.src_rows(),
            j < self.src_cols(),
        ensures
            r == self.src_at(i as int, j as int),
    ;
}

/// A matrix read through a row stride and a column stride.
pub struct Matrix<T> {
    data: Vec<T>,
    rows: usize,
    cols: usize,
    row_stride: usize,
    col_stride: usize,
}

impl<T: Copy> Matrix<T> {
    pub closed spec fn data_view(&self) -> Seq<T> {
        self.data@
    }

    pub closed spec fn rows_view(&self) -> nat {
        self.rows as nat
    }

    pub closed spec fn cols_view(&self) -> nat {
        self.cols as nat
    }

    pub closed spec fn row_stride_view(&self) -> nat {
        self.row_stride as nat
    }

    pub closed spec fn col_stride_view(&self) -> nat {
        self.col_stride as nat
    }

    /// Every element lies within the buffer.
    pub open spec fn wf(&self) -> bool {
        self.rows_view() == 0 || self.cols_view() == 0 || (self.rows_view() - 1)
            * self.row_stride_view() + (self.cols_view() - 1) * self.col_stride_view()
            < self.data_view().len()
    }

    /// Element at row `i`, column `j`.
    pub open spec fn at(&self, i: int, j: int) -> T {
        self.data_view()[i * self.row_stride_view() + j * self.col_stride_view()]
    }

    /// A matrix over `data` with the given extents and strides.
    pub fn new(data: Vec<T>, rows: usize, cols: usize, row_stride: usize, col_stride: usize) -> (r:
        Self)
        requires
            rows == 0 || cols == 0 || (rows - 1) * row_stride + (cols - 1) * col_stride
                < data@.len(),
        ensures
            r.wf(),
            r.data_view() == data@,
            r.rows_view() == rows,
            r.cols_view() == cols,
            r.row_stride_view() == row_stride,
            r.col_stride_view() == col_stride,
    {
        Matrix { data, rows, cols, row_stride, col_stride }
    }

    /// A row-major matrix with `rows * cols` elements.
    pub fn from_rows(data: Vec<T>, rows: usize, cols: usize) -> (r: Self)
        requires
            rows * cols == data@.len(),
        ensures
            r.wf(),
            r.data_view() == data@,
            r.rows_view() == rows,
            r.cols_view() == cols,
            r.row_stride_view() == cols,
            r.col_stride_view() == 1,
    {
        proof {
            if rows > 0 && cols > 0 {
                assert((rows - 1) * cols + (cols - 1) * 1 < rows * cols) by (nonlinear_arith)
                    requires
                        rows > 0,
                        cols > 0,
                ;
            }
        }
        Matrix { data, rows, cols, row_stride: cols, col_stride: 1 }
    }

    pub fn rows(&self) -> (r: usize)
        ensures
            r == self.rows_view(),
    {
        self.rows
    }

    pub fn cols(&self) -> (r: usize)
        ensures
            r == self.cols_view(),
    {
        self.cols
    }

    pub fn row_stride(&self) -> (r: usize)
        ensures
            r == self.row_stride_view(),
    {
        self.row_stride
    }

    pub fn col_stride(&self) -> (r: usize)
        ensures
            r == self.col_stride_view(),
    {
        self.col_stride
    }

    /// Element at row `i`, column `j`.
    pub fn get(&self, i: usize, j: usize) -> (r: T)
        requires
            self.wf(),
            i < self.rows_view(),
            j < self.cols_view(),
        ensures
            r == self.at(i as int, j as int),
    {
        proof {
            let rs = self.row_stride as int;
            let cs = self.col_stride as int;
            let m = self.rows as int;
            let n = self.cols as int;
            assert(0 <= i * rs <= (m - 1) * rs) by (nonlinear_arith)
                requires
                    0 <= i < m,
                    rs >= 0,
            ;
            assert(0 <= j * cs <= (n - 1) * cs) by (nonlinear_arith)
                requires
                    0 <= j < n,
                    cs >= 0,
            ;
        }
        let _ = self.data.len();
        self.data[i * self.row_stride + j * self.col_stride]
    }
}

impl<T: Copy> PanelSource<T> for Matrix<T> {
    open spec fn src_wf(&self) -> bool {
        self.wf()
    }

    open spec fn src_rows(&self) -> nat {
        self.rows_view()
    }

    open spec fn src_cols(&self) -> nat {
        self.cols_view()
    }

    open spec fn src_at(&self, i: int, j: int) -> T {
        self.at(i, j)
    }

    fn get_at(&self, i: usize, j: usize) -> (r: T) {
        self.get(i, j)
    }
}

/// Size and shape of a packing buffer.
pub struct PackedLayout {
    /// Number of elements of the panels.
    pub size: usize,
    /// Number of `i32` sums (one per packed row or column) kept beside the
    /// panels; zero for layouts that keep none.
    pub sums: usize,
    /// Distance between the starts of consecutive panels.
    pub panel_stride: usize,
    /// Whether the operand must be packed even where the kernel could read it
    /// in place.
    pub must_pack: bool,
}

/// Number of panels of `width` that cover `n` rows or columns.
pub open spec fn panel_count(n: int, width: int) -> int {
    (n + width - 1) / width
}

/// Elements of a buffer holding `n` rows (or columns) of depth `depth` in
/// panels of `width`.
pub open spec fn packed_size(n: int, depth: int, width: int) -> int {
    panel_count(n, width) * width * depth
}

/// Position, in a packed buffer with panels `width` wide, of element `k` (in
/// depth) of row or column `i`: panels follow each other, and inside a panel
/// the `width` values of one depth step are adjacent.
pub open spec fn packed_index(i: int, k: int, depth: int, width: int) -> int {
    (i / width) * (width * depth) + k * width + i % width
}

/// Row or column of the block that position `j` of a packed buffer holds.
pub open spec fn packed_line(j: int, depth: int, width: int) -> int {
    (j / (width * depth)) * width + j % width
}

/// Depth step that position `j` of a packed buffer holds.
pub open spec fn packed_step(j: int, depth: int, width: int) -> int {
    (j % (width * depth)) / width
}

proof fn lemma_packed_position(p: int, k: int, r: int, depth: int, width: int)
    requires
        0 <= p,
        0 <= k < depth,
        0 <= r < width,
    ensures
        packed_line(p * (width * depth) + k * width + r, depth, width) == p * width + r,
        packed_step(p * (width * depth) + k * width + r, depth, width) == k,
        packed_index(p * width + r, k, depth, width) == p * (width * depth) + k * width + r,
{
    let j = p * (width * depth) + k * width + r;
    assert(0 <= k * width + r < width * depth) by (nonlinear_arith)
        requires
            0 <= k < depth,
            0 <= r < width,
    ;
    lemma_fundamental_div_mod_converse(j, width * depth, p, k * width + r);
    assert(j == (p * depth + k) * width + r) by (nonlinear_arith)
        requires
            j == p * (width * depth) + k * width + r,
    ;
    lemma_fundamental_div_mod_converse(j, width, p * depth + k, r);
    lemma_fundamental_div_mod_converse(k * width + r, width, k, r);
    lemma_fundamental_div_mod_converse(p * width + r, width, p, r);
}

/// Layout of a buffer for `rows x cols` of the left operand in panels of
/// `mr` rows.
pub fn packed_a_layout(rows: usize, cols: usize, mr: usize) -> (r: PackedLayout)
    requires
        mr > 0,
        rows + mr <= usize::MAX,
        mr * cols <= usize::MAX,
        packed_size(rows as int, cols as int, mr as int) <= usize::MAX,
    ensures
        r.size == packed_size(rows as int, cols as int, mr as int),
        r.panel_stride == mr * cols,
        r.sums == 0,
        !r.must_pack,
{
    let panels = (rows + mr - 1) / mr;
    let panel_stride = mr * cols;
    proof {
        assert(panels * panel_stride == panels * mr * cols) by (nonlinear_arith)
            requires
                panel_stride == mr * cols,
        ;
    }
    let size = panels * panel_stride;
    PackedLayout { size, sums: 0, panel_stride, must_pack: false }
}

} // verus!

verus! {

/// Value that position `j` of a packed buffer holds: element `k` in depth of
/// line `i` of the block, or `zero` in a padding line. Lines are rows of `m`
/// (starting at `l0`, depth along columns from `s0`), or columns where
/// `by_cols` holds.
pub open spec fn packed_value<T, M: PanelSource<T>>(
    m: M,
    by_cols: bool,
    l0: int,
    s0: int,
    lines: int,
    depth: int,
    width: int,
    zero: T,
    j: int,
) -> T {
    let i = packed_line(j, depth, width);
    let k = packed_step(j, depth, width);
    if i < lines {
        if by_cols {
            m.src_at(s0 + k, l0 + i)
        } else {
            m.src_at(l0 + i, s0 + k)
        }
    } else {
        zero
    }
}

/// The block `lines x steps` of `m` (lines are rows, or columns where
/// `by_cols` holds) in panels of `width` lines, padded with `zero`.
pub fn pack_panels<T: Copy, M: PanelSource<T>>(
    out: &mut Vec<T>,
    m: &M,
    by_cols: bool,
    lines: std::ops::Range<usize>,
    steps: std::ops::Range<usize>,
    width: usize,
    zero: T,
)
    requires
        m.src_wf(),
        width > 0,
        lines.start <= lines.end,
        steps.start <= steps.end,
        lines.end <= (if by_cols { m.src_cols() } else { m.src_rows() }),
        steps.end <= (if by_cols { m.src_rows() } else { m.src_cols() }),
        lines.end + width <= usize::MAX,
        packed_size((lines.end - lines.start) as int, (steps.end - steps.start) as int, width as int)
            <= usize::MAX,
    ensures
        final(out)@.len() == packed_size(
            (lines.end - lines.start) as int,
            (steps.end - steps.start) as int,
            width as int,
        ),
        forall|j: int|
            0 <= j < final(out)@.len() ==> #[trigger] final(out)@[j] == packed_value(
                *m,
                by_cols,
                lines.start as int,
                steps.start as int,
                (lines.end - lines.start) as int,
                (steps.end - steps.start) as int,
                width as int,
                zero,
                j,
            ),
{
    out.clear();
    let n = lines.end - lines.start;
    let depth = steps.end - steps.start;
    let panels = (n + width - 1) / width;
    let ghost l0 = lines.start as int;
    let ghost s0 = steps.start as int;
    let ghost w = width as int;
    let ghost d = depth as int;
    proof {
        let nn = n as int;
        let ww = width as int;
        let pp = panels as int;
        assert(pp * ww <= nn + ww - 1) by (nonlinear_arith)
            requires
                pp == (nn + ww - 1) / ww,
                ww > 0,
        ;
    }
    let mut p: usize = 0;
    while p < panels
        invariant
            m.src_wf(),
            width > 0,
            lines.start <= lines.end,
            steps.start <= steps.end,
            lines.end <= (if by_cols { m.src_cols() } else { m.src_rows() }),
            steps.end <= (if by_cols { m.src_rows() } else { m.src_cols() }),
            lines.end + width <= usize::MAX,
            n == lines.end - lines.start,
            depth == steps.end - steps.start,
            panels == panel_count(n as int, w),
            panels * width <= n + width - 1,
            l0 == lines.start,
            s0 == steps.start,
            w == width,
            d == depth,
            p <= panels,
            out@.len() == p * (w * d),
            forall|j: int|
                0 <= j < out@.len() ==> #[trigger] out@[j] == packed_value(
                    *m,
                    by_cols,
                    l0,
                    s0,
                    n as int,
                    d,
                    w,
                    zero,
                    j,
                ),
        decreases panels - p,
    {
        let mut k: usize = 0;
        while k < depth
            invariant
                m.src_wf(),
                width > 0,
                lines.start <= lines.end,
                steps.start <= steps.end,
                lines.end <= (if by_cols { m.src_cols() } else { m.src_rows() }),
                steps.end <= (if by_cols { m.src_rows() } else { m.src_cols() }),
                lines.end + width <= usize::MAX,
                n == lines.end - lines.start,
                depth == steps.end - steps.start,
                panels * width <= n + width - 1,
                l0 == lines.start,
                s0 == steps.start,
                w == width,
                d == depth,
                p < panels,
                k <= depth,
                out@.len() == p * (w * d) + k * w,
                forall|j: int|
                    0 <= j < out@.len() ==> #[trigger] out@[j] == packed_value(
                        *m,
                        by_cols,
                        l0,
                        s0,
                        n as int,
                        d,
                        w,
                        zero,
                        j,
                    ),
            decreases depth - k,
        {
            let mut r: usize = 0;
            while r < width
                invariant
                    m.src_wf(),
                    width > 0,
                    lines.start <= lines.end,
                    steps.start <= steps.end,
                    lines.end <= (if by_cols { m.src_cols() } else { m.src_rows() }),
                    steps.end <= (if by_cols { m.src_rows() } else { m.src_cols() }),
                    lines.end + width <= usize::MAX,
                    n == lines.end - lines.start,
                    depth == steps.end - steps.start,
                    panels * width <= n + width - 1,
                    l0 == lines.start,
                    s0 == steps.start,
                    w == width,
                    d == depth,
                    p < panels,
                    k < depth,
                    r <= width,
                    out@.len() == p * (w * d) + k * w + r,
                    forall|j: int|
                        0 <= j < out@.len() ==> #[trigger] out@[j] == packed_value(
                            *m,
                            by_cols,
                            l0,
                            s0,
                            n as int,
                            d,
                            w,
                            zero,
                            j,
                        ),
                decreases width - r,
            {
                proof {
                    assert(p * width + r < panels * width) by (nonlinear_arith)
                        requires
                            p < panels,
                            r < width,
                    ;
                    lemma_packed_position(p as int, k as int, r as int, d, w);
                }
                let line = p * width + r;
                let v = if line < n {
                    if by_cols {
                        m.get_at(steps.start + k, lines.start + line)
                    } else {
                        m.get_at(lines.start + line, steps.start + k)
                    }
                } else {
                    zero
                };
                out.push(v);
                r += 1;
            }
            proof {
                assert(p * (w * d) + k * w + w == p * (w * d) + (k + 1) * w) by (nonlinear_arith);
            }
            k += 1;
        }
        proof {
            assert(p * (w * d) + d * w == (p + 1) * (w * d)) by (nonlinear_arith);
        }
        p += 1;
    }
    proof {
        assert(panels * (w * d) == packed_size(n as int, d, w)) by (nonlinear_arith)
            requires
                panels == panel_count(n as int, w),
        ;
    }
}

} // verus!

verus! {

/// Reading position `packed_index(i, k)` of a packed buffer gives element
/// `k` of line `i`.
pub proof fn lemma_packed_index(i: int, k: int, n: int, depth: int, width: int)
    requires
        width > 0,
        n >= 0,
        0 <= i < panel_count(n, width) * width,
        0 <= k < depth,
    ensures
        0 <= packed_index(i, k, depth, width) < packed_size(n, depth, width),
        packed_line(packed_index(i, k, depth, width), depth, width) == i,
        packed_step(packed_index(i, k, depth, width), depth, width) == k,
{
    let p = i / width;
    let r = i % width;
    let pc = panel_count(n, width);
    assert(i == p * width + r && 0 <= r < width && 0 <= p < pc) by (nonlinear_arith)
        requires
            width > 0,
            0 <= i < pc * width,
            p == i / width,
            r == i % width,
    ;
    lemma_packed_position(p, k, r, depth, width);
    assert(p * (width * depth) + k * width + r < pc * width * depth) by (nonlinear_arith)
        requires
            0 <= p < pc,
            0 <= k < depth,
            0 <= r < width,
    ;
    assert(p * (width * depth) + k * width + r >= 0) by (nonlinear_arith)
        requires
            0 <= p,
            0 <= k < depth,
            0 <= r,
            width > 0,
    ;
}

/// Pack rows `rows` and columns `cols` of the left operand `a` into panels of
/// `mr` rows; rows past the block are filled with `zero`.
pub fn pack_a_block<T: Copy>(
    out: &mut Vec<T>,
    a: &Matrix<T>,
    rows: std::ops::Range<usize>,
    cols: std::ops::Range<usize>,
    mr: usize,
    zero: T,
)
    requires
        a.wf(),
        mr > 0,
        rows.start <= rows.end <= a.rows_view(),
        cols.start <= cols.end <= a.cols_view(),
        rows.end + mr <= usize::MAX,
        packed_size((rows.end - rows.start) as int, (cols.end - cols.start) as int, mr as int)
            <= usize::MAX,
    ensures
        final(out)@.len() == packed_size(
            (rows.end - rows.start) as int,
            (cols.end - cols.start) as int,
            mr as int,
        ),
        forall|i: int, k: int|
            0 <= i < rows.end - rows.start && 0 <= k < cols.end - cols.start ==> final(out)@[
                #[trigger] packed_index(i, k, (cols.end - cols.start) as int, mr as int)]
                == a.at(rows.start + i, cols.start + k),
        forall|i: int, k: int|
            rows.end - rows.start <= i < panel_count((rows.end - rows.start) as int, mr as int)
                * mr && 0 <= k < cols.end - cols.start ==> final(out)@[#[trigger] packed_index(
                i,
                k,
                (cols.end - cols.start) as int,
                mr as int,
            )] == zero,
{
    let ghost n = (rows.end - rows.start) as int;
    let ghost d = (cols.end - cols.start) as int;
    let ghost r0 = rows.start as int;
    let ghost c0 = cols.start as int;
    pack_panels(out, a, false, rows, cols, mr, zero);
    assert forall|i: int, k: int|
        0 <= i < panel_count(n, mr as int) * mr && 0 <= k < d implies final(out)@[#[trigger] packed_index(
        i,
        k,
        d,
        mr as int,
    )] == (if i < n { a.at(r0 + i, c0 + k) } else { zero }) by {
        lemma_packed_index(i, k, n, d, mr as int);
    }
    assert forall|i: int, k: int| 0 <= i < n && 0 <= k < d implies final(out)@[
        #[trigger] packed_index(i, k, d, mr as int)] == a.at(r0 + i, c0 + k) by {
        assert(i < panel_count(n, mr as int) * mr) by (nonlinear_arith)
            requires
                0 <= i < n,
                mr > 0,
        ;
        lemma_packed_index(i, k, n, d, mr as int);
    }
}

/// Layout of a buffer for `rows x cols` of the right operand in panels of
/// `nr` columns.
pub fn packed_b_layout(rows: usize, cols: usize, nr: usize) -> (r: PackedLayout)
    requires
        nr > 0,
        cols + nr <= usize::MAX,
        nr * rows <= usize::MAX,
        packed_size(cols as int, rows as int, nr as int) <= usize::MAX,
    ensures
        r.size == packed_size(cols as int, rows as int, nr as int),
        r.panel_stride == nr * rows,
        r.sums == 0,
        !r.must_pack,
{
    packed_a_layout(cols, rows, nr)
}

/// Pack rows `rows` and columns `cols` of the right operand `b` into panels
/// of `nr` columns; columns past the block are filled with `zero`.
pub fn pack_b_block<T: Copy>(
    out: &mut Vec<T>,
    b: &Matrix<T>,
    rows: std::ops::Range<usize>,
    cols: std::ops::Range<usize>,
    nr: usize,
    zero: T,
)
    requires
        b.wf(),
        nr > 0,
        rows.start <= rows.end <= b.rows_view(),
        cols.start <= cols.end <= b.cols_view(),
        cols.end + nr <= usize::MAX,
        packed_size((cols.end - cols.start) as int, (rows.end - rows.start) as int, nr as int)
            <= usize::MAX,
    ensures
        final(out)@.len() == packed_size(
            (cols.end - cols.start) as int,
            (rows.end - rows.start) as int,
            nr as int,
        ),
        forall|j: int, k: int|
            0 <= j < cols.end - cols.start && 0 <= k < rows.end - rows.start ==> final(out)@[
                #[trigger] packed_index(j, k, (rows.end - rows.start) as int, nr as int)]
                == b.at(rows.start + k, cols.start + j),
        forall|j: int, k: int|
            cols.end - cols.start <= j < panel_count((cols.end - cols.start) as int, nr as int)
                * nr && 0 <= k < rows.end - rows.start ==> final(out)@[#[trigger] packed_index(
                j,
                k,
                (rows.end - rows.start) as int,
                nr as int,
            )] == zero,
{
    let ghost n = (cols.end - cols.start) as int;
    let ghost d = (rows.end - rows.start) as int;
    let ghost r0 = rows.start as int;
    let ghost c0 = cols.start as int;
    pack_panels(out, b, true, cols, rows, nr, zero);
    assert forall|j: int, k: int|
        0 <= j < panel_count(n, nr as int) * nr && 0 <= k < d implies final(out)@[#[trigger] packed_index(
        j,
        k,
        d,
        nr as int,
    )] == (if j < n { b.at(r0 + k, c0 + j) } else { zero }) by {
        lemma_packed_index(j, k, n, d, nr as int);
    }
    assert forall|j: int, k: int| 0 <= j < n && 0 <= k < d implies final(out)@[
        #[trigger] packed_index(j, k, d, nr as int)] == b.at(r0 + k, c0 + j) by {
        assert(j < panel_count(n, nr as int) * nr) by (nonlinear_arith)
            requires
                0 <= j < n,
                nr > 0,
        ;
        lemma_packed_index(j, k, n, d, nr as int);
    }
}

} // verus!
