//! Arithmetic of the 8-bit quantized path: zero-point corrected dot
//! products, and operands packed with their row or column sums.
use vstd::prelude::*;
use vstd::arithmetic::div_mod::lemma_fundamental_div_mod_converse;

use crate::packing::{panel_count, Matrix};

verus! {

/// Largest depth for which every zero-point corrected product of `u8` and
/// `i8` operands fits in an `i32`: `255 * 255 * depth <= i32::MAX`.
pub const MAX_QUANT_DEPTH: usize = 33025;

/// `n` rounded up to a multiple of four.
pub open spec fn round_up4(n: int) -> int {
    ((n + 3) / 4) * 4
}

pub open spec fn sum_u8(s: Seq<u8>) -> int
    decreases s.len(),
{
    if s.len() == 0 {
        0
    } else {
        sum_u8(s.drop_last()) + s.last() as int
    }
}

pub open spec fn sum_i8(s: Seq<i8>) -> int
    decreases s.len(),
{
    if s.len() == 0 {
        0
    } else {
        sum_i8(s.drop_last()) + s.last() as int
    }
}

/// Dot product of the first `n` elements of `a` and `b` after subtracting
/// the zero points `za` and `zb`.
pub open spec fn qdot(a: Seq<u8>, b: Seq<i8>, za: int, zb: int, n: int) -> int
    decreases n,
{
    if n <= 0 {
        0
    } else {
        qdot(a, b, za, zb, n - 1) + (a[n - 1] - za) * (b[n - 1] - zb)
    }
}

/// Sum of the first `n` elements.
pub open spec fn prefix_sum_u8(a: Seq<u8>, n: int) -> int {
    sum_u8(a.take(n))
}

pub open spec fn prefix_sum_i8(b: Seq<i8>, n: int) -> int {
    sum_i8(b.take(n))
}

pub proof fn lemma_sum_u8_step(a: Seq<u8>, n: int)
    requires
        0 <= n < a.len(),
    ensures
        prefix_sum_u8(a, n + 1) == prefix_sum_u8(a, n) + a[n],
        0 <= prefix_sum_u8(a, n + 1) <= 255 * (n + 1),
    decreases n,
{
    assert(a.take(n + 1).drop_last() =~= a.take(n));
    if n > 0 {
        lemma_sum_u8_step(a, n - 1);
    } else {
        assert(a.take(0) =~= Seq::<u8>::empty());
    }
}

pub proof fn lemma_sum_i8_step(b: Seq<i8>, n: int)
    requires
        0 <= n < b.len(),
    ensures
        prefix_sum_i8(b, n + 1) == prefix_sum_i8(b, n) + b[n],
        -128 * (n + 1) <= prefix_sum_i8(b, n + 1) <= 127 * (n + 1),
    decreases n,
{
    assert(b.take(n + 1).drop_last() =~= b.take(n));
    if n > 0 {
        lemma_sum_i8_step(b, n - 1);
    } else {
        assert(b.take(0) =~= Seq::<i8>::empty());
    }
}

/// The zero-point decomposition: the corrected dot product is the raw dot
/// product minus `zb` times the sum of `a`, minus `za` times the sum of `b`,
/// plus `n * za * zb`.
pub proof fn lemma_qdot_decompose(a: Seq<u8>, b: Seq<i8>, za: int, zb: int, n: int)
    requires
        0 <= n <= a.len(),
        n <= b.len(),
    ensures
        qdot(a, b, za, zb, n) == qdot(a, b, 0, 0, n) - zb * prefix_sum_u8(a, n) - za
            * prefix_sum_i8(b, n) + n * za * zb,
    decreases n,
{
    if n == 0 {
        assert(a.take(0) =~= Seq::<u8>::empty());
        assert(b.take(0) =~= Seq::<i8>::empty());
        assert(prefix_sum_u8(a, 0) == 0);
        assert(prefix_sum_i8(b, 0) == 0);
        assert(0 * za * zb == 0);
    } else {
        lemma_qdot_decompose(a, b, za, zb, n - 1);
        lemma_sum_u8_step(a, n - 1);
        lemma_sum_i8_step(b, n - 1);
        let x = a[n - 1] as int;
        let y = b[n - 1] as int;
        let q1 = qdot(a, b, za, zb, n - 1);
        let r1 = qdot(a, b, 0, 0, n - 1);
        let sa = prefix_sum_u8(a, n - 1);
        let sb = prefix_sum_i8(b, n - 1);
        assert(qdot(a, b, 0, 0, n) == r1 + (x - 0) * (y - 0));
        assert(qdot(a, b, za, zb, n) == q1 + (x - za) * (y - zb));
        assert(q1 + (x - za) * (y - zb) == r1 + x * y - zb * (sa + x) - za * (sb + y) + n * za
            * zb) by (nonlinear_arith)
            requires
                q1 == r1 - zb * sa - za * sb + (n - 1) * za * zb,
        ;
        assert(prefix_sum_u8(a, n) == sa + x);
        assert(prefix_sum_i8(b, n) == sb + y);
        assert(r1 + (x - 0) * (y - 0) == r1 + x * y);
        assert(zb * prefix_sum_u8(a, n) == zb * (sa + x));
        assert(za * prefix_sum_i8(b, n) == za * (sb + y));
    }
}

/// Bound on a corrected dot product of `n` terms.
pub proof fn lemma_qdot_bound(a: Seq<u8>, b: Seq<i8>, za: int, zb: int, n: int)
    requires
        0 <= n <= a.len(),
        n <= b.len(),
        0 <= za <= 255,
        -128 <= zb <= 127,
    ensures
        -65025 * n <= qdot(a, b, za, zb, n) <= 65025 * n,
        -32640 * n <= qdot(a, b, 0, 0, n) <= 32640 * n,
    decreases n,
{
    if n > 0 {
        lemma_qdot_bound(a, b, za, zb, n - 1);
        let x = a[n - 1] as int - za;
        let y = b[n - 1] as int - zb;
        assert(-65025 <= x * y <= 65025) by (nonlinear_arith)
            requires
                -255 <= x <= 255,
                -255 <= y <= 255,
        ;
        let x0 = a[n - 1] as int;
        let y0 = b[n - 1] as int;
        assert(-32640 <= x0 * y0 <= 32640) by (nonlinear_arith)
            requires
                0 <= x0 <= 255,
                -128 <= y0 <= 127,
        ;
    }
}

/// Terms past `from` whose left factor is zero add nothing.
pub proof fn lemma_qdot_zero_tail(a: Seq<u8>, b: Seq<i8>, from: int, n: int)
    requires
        0 <= from <= n <= a.len(),
        n <= b.len(),
        forall|k: int| from <= k < n ==> a[k] == 0,
    ensures
        qdot(a, b, 0, 0, n) == qdot(a, b, 0, 0, from),
    decreases n,
{
    if n > from {
        lemma_qdot_zero_tail(a, b, from, n - 1);
        let x = a[n - 1] as int;
        let y = b[n - 1] as int;
        assert((x - 0) * (y - 0) == 0) by (nonlinear_arith)
            requires
                x == 0,
        ;
    }
}

/// Left operand of the quantized kernel: `lines` rows, each padded with
/// zeros to a multiple of four in depth, with the sum of each row.
pub struct PackedInt8A {
    data: Vec<u8>,
    row_sums: Vec<i32>,
    lines: usize,
    depth: usize,
    line_stride: usize,
}

/// Right operand of the quantized kernel: `lines` columns, each padded with
/// zeros to a multiple of four in depth, with the sum of each column.
pub struct PackedInt8B {
    data: Vec<i8>,
    col_sums: Vec<i32>,
    lines: usize,
    depth: usize,
    line_stride: usize,
}

impl PackedInt8A {
    pub closed spec fn data_view(&self) -> Seq<u8> {
        self.data@
    }

    pub closed spec fn sums_view(&self) -> Seq<i32> {
        self.row_sums@
    }

    pub closed spec fn lines_view(&self) -> nat {
        self.lines as nat
    }

    pub closed spec fn depth_view(&self) -> nat {
        self.depth as nat
    }

    pub closed spec fn stride_view(&self) -> nat {
        self.line_stride as nat
    }

    /// The padded row `l`.
    pub open spec fn line(&self, l: int) -> Seq<u8> {
        self.data_view().subrange(l * self.stride_view(), (l + 1) * self.stride_view())
    }

    pub open spec fn wf(&self) -> bool {
        &&& self.depth_view() <= MAX_QUANT_DEPTH
        &&& self.stride_view() == round_up4(self.depth_view() as int)
        &&& self.data_view().len() == self.lines_view() * self.stride_view()
        &&& self.sums_view().len() == self.lines_view()
        &&& forall|l: int|
            0 <= l < self.lines_view() ==> #[trigger] self.sums_view()[l] == prefix_sum_u8(
                self.line(l),
                self.depth_view() as int,
            )
        &&& forall|l: int, k: int|
            0 <= l < self.lines_view() && self.depth_view() <= k < self.stride_view()
                ==> #[trigger] self.line(l)[k] == 0
    }

    /// Element `k` of padded row `l`.
    pub fn get(&self, l: usize, k: usize) -> (r: u8)
        requires
            self.wf(),
            l < self.lines_view(),
            k < self.stride_view(),
        ensures
            r == self.line(l as int)[k as int],
    {
        proof {
            assert((l + 1) * self.line_stride <= self.lines * self.line_stride) by (nonlinear_arith)
                requires
                    l < self.lines,
            ;
            lemma_line_view(self.data@, self.line_stride as int, l as int, k as int);
        }
        let _ = self.data.len();
        self.data[l * self.line_stride + k]
    }

    /// Sum of row `l` over the depth.
    pub fn row_sum(&self, l: usize) -> (r: i32)
        requires
            self.wf(),
            l < self.lines_view(),
        ensures
            r == prefix_sum_u8(self.line(l as int), self.depth_view() as int),
    {
        self.row_sums[l]
    }

    /// Distance between the starts of consecutive rows: the depth rounded up
    /// to a multiple of four.
    pub fn line_stride(&self) -> (r: usize)
        ensures
            r == self.stride_view(),
    {
        self.line_stride
    }

    pub proof fn lemma_line_len(&self, l: int)
        requires
            self.wf(),
            0 <= l < self.lines_view(),
        ensures
            self.line(l).len() == self.stride_view(),
    {
        let st = self.stride_view() as int;
        assert((l + 1) * st <= self.lines_view() * st) by (nonlinear_arith)
            requires
                0 <= l < self.lines_view(),
                st >= 0,
        ;
        assert((l + 1) * st == l * st + st) by (nonlinear_arith);
        assert(0 <= l * st) by (nonlinear_arith)
            requires
                0 <= l,
                st >= 0,
        ;
    }

    pub fn depth(&self) -> (r: usize)
        ensures
            r == self.depth_view(),
    {
        self.depth
    }

    pub fn lines(&self) -> (r: usize)
        ensures
            r == self.lines_view(),
    {
        self.lines
    }
}

impl PackedInt8B {
    pub closed spec fn data_view(&self) -> Seq<i8> {
        self.data@
    }

    pub closed spec fn sums_view(&self) -> Seq<i32> {
        self.col_sums@
    }

    pub closed spec fn lines_view(&self) -> nat {
        self.lines as nat
    }

    pub closed spec fn depth_view(&self) -> nat {
        self.depth as nat
    }

    pub closed spec fn stride_view(&self) -> nat {
        self.line_stride as nat
    }

    /// The padded column `l`.
    pub open spec fn line(&self, l: int) -> Seq<i8> {
        self.data_view().subrange(l * self.stride_view(), (l + 1) * self.stride_view())
    }

    pub open spec fn wf(&self) -> bool {
        &&& self.depth_view() <= MAX_QUANT_DEPTH
        &&& self.stride_view() == round_up4(self.depth_view() as int)
        &&& self.data_view().len() == self.lines_view() * self.stride_view()
        &&& self.sums_view().len() == self.lines_view()
        &&& forall|l: int|
            0 <= l < self.lines_view() ==> #[trigger] self.sums_view()[l] == prefix_sum_i8(
                self.line(l),
                self.depth_view() as int,
            )
        &&& forall|l: int, k: int|
            0 <= l < self.lines_view() && self.depth_view() <= k < self.stride_view()
                ==> #[trigger] self.line(l)[k] == 0
    }

    /// Element `k` of padded column `l`.
    pub fn get(&self, l: usize, k: usize) -> (r: i8)
        requires
            self.wf(),
            l < self.lines_view(),
            k < self.stride_view(),
        ensures
            r == self.line(l as int)[k as int],
    {
        proof {
            assert((l + 1) * self.line_stride <= self.lines * self.line_stride) by (nonlinear_arith)
                requires
                    l < self.lines,
            ;
            lemma_line_view(self.data@, self.line_stride as int, l as int, k as int);
        }
        let _ = self.data.len();
        self.data[l * self.line_stride + k]
    }

    /// Sum of column `l` over the depth.
    pub fn col_sum(&self, l: usize) -> (r: i32)
        requires
            self.wf(),
            l < self.lines_view(),
        ensures
            r == prefix_sum_i8(self.line(l as int), self.depth_view() as int),
    {
        self.col_sums[l]
    }

    /// Distance between the starts of consecutive columns: the depth rounded up
    /// to a multiple of four.
    pub fn line_stride(&self) -> (r: usize)
        ensures
            r == self.stride_view(),
    {
        self.line_stride
    }

    pub proof fn lemma_line_len(&self, l: int)
        requires
            self.wf(),
            0 <= l < self.lines_view(),
        ensures
            self.line(l).len() == self.stride_view(),
    {
        let st = self.stride_view() as int;
        assert((l + 1) * st <= self.lines_view() * st) by (nonlinear_arith)
            requires
                0 <= l < self.lines_view(),
                st >= 0,
        ;
        assert((l + 1) * st == l * st + st) by (nonlinear_arith);
        assert(0 <= l * st) by (nonlinear_arith)
            requires
                0 <= l,
                st >= 0,
        ;
    }

    pub fn depth(&self) -> (r: usize)
        ensures
            r == self.depth_view(),
    {
        self.depth
    }

    pub fn lines(&self) -> (r: usize)
        ensures
            r == self.lines_view(),
    {
        self.lines
    }
}

} // verus!

verus! {

/// Element `k` of line `l` in a buffer of lines `stride` apart.
pub open spec fn at_line<T>(s: Seq<T>, stride: int, l: int, k: int) -> T {
    s[l * stride + k]
}

proof fn lemma_line_view<T>(s: Seq<T>, stride: int, l: int, k: int)
    requires
        0 <= k < stride,
        0 <= l,
        (l + 1) * stride <= s.len(),
    ensures
        s.subrange(l * stride, (l + 1) * stride)[k] == at_line(s, stride, l, k),
        l * stride + k < (l + 1) * stride,
{
    assert((l + 1) * stride == l * stride + stride) by (nonlinear_arith);
}

/// Pack rows `rows`, columns `cols` of `a` for the quantized kernel: as many
/// rows as fill whole panels of `mr`, each padded with zeros to a multiple of
/// four in depth, with the sum of each row.
pub fn pack_int8_a(
    a: &Matrix<u8>,
    rows: std::ops::Range<usize>,
    cols: std::ops::Range<usize>,
    mr: usize,
) -> (r: PackedInt8A)
    requires
        a.wf(),
        mr > 0,
        rows.start <= rows.end <= a.rows_view(),
        cols.start <= cols.end <= a.cols_view(),
        cols.end - cols.start <= MAX_QUANT_DEPTH,
        rows.end + mr <= usize::MAX,
        panel_count((rows.end - rows.start) as int, mr as int) * mr * round_up4(
            (cols.end - cols.start) as int,
        ) <= usize::MAX,
    ensures
        r.wf(),
        r.lines_view() == panel_count((rows.end - rows.start) as int, mr as int) * mr,
        r.depth_view() == cols.end - cols.start,
        forall|l: int, k: int|
            0 <= l < r.lines_view() && 0 <= k < cols.end - cols.start ==> #[trigger] r.line(l)[k]
                == (if l < rows.end - rows.start {
                a.at(rows.start + l, cols.start + k)
            } else {
                0u8
            }),
{
    let n = rows.end - rows.start;
    let depth = cols.end - cols.start;
    let d4 = (depth + 3) / 4 * 4;
    let panels = (n + mr - 1) / mr;
    proof {
        let (pp, nn, mm) = (panels as int, n as int, mr as int);
        assert(pp * mm <= nn + mm - 1) by (nonlinear_arith)
            requires
                pp == (nn + mm - 1) / mm,
                mm > 0,
        ;
        let (de, dq) = (depth as int, d4 as int);
        assert(de <= dq < de + 4) by (nonlinear_arith)
            requires
                dq == (de + 3) / 4 * 4,
        ;
        assert(panels * mr * d4 == (panels * mr) * d4) by (nonlinear_arith);
    }
    let lines = panels * mr;
    let ghost dd = d4 as int;
    let ghost r0 = rows.start as int;
    let ghost c0 = cols.start as int;
    let mut data: Vec<u8> = Vec::new();
    let mut sums: Vec<i32> = Vec::new();
    let mut l: usize = 0;
    while l < lines
        invariant
            a.wf(),
            rows.start <= rows.end <= a.rows_view(),
            cols.start <= cols.end <= a.cols_view(),
            r0 == rows.start,
            c0 == cols.start,
            n == rows.end - rows.start,
            depth == cols.end - cols.start,
            depth <= MAX_QUANT_DEPTH,
            dd == d4,
            depth <= d4 < depth + 4,
            lines * d4 <= usize::MAX,
            l <= lines,
            data@.len() == l * dd,
            sums@.len() == l,
            forall|l2: int, k: int|
                0 <= l2 < l && 0 <= k < dd ==> #[trigger] at_line(data@, dd, l2, k) == (if l2 < n
                    && k < depth {
                    a.at(r0 + l2, c0 + k)
                } else {
                    0u8
                }),
            forall|l2: int|
                0 <= l2 < l ==> #[trigger] sums@[l2] == sum_u8(
                    data@.subrange(l2 * dd, l2 * dd + depth),
                ),
        decreases lines - l,
    {
        proof {
            assert((l + 1) * d4 <= lines * d4) by (nonlinear_arith)
                requires
                    l < lines,
            ;
            assert((l + 1) * dd == l * dd + dd) by (nonlinear_arith);
        }
        let ghost base = l * dd;
        let mut s: i32 = 0;
        let mut k: usize = 0;
        while k < d4
            invariant
                a.wf(),
                rows.start <= rows.end <= a.rows_view(),
                cols.start <= cols.end <= a.cols_view(),
                r0 == rows.start,
                c0 == cols.start,
                n == rows.end - rows.start,
                depth == cols.end - cols.start,
                depth <= MAX_QUANT_DEPTH,
                dd == d4,
                depth <= d4 < depth + 4,
                l < lines,
                base == l * dd,
                base + dd <= lines * d4 <= usize::MAX,
                k <= d4,
                data@.len() == base + k,
                sums@.len() == l,
                forall|l2: int, k2: int|
                    0 <= l2 < l && 0 <= k2 < dd ==> #[trigger] at_line(data@, dd, l2, k2) == (if l2
                        < n && k2 < depth {
                        a.at(r0 + l2, c0 + k2)
                    } else {
                        0u8
                    }),
                forall|k2: int|
                    0 <= k2 < k ==> #[trigger] at_line(data@, dd, l as int, k2) == (if l < n && k2
                        < depth {
                        a.at(r0 + l, c0 + k2)
                    } else {
                        0u8
                    }),
                forall|l2: int|
                    0 <= l2 < l ==> #[trigger] sums@[l2] == sum_u8(
                        data@.subrange(l2 * dd, l2 * dd + depth),
                    ),
                s == sum_u8(data@.subrange(base, base + (if k < depth { k } else { depth }))),
                0 <= s <= 255 * k,
            decreases d4 - k,
        {
            let v: u8 = if l < n && k < depth {
                a.get(rows.start + l, cols.start + k)
            } else {
                0
            };
            let ghost before = data@;
            data.push(v);
            proof {
                assert forall|l2: int, k2: int| 0 <= l2 < l && 0 <= k2 < dd implies #[trigger] at_line(
                    data@,
                    dd,
                    l2,
                    k2,
                ) == at_line(before, dd, l2, k2) by {
                    assert(l2 * dd + k2 < l * dd) by (nonlinear_arith)
                        requires
                            0 <= l2 < l,
                            0 <= k2 < dd,
                    ;
                }
                assert(data@.subrange(base, base + (if k < depth { k } else { depth }))
                    =~= before.subrange(base, base + (if k < depth { k } else { depth })));
                if k < depth {
                    assert(data@.subrange(base, base + k + 1).drop_last() =~= before.subrange(
                        base,
                        base + k,
                    ));
                }
                assert forall|l2: int| 0 <= l2 < l implies #[trigger] sums@[l2] == sum_u8(
                    data@.subrange(l2 * dd, l2 * dd + depth),
                ) by {
                    assert(l2 * dd + dd <= l * dd) by (nonlinear_arith)
                        requires
                            0 <= l2 < l,
                            dd >= 0,
                    ;
                    assert(data@.subrange(l2 * dd, l2 * dd + depth) =~= before.subrange(
                        l2 * dd,
                        l2 * dd + depth,
                    ));
                }
            }
            assert(at_line(data@, dd, l as int, k as int) == v);
            assert forall|k2: int| 0 <= k2 < k implies #[trigger] at_line(data@, dd, l as int, k2)
                == at_line(before, dd, l as int, k2) by {
                assert(l * dd + k2 < before.len());
            }
            if k < depth {
                s = s + v as i32;
            }
            k += 1;
        }
        sums.push(s);
        l += 1;
        proof {
            assert(data@.len() == l * dd) by (nonlinear_arith)
                requires
                    data@.len() == base + dd,
                    base == (l - 1) * dd,
            ;
        }
    }
    let r = PackedInt8A { data, row_sums: sums, lines, depth, line_stride: d4 };
    proof {
        assert forall|l2: int| 0 <= l2 < lines implies #[trigger] r.sums_view()[l2]
            == prefix_sum_u8(r.line(l2), depth as int) by {
            assert((l2 + 1) * dd <= lines * dd) by (nonlinear_arith)
                requires
                    0 <= l2 < lines,
                    dd >= 0,
            ;
            assert((l2 + 1) * dd == l2 * dd + dd) by (nonlinear_arith);
            assert(r.line(l2).take(depth as int) =~= r.data_view().subrange(
                l2 * dd,
                l2 * dd + depth,
            ));
        }
        assert forall|l2: int, k: int| 0 <= l2 < lines && 0 <= k < dd implies #[trigger] r.line(
            l2,
        )[k] == at_line(r.data_view(), dd, l2, k) by {
            assert((l2 + 1) * dd <= lines * dd) by (nonlinear_arith)
                requires
                    0 <= l2 < lines,
                    dd >= 0,
            ;
            lemma_line_view(r.data_view(), dd, l2, k);
        }
        assert(round_up4(depth as int) == dd);
    }
    r
}

/// Pack rows `rows`, columns `cols` of `b` for the quantized kernel: as many
/// columns as fill whole panels of `nr`, each padded with zeros to a multiple
/// of four in depth, with the sum of each column.
pub fn pack_int8_b(
    b: &Matrix<i8>,
    rows: std::ops::Range<usize>,
    cols: std::ops::Range<usize>,
    nr: usize,
) -> (r: PackedInt8B)
    requires
        b.wf(),
        nr > 0,
        cols.start <= cols.end <= b.cols_view(),
        rows.start <= rows.end <= b.rows_view(),
        rows.end - rows.start <= MAX_QUANT_DEPTH,
        cols.end + nr <= usize::MAX,
        panel_count((cols.end - cols.start) as int, nr as int) * nr * round_up4(
            (rows.end - rows.start) as int,
        ) <= usize::MAX,
    ensures
        r.wf(),
        r.lines_view() == panel_count((cols.end - cols.start) as int, nr as int) * nr,
        r.depth_view() == rows.end - rows.start,
        forall|l: int, k: int|
            0 <= l < r.lines_view() && 0 <= k < rows.end - rows.start ==> #[trigger] r.line(l)[k]
                == (if l < cols.end - cols.start {
                b.at(rows.start + k, cols.start + l)
            } else {
                0i8
            }),
{
    let n = cols.end - cols.start;
    let depth = rows.end - rows.start;
    let d4 = (depth + 3) / 4 * 4;
    let panels = (n + nr - 1) / nr;
    proof {
        let (pp, nn, mm) = (panels as int, n as int, nr as int);
        assert(pp * mm <= nn + mm - 1) by (nonlinear_arith)
            requires
                pp == (nn + mm - 1) / mm,
                mm > 0,
        ;
        let (de, dq) = (depth as int, d4 as int);
        assert(de <= dq < de + 4) by (nonlinear_arith)
            requires
                dq == (de + 3) / 4 * 4,
        ;
        assert(panels * nr * d4 == (panels * nr) * d4) by (nonlinear_arith);
    }
    let lines = panels * nr;
    let ghost dd = d4 as int;
    let ghost r0 = cols.start as int;
    let ghost c0 = rows.start as int;
    let mut data: Vec<i8> = Vec::new();
    let mut sums: Vec<i32> = Vec::new();
    let mut l: usize = 0;
    while l < lines
        invariant
            b.wf(),
            cols.start <= cols.end <= b.cols_view(),
            rows.start <= rows.end <= b.rows_view(),
            r0 == cols.start,
            c0 == rows.start,
            n == cols.end - cols.start,
            depth == rows.end - rows.start,
            depth <= MAX_QUANT_DEPTH,
            dd == d4,
            depth <= d4 < depth + 4,
            lines * d4 <= usize::MAX,
            l <= lines,
            data@.len() == l * dd,
            sums@.len() == l,
            forall|l2: int, k: int|
                0 <= l2 < l && 0 <= k < dd ==> #[trigger] at_line(data@, dd, l2, k) == (if l2 < n
                    && k < depth {
                    b.at(c0 + k, r0 + l2)
                } else {
                    0i8
                }),
            forall|l2: int|
                0 <= l2 < l ==> #[trigger] sums@[l2] == sum_i8(
                    data@.subrange(l2 * dd, l2 * dd + depth),
                ),
        decreases lines - l,
    {
        proof {
            assert((l + 1) * d4 <= lines * d4) by (nonlinear_arith)
                requires
                    l < lines,
            ;
            assert((l + 1) * dd == l * dd + dd) by (nonlinear_arith);
        }
        let ghost base = l * dd;
        let mut s: i32 = 0;
        let mut k: usize = 0;
        while k < d4
            invariant
                b.wf(),
                cols.start <= cols.end <= b.cols_view(),
                rows.start <= rows.end <= b.rows_view(),
                r0 == cols.start,
                c0 == rows.start,
                n == cols.end - cols.start,
                depth == rows.end - rows.start,
                depth <= MAX_QUANT_DEPTH,
                dd == d4,
                depth <= d4 < depth + 4,
                l < lines,
                base == l * dd,
                base + dd <= lines * d4 <= usize::MAX,
                k <= d4,
                data@.len() == base + k,
                sums@.len() == l,
                forall|l2: int, k2: int|
                    0 <= l2 < l && 0 <= k2 < dd ==> #[trigger] at_line(data@, dd, l2, k2) == (if l2
                        < n && k2 < depth {
                        b.at(c0 + k2, r0 + l2)
                    } else {
                        0i8
                    }),
                forall|k2: int|
                    0 <= k2 < k ==> #[trigger] at_line(data@, dd, l as int, k2) == (if l < n && k2
                        < depth {
                        b.at(c0 + k2, r0 + l)
                    } else {
                        0i8
                    }),
                forall|l2: int|
                    0 <= l2 < l ==> #[trigger] sums@[l2] == sum_i8(
                        data@.subrange(l2 * dd, l2 * dd + depth),
                    ),
                s == sum_i8(data@.subrange(base, base + (if k < depth { k } else { depth }))),
                -128 * k <= s <= 127 * k,
            decreases d4 - k,
        {
            let v: i8 = if l < n && k < depth {
                b.get(rows.start + k, cols.start + l)
            } else {
                0
            };
            let ghost before = data@;
            data.push(v);
            proof {
                assert forall|l2: int, k2: int| 0 <= l2 < l && 0 <= k2 < dd implies #[trigger] at_line(
                    data@,
                    dd,
                    l2,
                    k2,
                ) == at_line(before, dd, l2, k2) by {
                    assert(l2 * dd + k2 < l * dd) by (nonlinear_arith)
                        requires
                            0 <= l2 < l,
                            0 <= k2 < dd,
                    ;
                }
                assert(data@.subrange(base, base + (if k < depth { k } else { depth }))
                    =~= before.subrange(base, base + (if k < depth { k } else { depth })));
                if k < depth {
                    assert(data@.subrange(base, base + k + 1).drop_last() =~= before.subrange(
                        base,
                        base + k,
                    ));
                }
                assert forall|l2: int| 0 <= l2 < l implies #[trigger] sums@[l2] == sum_i8(
                    data@.subrange(l2 * dd, l2 * dd + depth),
                ) by {
                    assert(l2 * dd + dd <= l * dd) by (nonlinear_arith)
                        requires
                            0 <= l2 < l,
                            dd >= 0,
                    ;
                    assert(data@.subrange(l2 * dd, l2 * dd + depth) =~= before.subrange(
                        l2 * dd,
                        l2 * dd + depth,
                    ));
                }
            }
            assert(at_line(data@, dd, l as int, k as int) == v);
            assert forall|k2: int| 0 <= k2 < k implies #[trigger] at_line(data@, dd, l as int, k2)
                == at_line(before, dd, l as int, k2) by {
                assert(l * dd + k2 < before.len());
            }
            if k < depth {
                s = s + v as i32;
            }
            k += 1;
        }
        sums.push(s);
        l += 1;
        proof {
            assert(data@.len() == l * dd) by (nonlinear_arith)
                requires
                    data@.len() == base + dd,
                    base == (l - 1) * dd,
            ;
        }
    }
    let r = PackedInt8B { data, col_sums: sums, lines, depth, line_stride: d4 };
    proof {
        assert forall|l2: int| 0 <= l2 < lines implies #[trigger] r.sums_view()[l2]
            == prefix_sum_i8(r.line(l2), depth as int) by {
            assert((l2 + 1) * dd <= lines * dd) by (nonlinear_arith)
                requires
                    0 <= l2 < lines,
                    dd >= 0,
            ;
            assert((l2 + 1) * dd == l2 * dd + dd) by (nonlinear_arith);
            assert(r.line(l2).take(depth as int) =~= r.data_view().subrange(
                l2 * dd,
                l2 * dd + depth,
            ));
        }
        assert forall|l2: int, k: int| 0 <= l2 < lines && 0 <= k < dd implies #[trigger] r.line(
            l2,
        )[k] == at_line(r.data_view(), dd, l2, k) by {
            assert((l2 + 1) * dd <= lines * dd) by (nonlinear_arith)
                requires
                    0 <= l2 < lines,
                    dd >= 0,
            ;
            lemma_line_view(r.data_view(), dd, l2, k);
        }
        assert(round_up4(depth as int) == dd);
    }
    r
}

} // verus!
