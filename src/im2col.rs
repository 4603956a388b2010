//! A convolution input read as the matrix of its windows ("image to
//! column"), without building that matrix.
use vstd::prelude::*;

use crate::packing::PanelSource;

verus! {

/// Window geometry of a 2D convolution.
#[derive(Clone, Copy)]
pub struct ConvGeometry {
    pub kernel_h: usize,
    pub kernel_w: usize,
    pub stride_h: usize,
    pub stride_w: usize,
    pub pad_top: usize,
    pub pad_left: usize,
    pub pad_bottom: usize,
    pub pad_right: usize,
    pub dilation_h: usize,
    pub dilation_w: usize,
}

/// Number of window positions along one axis: `(size + padding - span) /
/// stride + 1`, where `span` is the dilated window size; zero where the
/// window does not fit.
pub open spec fn out_size(size: int, pad_a: int, pad_b: int, kernel: int, stride: int, dilation: int) -> int {
    let span = dilation * (kernel - 1) + 1;
    if size + pad_a + pad_b < span {
        0
    } else {
        (size + pad_a + pad_b - span) / stride + 1
    }
}

/// An image of `channels x height x width` elements read as a matrix: row
/// `(c, ky, kx)` is a channel and a position inside the window, column
/// `(oy, ox)` a window position. Samples that fall in the padding read as
/// `zero`.
pub struct Im2Col<T> {
    image: Vec<T>,
    channels: usize,
    height: usize,
    width: usize,
    geom: ConvGeometry,
    out_h: usize,
    out_w: usize,
    zero: T,
}

/// Sizes and geometry for which every coordinate computed while reading the
/// view fits in a `usize`.
pub open spec fn geometry_fits(channels: int, height: int, width: int, g: ConvGeometry) -> bool {
    &&& g.kernel_h > 0 && g.kernel_w > 0
    &&& g.stride_h > 0 && g.stride_w > 0
    &&& channels * height * width <= usize::MAX
    &&& channels * g.kernel_h * g.kernel_w <= usize::MAX
    &&& height + g.pad_top + g.pad_bottom + g.dilation_h * g.kernel_h <= usize::MAX
    &&& width + g.pad_left + g.pad_right + g.dilation_w * g.kernel_w <= usize::MAX
}

impl<T: Copy> Im2Col<T> {
    pub closed spec fn image_view(&self) -> Seq<T> {
        self.image@
    }

    pub closed spec fn dims(&self) -> (nat, nat, nat) {
        (self.channels as nat, self.height as nat, self.width as nat)
    }

    pub closed spec fn geom_view(&self) -> ConvGeometry {
        self.geom
    }

    pub closed spec fn out_dims(&self) -> (nat, nat) {
        (self.out_h as nat, self.out_w as nat)
    }

    pub closed spec fn zero_view(&self) -> T {
        self.zero
    }

    pub open spec fn wf(&self) -> bool {
        let (c, h, w) = self.dims();
        let g = self.geom_view();
        let (oh, ow) = self.out_dims();
        &&& geometry_fits(c as int, h as int, w as int, g)
        &&& self.image_view().len() == c * h * w
        &&& oh == out_size(h as int, g.pad_top as int, g.pad_bottom as int, g.kernel_h as int, g.stride_h as int, g.dilation_h as int)
        &&& ow == out_size(w as int, g.pad_left as int, g.pad_right as int, g.kernel_w as int, g.stride_w as int, g.dilation_w as int)
        &&& oh * ow <= usize::MAX
    }

    /// Element `(i, j)` of the implicit matrix.
    pub open spec fn sample(&self, i: int, j: int) -> T {
        let (c, h, w) = self.dims();
        let g = self.geom_view();
        let (oh, ow) = self.out_dims();
        let khw = g.kernel_h * g.kernel_w;
        let ch = i / khw;
        let ky = (i % khw) / (g.kernel_w as int);
        let kx = i % (g.kernel_w as int);
        let oy = j / (ow as int);
        let ox = j % (ow as int);
        let y = oy * g.stride_h + ky * g.dilation_h - g.pad_top;
        let x = ox * g.stride_w + kx * g.dilation_w - g.pad_left;
        if 0 <= y < h && 0 <= x < w {
            self.image_view()[(ch * h + y) * w + x]
        } else {
            self.zero_view()
        }
    }

    /// The view of `image` (`channels x height x width`, row-major) under
    /// the window geometry `geom`.
    pub fn new(
        image: Vec<T>,
        channels: usize,
        height: usize,
        width: usize,
        geom: ConvGeometry,
        zero: T,
    ) -> (r: Self)
        requires
            geometry_fits(channels as int, height as int, width as int, geom),
            image@.len() == channels * height * width,
            out_size(height as int, geom.pad_top as int, geom.pad_bottom as int, geom.kernel_h as int, geom.stride_h as int, geom.dilation_h as int)
                * out_size(width as int, geom.pad_left as int, geom.pad_right as int, geom.kernel_w as int, geom.stride_w as int, geom.dilation_w as int)
                <= usize::MAX,
        ensures
            r.wf(),
            r.image_view() == image@,
            r.dims() == (channels as nat, height as nat, width as nat),
            r.geom_view() == geom,
            r.zero_view() == zero,
    {
        let out_h = axis_out_size(height, geom.pad_top, geom.pad_bottom, geom.kernel_h, geom.stride_h, geom.dilation_h);
        let out_w = axis_out_size(width, geom.pad_left, geom.pad_right, geom.kernel_w, geom.stride_w, geom.dilation_w);
        Im2Col { image, channels, height, width, geom, out_h, out_w, zero }
    }

    /// The value that samples in the padding read as.
    pub fn zero(&self) -> (r: T)
        ensures
            r == self.zero_view(),
    {
        self.zero
    }

    /// Rows of the implicit matrix: channels times window positions.
    pub fn rows(&self) -> (r: usize)
        requires
            self.wf(),
        ensures
            r == self.src_rows(),
    {
        proof {
            let (c, kh, kw) = (self.channels as int, self.geom.kernel_h as int, self.geom.kernel_w as int);
            assert(c * kh <= c * kh * kw) by (nonlinear_arith)
                requires
                    c >= 0,
                    kh >= 0,
                    kw >= 1,
            ;
        }
        self.channels * self.geom.kernel_h * self.geom.kernel_w
    }

    /// Columns of the implicit matrix: output positions.
    pub fn cols(&self) -> (r: usize)
        requires
            self.wf(),
        ensures
            r == self.src_cols(),
    {
        self.out_h * self.out_w
    }
}

fn axis_out_size(size: usize, pad_a: usize, pad_b: usize, kernel: usize, stride: usize, dilation: usize) -> (r: usize)
    requires
        kernel > 0,
        stride > 0,
        size + pad_a + pad_b + dilation * kernel <= usize::MAX,
    ensures
        r == out_size(size as int, pad_a as int, pad_b as int, kernel as int, stride as int, dilation as int),
{
    proof {
        let (d, k) = (dilation as int, kernel as int);
        assert(d * (k - 1) <= d * k && d * (k - 1) + 1 <= usize::MAX) by (nonlinear_arith)
            requires
                k > 0,
                d >= 0,
                d * k <= usize::MAX,
        ;
    }
    let span = dilation * (kernel - 1) + 1;
    let total = size + pad_a + pad_b;
    if total < span {
        0
    } else {
        proof {
            let (t, sp, st) = (total as int, span as int, stride as int);
            assert((t - sp) / st <= t - sp) by (nonlinear_arith)
                requires
                    st > 0,
                    t >= sp,
            ;
        }
        (total - span) / stride + 1
    }
}

proof fn lemma_div_bound(i: int, a: int, b: int)
    requires
        a > 0,
        0 <= i < a * b,
    ensures
        0 <= i / a < b,
        0 <= i % a < a,
{
    assert(0 <= i / a < b && 0 <= i % a < a) by (nonlinear_arith)
        requires
            a > 0,
            0 <= i < a * b,
    ;
}

impl<T: Copy> PanelSource<T> for Im2Col<T> {
    open spec fn src_wf(&self) -> bool {
        self.wf()
    }

    open spec fn src_rows(&self) -> nat {
        (self.dims().0 * self.geom_view().kernel_h * self.geom_view().kernel_w) as nat
    }

    open spec fn src_cols(&self) -> nat {
        self.out_dims().0 * self.out_dims().1
    }

    open spec fn src_at(&self, i: int, j: int) -> T {
        self.sample(i, j)
    }

    fn get_at(&self, i: usize, j: usize) -> (r: T) {
        let g = self.geom;
        let (c, h, w) = (self.channels, self.height, self.width);
        proof {
            assert(c * g.kernel_h * g.kernel_w == c * (g.kernel_h * g.kernel_w)) by (nonlinear_arith);
            assert(c >= 1) by (nonlinear_arith)
                requires
                    i < c * (g.kernel_h * g.kernel_w),
            ;
            assert(g.kernel_h * g.kernel_w <= c * (g.kernel_h * g.kernel_w)) by (nonlinear_arith)
                requires
                    c >= 1,
            ;
            assert(g.kernel_h * g.kernel_w > 0) by (nonlinear_arith)
                requires
                    g.kernel_h > 0,
                    g.kernel_w > 0,
            ;
        }
        let khw = g.kernel_h * g.kernel_w;
        let ch = i / khw;
        let rem = i % khw;
        let ky = rem / g.kernel_w;
        let kx = i % g.kernel_w;
        proof {
            assert(khw * c == c * khw) by (nonlinear_arith);
            lemma_div_bound(i as int, khw as int, c as int);
            assert(khw == g.kernel_w * g.kernel_h) by (nonlinear_arith)
                requires
                    khw == g.kernel_h * g.kernel_w,
            ;
            lemma_div_bound(rem as int, g.kernel_w as int, g.kernel_h as int);
            assert(self.out_h >= 1) by (nonlinear_arith)
                requires
                    j < self.out_h * self.out_w,
            ;
            assert(self.out_w >= 1) by (nonlinear_arith)
                requires
                    j < self.out_h * self.out_w,
            ;
            assert(self.out_h * self.out_w == self.out_w * self.out_h) by (nonlinear_arith);
            lemma_div_bound(j as int, self.out_w as int, self.out_h as int);
        }
        let oy = j / self.out_w;
        let ox = j % self.out_w;
        proof {
            let oh = self.out_h as int;
            let ow = self.out_w as int;
            let sh = g.stride_h as int;
            let sw = g.stride_w as int;
            // The last window position fits: it starts within height plus
            // padding.
            let th = h + g.pad_top + g.pad_bottom;
            let spanh = g.dilation_h * (g.kernel_h - 1) + 1;
            assert(th >= spanh);
            let qh = (th - spanh) / sh;
            assert(oh == qh + 1);
            assert(qh * sh <= th - spanh) by (nonlinear_arith)
                requires
                    sh > 0,
                    th >= spanh,
                    qh == (th - spanh) / sh,
            ;
            let tw = w + g.pad_left + g.pad_right;
            let spanw = g.dilation_w * (g.kernel_w - 1) + 1;
            assert(tw >= spanw);
            let qw = (tw - spanw) / sw;
            assert(ow == qw + 1);
            assert(qw * sw <= tw - spanw) by (nonlinear_arith)
                requires
                    sw > 0,
                    tw >= spanw,
                    qw == (tw - spanw) / sw,
            ;
            assert(g.dilation_h * (g.kernel_h - 1) >= 0) by (nonlinear_arith)
                requires
                    g.kernel_h >= 1,
            ;
            assert(g.dilation_w * (g.kernel_w - 1) >= 0) by (nonlinear_arith)
                requires
                    g.kernel_w >= 1,
            ;
            assert(oy * sh <= (oh - 1) * sh) by (nonlinear_arith)
                requires
                    oy < oh,
                    sh >= 0,
            ;
            assert(ox * sw <= (ow - 1) * sw) by (nonlinear_arith)
                requires
                    ox < ow,
                    sw >= 0,
            ;
            assert(ky * g.dilation_h <= g.dilation_h * g.kernel_h) by (nonlinear_arith)
                requires
                    ky < g.kernel_h,
            ;
            assert(kx * g.dilation_w <= g.dilation_w * g.kernel_w) by (nonlinear_arith)
                requires
                    kx < g.kernel_w,
            ;
        }
        let yy = oy * g.stride_h + ky * g.dilation_h;
        let xx = ox * g.stride_w + kx * g.dilation_w;
        if yy < g.pad_top || xx < g.pad_left {
            return self.zero;
        }
        let y = yy - g.pad_top;
        let x = xx - g.pad_left;
        if y < h && x < w {
            proof {
                assert(ch * h + y < c * h) by (nonlinear_arith)
                    requires
                        ch < c,
                        y < h,
                ;
                assert((ch * h + y) * w + x < c * h * w) by (nonlinear_arith)
                    requires
                        ch < c,
                        y < h,
                        x < w,
                ;
                assert(c * h <= c * h * w) by (nonlinear_arith)
                    requires
                        x < w,
                        c >= 0,
                        h >= 0,
                ;
                assert(0 <= (ch * h + y) * w + x) by (nonlinear_arith)
                    requires
                        ch >= 0,
                        y >= 0,
                        x >= 0,
                        h >= 0,
                        w >= 0,
                ;
            }
            self.image[(ch * h + y) * w + x]
        } else {
            self.zero
        }
    }
}

} // verus!
