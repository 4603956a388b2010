//! Shapes and strides of n-dimensional arrays, and the maps from logical
//! positions to offsets in an element buffer.
use vstd::prelude::*;

verus! {

/// Number of elements of an array with dimensions `s`.
pub open spec fn product(s: Seq<usize>) -> nat
    decreases s.len(),
{
    if s.len() == 0 {
        1
    } else {
        s[0] as nat * product(s.drop_first())
    }
}

/// Every trailing product of `s` fits in a `usize`.
pub open spec fn shape_fits(s: Seq<usize>) -> bool {
    forall|i: int| 0 <= i <= s.len() ==> #[trigger] product(s.skip(i)) <= usize::MAX
}

/// Row-major strides: the stride of a dimension is the number of elements of
/// the dimensions after it.
pub open spec fn contiguous_strides(s: Seq<usize>) -> Seq<usize> {
    Seq::new(s.len(), |i: int| product(s.skip(i + 1)) as usize)
}

/// Largest offset reached by an index of `shape` (all dimensions non-empty).
pub open spec fn max_offset(shape: Seq<usize>, strides: Seq<usize>) -> int
    decreases shape.len(),
{
    if shape.len() == 0 {
        0
    } else {
        (shape[0] - 1) * strides[0] + max_offset(shape.drop_first(), strides.drop_first())
    }
}

/// Offset of the `k`-th element in row-major logical order.
pub open spec fn logical_offset(shape: Seq<usize>, strides: Seq<usize>, k: int) -> int
    decreases shape.len(),
{
    if shape.len() == 0 {
        0
    } else {
        let inner = product(shape.drop_first()) as int;
        (k / inner) * strides[0] + logical_offset(shape.drop_first(), strides.drop_first(), k % inner)
    }
}

/// Offset of the element at multi-dimensional index `index`.
pub open spec fn index_offset(index: Seq<usize>, strides: Seq<usize>) -> int
    decreases index.len(),
{
    if index.len() == 0 {
        0
    } else {
        index[0] * strides[0] + index_offset(index.drop_first(), strides.drop_first())
    }
}

/// `index` addresses an element of an array of dimensions `shape`.
pub open spec fn valid_index(index: Seq<usize>, shape: Seq<usize>) -> bool {
    &&& index.len() == shape.len()
    &&& forall|i: int| 0 <= i < shape.len() ==> #[trigger] index[i] < shape[i]
}

pub proof fn lemma_product_positive(s: Seq<usize>)
    requires
        product(s) > 0,
    ensures
        s.len() > 0 ==> s[0] > 0 && product(s.drop_first()) > 0,
{
    if s.len() > 0 {
        assert(s[0] as nat * product(s.drop_first()) > 0);
        if s[0] == 0 {
            assert(s[0] as nat * product(s.drop_first()) == 0);
        }
        if product(s.drop_first()) == 0 {
            assert(s[0] as nat * product(s.drop_first()) == 0);
        }
    }
}

pub proof fn lemma_shape_fits_tail(s: Seq<usize>)
    requires
        shape_fits(s),
        s.len() > 0,
    ensures
        shape_fits(s.drop_first()),
        product(s) <= usize::MAX,
{
    assert(s.skip(0) =~= s);
    assert forall|i: int| 0 <= i <= s.drop_first().len() implies #[trigger] product(
        s.drop_first().skip(i),
    ) <= usize::MAX by {
        assert(s.drop_first().skip(i) =~= s.skip(i + 1));
    }
}

/// The `k`-th logical element of a layout lies within `0..=max_offset`.
pub proof fn lemma_logical_offset_bound(shape: Seq<usize>, strides: Seq<usize>, k: int)
    requires
        strides.len() == shape.len(),
        0 <= k < product(shape),
    ensures
        0 <= logical_offset(shape, strides, k) <= max_offset(shape, strides),
    decreases shape.len(),
{
    if shape.len() > 0 {
        lemma_product_positive(shape);
        let inner = product(shape.drop_first()) as int;
        let s0 = shape[0] as int;
        let st = strides[0] as int;
        let q = k / inner;
        let r = k % inner;
        assert(k < s0 * inner);
        assert(0 <= q < s0) by (nonlinear_arith)
            requires
                inner > 0,
                0 <= k < s0 * inner,
                q == k / inner,
        ;
        assert(0 <= r < inner) by (nonlinear_arith)
            requires
                inner > 0,
                r == k % inner,
        ;
        assert(0 <= q * st <= (s0 - 1) * st) by (nonlinear_arith)
            requires
                0 <= q < s0,
                st >= 0,
        ;
        lemma_logical_offset_bound(shape.drop_first(), strides.drop_first(), r);
    }
}

/// A valid index lies within `0..=max_offset`.
pub proof fn lemma_index_offset_bound(index: Seq<usize>, shape: Seq<usize>, strides: Seq<usize>)
    requires
        strides.len() == shape.len(),
        valid_index(index, shape),
    ensures
        0 <= index_offset(index, strides) <= max_offset(shape, strides),
    decreases shape.len(),
{
    if shape.len() > 0 {
        let i0 = index[0] as int;
        let s0 = shape[0] as int;
        let st = strides[0] as int;
        assert(i0 < s0);
        assert(0 <= i0 * st <= (s0 - 1) * st) by (nonlinear_arith)
            requires
                0 <= i0 < s0,
                st >= 0,
        ;
        assert forall|i: int| 0 <= i < shape.drop_first().len() implies #[trigger] index.drop_first()[i]
            < shape.drop_first()[i] by {
            assert(index[i + 1] < shape[i + 1]);
        }
        lemma_index_offset_bound(index.drop_first(), shape.drop_first(), strides.drop_first());
    }
}

/// Row-major strides visit offsets `0, 1, 2, ...` in logical order.
pub proof fn lemma_contiguous_offsets(shape: Seq<usize>, k: int)
    requires
        shape_fits(shape),
        0 <= k < product(shape),
    ensures
        logical_offset(shape, contiguous_strides(shape), k) == k,
        max_offset(shape, contiguous_strides(shape)) == product(shape) - 1,
    decreases shape.len(),
{
    if shape.len() > 0 {
        lemma_product_positive(shape);
        lemma_shape_fits_tail(shape);
        let tail = shape.drop_first();
        let cs = contiguous_strides(shape);
        let inner = product(tail) as int;
        assert(shape.skip(1) =~= tail);
        assert(product(shape.skip(1)) <= usize::MAX);
        assert(cs[0] as int == inner);
        assert(cs.drop_first() =~= contiguous_strides(tail)) by {
            assert forall|i: int| 0 <= i < tail.len() implies cs.drop_first()[i]
                == contiguous_strides(tail)[i] by {
                assert(tail.skip(i + 1) =~= shape.skip(i + 2));
            }
        }
        let q = k / inner;
        let r = k % inner;
        assert(0 <= r < inner && k == q * inner + r) by (nonlinear_arith)
            requires
                inner > 0,
                q == k / inner,
                r == k % inner,
        ;
        lemma_contiguous_offsets(tail, r);
        let s0 = shape[0] as int;
        assert((s0 - 1) * inner + (inner - 1) == s0 * inner - 1) by (nonlinear_arith);
    }
}

} // verus!

verus! {

/// Shape and strides of an n-dimensional array whose rank is known only at
/// run time.
#[derive(Clone)]
pub struct DynLayout {
    shape: Vec<usize>,
    strides: Vec<usize>,
}

/// Row-major strides of `shape`.
pub fn contiguous_strides_of(shape: &[usize]) -> (r: Vec<usize>)
    requires
        shape_fits(shape@),
    ensures
        r@ == contiguous_strides(shape@),
{
    let n = shape.len();
    let mut r: Vec<usize> = Vec::new();
    let mut j: usize = 0;
    while j < n
        invariant
            j <= n == shape@.len(),
            r@.len() == j,
        decreases n - j,
    {
        r.push(0);
        j += 1;
    }
    let mut p: usize = 1;
    let mut i: usize = n;
    assert(shape@.skip(n as int) =~= Seq::<usize>::empty());
    while i > 0
        invariant
            i <= n == shape@.len() == r@.len(),
            shape_fits(shape@),
            p as nat == product(shape@.skip(i as int)),
            forall|t: int| i <= t < n ==> r@[t] == contiguous_strides(shape@)[t],
        decreases i,
    {
        i -= 1;
        r.set(i, p);
        assert(shape@.skip(i as int).drop_first() =~= shape@.skip(i + 1));
        assert(product(shape@.skip(i as int)) <= usize::MAX);
        p = shape[i] * p;
    }
    assert(r@ =~= contiguous_strides(shape@));
    r
}

/// A vector holding the elements of `s`.
pub fn copy_slice<T: Copy>(s: &[T]) -> (r: Vec<T>)
    ensures
        r@ == s@,
{
    let mut r: Vec<T> = Vec::new();
    let mut i: usize = 0;
    while i < s.len()
        invariant
            i <= s@.len(),
            r@ == s@.subrange(0, i as int),
        decreases s@.len() - i,
    {
        r.push(s[i]);
        i += 1;
    }
    assert(r@ =~= s@);
    r
}

/// Number of elements of `shape`.
pub fn shape_len(shape: &[usize]) -> (r: usize)
    requires
        shape_fits(shape@),
    ensures
        r == product(shape@),
{
    let mut p: usize = 1;
    let mut i: usize = shape.len();
    assert(shape@.skip(i as int) =~= Seq::<usize>::empty());
    while i > 0
        invariant
            i <= shape@.len(),
            shape_fits(shape@),
            p as nat == product(shape@.skip(i as int)),
        decreases i,
    {
        i -= 1;
        assert(shape@.skip(i as int).drop_first() =~= shape@.skip(i + 1));
        assert(product(shape@.skip(i as int)) <= usize::MAX);
        p = shape[i] * p;
    }
    assert(shape@.skip(0) =~= shape@);
    p
}

impl DynLayout {
    pub closed spec fn shape_view(&self) -> Seq<usize> {
        self.shape@
    }

    pub closed spec fn strides_view(&self) -> Seq<usize> {
        self.strides@
    }

    /// One stride per dimension, and a shape whose sizes multiply within
    /// `usize`.
    pub open spec fn wf(&self) -> bool {
        &&& self.strides_view().len() == self.shape_view().len()
        &&& shape_fits(self.shape_view())
    }

    /// Every logical element's offset fits in a `usize`.
    pub open spec fn offsets_fit(&self) -> bool {
        product(self.shape_view()) == 0 || max_offset(self.shape_view(), self.strides_view())
            < usize::MAX
    }

    /// A contiguous (row-major) layout with the given shape.
    pub fn new(shape: &[usize]) -> (r: Self)
        requires
            shape_fits(shape@),
        ensures
            r.wf(),
            r.shape_view() == shape@,
            r.strides_view() == contiguous_strides(shape@),
    {
        let strides = contiguous_strides_of(shape);
        DynLayout { shape: copy_slice(shape), strides }
    }

    /// A layout with the same shape and strides.
    pub fn copy(&self) -> (r: Self)
        ensures
            r.shape_view() == self.shape_view(),
            r.strides_view() == self.strides_view(),
    {
        DynLayout { shape: copy_slice(self.shape.as_slice()), strides: copy_slice(self.strides.as_slice()) }
    }

    pub fn ndim(&self) -> (r: usize)
        ensures
            r == self.shape_view().len(),
    {
        self.shape.len()
    }

    pub fn shape(&self) -> (r: &[usize])
        ensures
            r@ == self.shape_view(),
    {
        self.shape.as_slice()
    }

    pub fn strides(&self) -> (r: &[usize])
        ensures
            r@ == self.strides_view(),
    {
        self.strides.as_slice()
    }

    pub fn size(&self, dim: usize) -> (r: usize)
        requires
            dim < self.shape_view().len(),
        ensures
            r == self.shape_view()[dim as int],
    {
        self.shape[dim]
    }

    pub fn stride(&self, dim: usize) -> (r: usize)
        requires
            dim < self.strides_view().len(),
        ensures
            r == self.strides_view()[dim as int],
    {
        self.strides[dim]
    }

    /// Number of elements.
    pub fn len(&self) -> (r: usize)
        requires
            self.wf(),
        ensures
            r == product(self.shape_view()),
    {
        shape_len(self.shape.as_slice())
    }

    pub fn is_empty(&self) -> (r: bool)
        requires
            self.wf(),
        ensures
            r == (product(self.shape_view()) == 0),
    {
        self.len() == 0
    }

    /// Whether the strides are the row-major strides of the shape.
    pub fn is_contiguous(&self) -> (r: bool)
        requires
            self.wf(),
        ensures
            r == (self.strides_view() == contiguous_strides(self.shape_view())),
    {
        let cs = contiguous_strides_of(self.shape.as_slice());
        let n = self.strides.len();
        let mut i: usize = 0;
        while i < n
            invariant
                i <= n == self.strides@.len() == cs@.len(),
                cs@ == contiguous_strides(self.shape_view()),
                forall|t: int| 0 <= t < i ==> self.strides@[t] == cs@[t],
            decreases n - i,
        {
            if self.strides[i] != cs[i] {
                assert(self.strides@[i as int] != cs@[i as int]);
                return false;
            }
            i += 1;
        }
        assert(self.strides@ =~= cs@);
        true
    }

    /// Offset of the `k`-th element in logical order; `cs` holds the
    /// row-major strides of the shape.
    fn logical_offset_at(&self, cs: &Vec<usize>, k: usize) -> (r: usize)
        requires
            self.wf(),
            cs@ == contiguous_strides(self.shape_view()),
            k < product(self.shape_view()),
            max_offset(self.shape_view(), self.strides_view()) < usize::MAX,
        ensures
            r == logical_offset(self.shape_view(), self.strides_view(), k as int),
    {
        let ghost shape = self.shape@;
        let ghost strides = self.strides@;
        let ghost total = logical_offset(shape, strides, k as int);
        proof {
            lemma_logical_offset_bound(shape, strides, k as int);
            assert(shape.skip(0) =~= shape);
            assert(strides.skip(0) =~= strides);
        }
        let n = self.shape.len();
        let mut rem = k;
        let mut off: usize = 0;
        let mut d: usize = 0;
        while d < n
            invariant
                self.wf(),
                shape == self.shape@,
                strides == self.strides@,
                cs@ == contiguous_strides(shape),
                d <= n == shape.len(),
                rem < product(shape.skip(d as int)),
                off + logical_offset(shape.skip(d as int), strides.skip(d as int), rem as int)
                    == total,
                0 <= total < usize::MAX,
            decreases n - d,
        {
            let ghost sd = shape.skip(d as int);
            let ghost td = strides.skip(d as int);
            proof {
                assert(sd.drop_first() =~= shape.skip(d + 1));
                assert(td.drop_first() =~= strides.skip(d + 1));
                assert(product(shape.skip(d + 1)) <= usize::MAX);
                lemma_product_positive(sd);
            }
            let inner = cs[d];
            let q = rem / inner;
            let r2 = rem % inner;
            proof {
                assert(0 <= r2 < inner) by (nonlinear_arith)
                    requires
                        inner > 0,
                        r2 == rem % inner,
                ;
                lemma_logical_offset_bound(sd.drop_first(), td.drop_first(), r2 as int);
                assert(q * strides[d as int] >= 0) by (nonlinear_arith)
                    requires
                        q >= 0,
                        strides[d as int] >= 0,
                ;
            }
            let term = q * self.strides[d];
            off = off + term;
            rem = r2;
            d += 1;
        }
        proof {
            assert(shape.skip(n as int) =~= Seq::<usize>::empty());
        }
        off
    }

    /// Offsets of all elements in logical (row-major index) order.
    pub fn offsets(&self) -> (r: Vec<usize>)
        requires
            self.wf(),
            self.offsets_fit(),
        ensures
            r@.len() == product(self.shape_view()),
            forall|k: int|
                0 <= k < r@.len() ==> #[trigger] r@[k] == logical_offset(
                    self.shape_view(),
                    self.strides_view(),
                    k,
                ),
    {
        let n = self.len();
        let cs = contiguous_strides_of(self.shape.as_slice());
        let mut out: Vec<usize> = Vec::new();
        let mut k: usize = 0;
        while k < n
            invariant
                self.wf(),
                self.offsets_fit(),
                n == product(self.shape_view()),
                cs@ == contiguous_strides(self.shape_view()),
                k <= n,
                out@.len() == k,
                forall|t: int|
                    0 <= t < k ==> #[trigger] out@[t] == logical_offset(
                        self.shape_view(),
                        self.strides_view(),
                        t,
                    ),
            decreases n - k,
        {
            let o = self.logical_offset_at(&cs, k);
            out.push(o);
            k += 1;
        }
        out
    }
}

} // verus!

verus! {

impl DynLayout {
    /// Offset of the element at `index`.
    pub fn offset(&self, index: &[usize]) -> (r: usize)
        requires
            self.wf(),
            valid_index(index@, self.shape_view()),
            max_offset(self.shape_view(), self.strides_view()) < usize::MAX,
        ensures
            r == index_offset(index@, self.strides_view()),
    {
        let ghost idx = index@;
        let ghost shape = self.shape@;
        let ghost strides = self.strides@;
        let ghost total = index_offset(idx, strides);
        proof {
            lemma_index_offset_bound(idx, shape, strides);
            assert(idx.skip(0) =~= idx);
            assert(strides.skip(0) =~= strides);
        }
        let n = index.len();
        let mut off: usize = 0;
        let mut d: usize = 0;
        while d < n
            invariant
                self.wf(),
                shape == self.shape@,
                strides == self.strides@,
                idx == index@,
                valid_index(idx, shape),
                d <= n == idx.len(),
                off + index_offset(idx.skip(d as int), strides.skip(d as int)) == total,
                0 <= total < usize::MAX,
            decreases n - d,
        {
            proof {
                let sd = shape.skip(d as int);
                assert(idx.skip(d as int).drop_first() =~= idx.skip(d + 1));
                assert(strides.skip(d as int).drop_first() =~= strides.skip(d + 1));
                assert(valid_index(idx.skip(d + 1), shape.skip(d + 1)));
                lemma_index_offset_bound(idx.skip(d + 1), shape.skip(d + 1), strides.skip(d + 1));
                assert(index[d as int] * strides[d as int] >= 0) by (nonlinear_arith)
                    requires
                        index[d as int] >= 0,
                        strides[d as int] >= 0,
                ;
            }
            off = off + index[d] * self.strides[d];
            d += 1;
        }
        proof {
            assert(idx.skip(n as int) =~= Seq::<usize>::empty());
        }
        off
    }
}

} // verus!

verus! {

/// Moving coordinate `d` of an index by `s` moves its offset by `s` strides.
pub proof fn lemma_index_offset_shift(index: Seq<usize>, strides: Seq<usize>, d: int, x: usize)
    requires
        index.len() == strides.len(),
        0 <= d < index.len(),
    ensures
        index_offset(index.update(d, x), strides) == index_offset(index, strides) + (x - index[d])
            * strides[d],
    decreases index.len(),
{
    if d == 0 {
        assert(index.update(0, x).drop_first() =~= index.drop_first());
        let (a, b, s) = (x as int, index[0] as int, strides[0] as int);
        assert(a * s == b * s + (a - b) * s) by (nonlinear_arith);
    } else {
        assert(index.update(d, x).drop_first() =~= index.drop_first().update(d - 1, x));
        lemma_index_offset_shift(index.drop_first(), strides.drop_first(), d - 1, x);
    }
}

/// Changing the size of dimension `d` changes the largest offset by the
/// difference in size times its stride.
pub proof fn lemma_max_offset_resize(shape: Seq<usize>, strides: Seq<usize>, d: int, v: usize)
    requires
        shape.len() == strides.len(),
        0 <= d < shape.len(),
    ensures
        max_offset(shape.update(d, v), strides) == max_offset(shape, strides) + (v - shape[d])
            * strides[d],
    decreases shape.len(),
{
    if d == 0 {
        assert(shape.update(0, v).drop_first() =~= shape.drop_first());
        let (a, b, s) = (v as int, shape[0] as int, strides[0] as int);
        assert((a - 1) * s == (b - 1) * s + (a - b) * s) by (nonlinear_arith);
    } else {
        assert(shape.update(d, v).drop_first() =~= shape.drop_first().update(d - 1, v));
        lemma_max_offset_resize(shape.drop_first(), strides.drop_first(), d - 1, v);
    }
}

/// Shrinking one dimension does not increase the number of elements.
pub proof fn lemma_product_shrink(shape: Seq<usize>, d: int, v: usize)
    requires
        0 <= d < shape.len(),
        v <= shape[d],
    ensures
        product(shape.update(d, v)) <= product(shape),
    decreases shape.len(),
{
    if d == 0 {
        assert(shape.update(0, v).drop_first() =~= shape.drop_first());
        let p = product(shape.drop_first());
        assert(v as nat * p <= shape[0] as nat * p) by (nonlinear_arith)
            requires
                v <= shape[0],
        ;
    } else {
        assert(shape.update(d, v).drop_first() =~= shape.drop_first().update(d - 1, v));
        lemma_product_shrink(shape.drop_first(), d - 1, v);
        let p1 = product(shape.update(d, v).drop_first());
        let p2 = product(shape.drop_first());
        assert(shape[0] as nat * p1 <= shape[0] as nat * p2) by (nonlinear_arith)
            requires
                p1 <= p2,
        ;
    }
}

pub proof fn lemma_shape_fits_shrink(shape: Seq<usize>, d: int, v: usize)
    requires
        shape_fits(shape),
        0 <= d < shape.len(),
        v <= shape[d],
    ensures
        shape_fits(shape.update(d, v)),
{
    let s2 = shape.update(d, v);
    assert forall|i: int| 0 <= i <= s2.len() implies #[trigger] product(s2.skip(i))
        <= usize::MAX by {
        assert(product(shape.skip(i)) <= usize::MAX);
        if i <= d {
            assert(s2.skip(i) =~= shape.skip(i).update(d - i, v));
            lemma_product_shrink(shape.skip(i), d - i, v);
        } else {
            assert(s2.skip(i) =~= shape.skip(i));
        }
    }
}

impl DynLayout {
    /// Set the size of dimension `dim` to `new_size`, which must not exceed
    /// the current size; strides are unchanged.
    pub fn resize_dim(&mut self, dim: usize, new_size: usize)
        requires
            old(self).wf(),
            dim < old(self).shape_view().len(),
            new_size <= old(self).shape_view()[dim as int],
        ensures
            final(self).wf(),
            final(self).shape_view() == old(self).shape_view().update(dim as int, new_size),
            final(self).strides_view() == old(self).strides_view(),
    {
        proof {
            lemma_shape_fits_shrink(self.shape@, dim as int, new_size);
        }
        self.shape.set(dim, new_size);
    }

    /// One past the largest offset of an element; zero when there is none.
    pub fn end_offset(&self) -> (r: usize)
        requires
            self.wf(),
            self.offsets_fit(),
        ensures
            r == (if product(self.shape_view()) == 0 {
                0
            } else {
                max_offset(self.shape_view(), self.strides_view()) + 1
            }),
    {
        if self.is_empty() {
            return 0;
        }
        let ghost shape = self.shape@;
        let ghost strides = self.strides@;
        let ghost total = max_offset(shape, strides);
        proof {
            assert(shape.skip(0) =~= shape);
            assert(strides.skip(0) =~= strides);
            lemma_max_offset_nonneg(shape, strides);
        }
        let n = self.shape.len();
        let mut off: usize = 0;
        let mut d: usize = 0;
        while d < n
            invariant
                self.wf(),
                shape == self.shape@,
                strides == self.strides@,
                product(shape) > 0,
                d <= n == shape.len(),
                off + max_offset(shape.skip(d as int), strides.skip(d as int)) == total,
                0 <= total < usize::MAX,
            decreases n - d,
        {
            proof {
                assert(shape.skip(d as int).drop_first() =~= shape.skip(d + 1));
                assert(strides.skip(d as int).drop_first() =~= strides.skip(d + 1));
                lemma_product_suffix_positive(shape, d + 1);
                lemma_max_offset_nonneg(shape.skip(d + 1), strides.skip(d + 1));
                lemma_product_suffix_positive(shape, d as int);
                lemma_product_positive(shape.skip(d as int));
                assert((shape[d as int] - 1) * strides[d as int] >= 0) by (nonlinear_arith)
                    requires
                        shape[d as int] >= 1,
                        strides[d as int] >= 0,
                ;
            }
            off = off + (self.shape[d] - 1) * self.strides[d];
            d += 1;
        }
        proof {
            assert(shape.skip(n as int) =~= Seq::<usize>::empty());
        }
        off + 1
    }
}

/// Every suffix of a shape with elements has elements.
pub proof fn lemma_product_suffix_positive(shape: Seq<usize>, i: int)
    requires
        product(shape) > 0,
        0 <= i <= shape.len(),
    ensures
        product(shape.skip(i)) > 0,
    decreases i,
{
    if i == 0 {
        assert(shape.skip(0) =~= shape);
    } else {
        lemma_product_suffix_positive(shape, i - 1);
        lemma_product_positive(shape.skip(i - 1));
        assert(shape.skip(i - 1).drop_first() =~= shape.skip(i));
    }
}

/// With no empty dimension, the largest offset is not negative.
pub proof fn lemma_max_offset_nonneg(shape: Seq<usize>, strides: Seq<usize>)
    requires
        shape.len() == strides.len(),
        product(shape) > 0,
    ensures
        max_offset(shape, strides) >= 0,
{
    lemma_logical_offset_bound(shape, strides, 0);
}

/// A shape with elements has every dimension non-empty.
pub proof fn lemma_product_positive_all(shape: Seq<usize>, d: int)
    requires
        product(shape) > 0,
        0 <= d < shape.len(),
    ensures
        shape[d] > 0,
    decreases d,
{
    lemma_product_positive(shape);
    if d > 0 {
        lemma_product_positive_all(shape.drop_first(), d - 1);
    }
}

pub proof fn lemma_product_insert_unit(shape: Seq<usize>, d: int)
    requires
        0 <= d <= shape.len(),
    ensures
        product(shape.insert(d, 1)) == product(shape),
    decreases d,
{
    let si = shape.insert(d, 1);
    if d == 0 {
        assert(si.drop_first() =~= shape);
        assert(si[0] == 1);
    } else {
        assert(si.drop_first() =~= shape.drop_first().insert(d - 1, 1));
        lemma_product_insert_unit(shape.drop_first(), d - 1);
        assert(si[0] == shape[0]);
    }
}

/// A dimension of size one changes neither the number of elements, nor the
/// offsets in logical order, nor the largest offset.
pub proof fn lemma_insert_unit_dim(shape: Seq<usize>, strides: Seq<usize>, d: int, x: usize)
    requires
        shape.len() == strides.len(),
        0 <= d <= shape.len(),
    ensures
        product(shape.insert(d, 1)) == product(shape),
        max_offset(shape.insert(d, 1), strides.insert(d, x)) == max_offset(shape, strides),
        forall|k: int|
            0 <= k < product(shape) ==> #[trigger] logical_offset(
                shape.insert(d, 1),
                strides.insert(d, x),
                k,
            ) == logical_offset(shape, strides, k),
    decreases d,
{
    let si = shape.insert(d, 1);
    let ti = strides.insert(d, x);
    lemma_product_insert_unit(shape, d);
    if d == 0 {
        assert(si.drop_first() =~= shape);
        assert(ti.drop_first() =~= strides);
        assert(si[0] == 1);
        assert(product(si) == 1 * product(shape));
        assert forall|k: int| 0 <= k < product(shape) implies #[trigger] logical_offset(si, ti, k)
            == logical_offset(shape, strides, k) by {
            let p = product(shape) as int;
            assert(k / p == 0 && k % p == k) by (nonlinear_arith)
                requires
                    0 <= k < p,
            ;
        }
    } else {
        assert(si.drop_first() =~= shape.drop_first().insert(d - 1, 1));
        assert(ti.drop_first() =~= strides.drop_first().insert(d - 1, x));
        lemma_insert_unit_dim(shape.drop_first(), strides.drop_first(), d - 1, x);
        assert(si[0] == shape[0]);
        assert(ti[0] == strides[0]);
        assert(product(si) == shape[0] as nat * product(si.drop_first()));
        assert(product(si.drop_first()) == product(shape.drop_first()));
        assert(product(si) == product(shape));
        assert forall|k: int| 0 <= k < product(shape) implies #[trigger] logical_offset(si, ti, k)
            == logical_offset(shape, strides, k) by {
            lemma_product_positive(shape);
            let inner = product(shape.drop_first()) as int;
            assert(0 <= k % inner < inner) by (nonlinear_arith)
                requires
                    inner > 0,
            ;
            let t1 = shape.drop_first().insert(d - 1, 1);
            let t2 = strides.drop_first().insert(d - 1, x);
            assert(product(si.drop_first()) == inner);
            assert(logical_offset(si, ti, k) == (k / inner) * strides[0] + logical_offset(
                t1,
                t2,
                k % inner,
            ));
            assert(logical_offset(t1, t2, k % inner) == logical_offset(
                shape.drop_first(),
                strides.drop_first(),
                k % inner,
            ));
        }
    }
}

pub proof fn lemma_shape_fits_insert(shape: Seq<usize>, d: int)
    requires
        shape_fits(shape),
        0 <= d <= shape.len(),
    ensures
        shape_fits(shape.insert(d, 1)),
{
    let si = shape.insert(d, 1);
    assert forall|i: int| 0 <= i <= si.len() implies #[trigger] product(si.skip(i))
        <= usize::MAX by {
        if i <= d {
            assert(si.skip(i) =~= shape.skip(i).insert(d - i, 1));
            lemma_insert_unit_dim(shape.skip(i), shape.skip(i), d - i, 0);
            assert(product(shape.skip(i)) <= usize::MAX);
        } else {
            assert(si.skip(i) =~= shape.skip(i - 1));
            assert(product(shape.skip(i - 1)) <= usize::MAX);
        }
    }
}

/// Number of elements of dimensions `from ..` of `shape`.
pub fn suffix_product(shape: &[usize], from: usize) -> (r: usize)
    requires
        shape_fits(shape@),
        from <= shape@.len(),
    ensures
        r == product(shape@.skip(from as int)),
{
    let mut p: usize = 1;
    let mut i: usize = shape.len();
    assert(shape@.skip(i as int) =~= Seq::<usize>::empty());
    while i > from
        invariant
            from <= i <= shape@.len(),
            shape_fits(shape@),
            p as nat == product(shape@.skip(i as int)),
        decreases i,
    {
        i -= 1;
        assert(shape@.skip(i as int).drop_first() =~= shape@.skip(i + 1));
        assert(product(shape@.skip(i as int)) <= usize::MAX);
        p = shape[i] * p;
    }
    p
}

impl DynLayout {
    /// Insert a dimension of size one at `dim`, with the stride that keeps a
    /// contiguous layout contiguous.
    pub fn insert_dim(&mut self, dim: usize)
        requires
            old(self).wf(),
            dim <= old(self).shape_view().len(),
        ensures
            final(self).wf(),
            final(self).shape_view() == old(self).shape_view().insert(dim as int, 1),
            final(self).strides_view() == old(self).strides_view().insert(
                dim as int,
                product(old(self).shape_view().skip(dim as int)) as usize,
            ),
    {
        let stride = suffix_product(self.shape.as_slice(), dim);
        proof {
            lemma_shape_fits_insert(self.shape@, dim as int);
        }
        self.shape.insert(dim, 1);
        self.strides.insert(dim, stride);
    }
}

/// `shape` broadcasts to `target`: aligned at the last dimension, each of
/// its dimensions equals the target's or is one.
pub open spec fn can_broadcast(shape: Seq<usize>, target: Seq<usize>) -> bool {
    &&& shape.len() <= target.len()
    &&& forall|i: int|
        0 <= i < shape.len() ==> #[trigger] shape[i] == target[i + target.len() - shape.len()]
            || shape[i] == 1
}

/// Strides that read an array of `shape` as if it had shape `target`:
/// leading and stretched dimensions get stride zero.
pub open spec fn broadcast_strides(shape: Seq<usize>, strides: Seq<usize>, target: Seq<usize>) -> Seq<
    usize,
> {
    let lead = target.len() - shape.len();
    Seq::new(
        target.len(),
        |i: int|
            if i < lead {
                0
            } else if shape[i - lead] == target[i] {
                strides[i - lead]
            } else {
                0usize
            },
    )
}

/// Broadcasting reaches no offset that the array itself does not reach.
pub proof fn lemma_broadcast(shape: Seq<usize>, strides: Seq<usize>, target: Seq<usize>)
    requires
        strides.len() == shape.len(),
        can_broadcast(shape, target),
    ensures
        product(target) > 0 ==> product(shape) > 0 && max_offset(
            target,
            broadcast_strides(shape, strides, target),
        ) == max_offset(shape, strides),
    decreases target.len(),
{
    let bs = broadcast_strides(shape, strides, target);
    if target.len() == 0 {
    } else if target.len() > shape.len() {
        let tail = target.drop_first();
        assert(bs.drop_first() =~= broadcast_strides(shape, strides, tail));
        assert(can_broadcast(shape, tail)) by {
            assert forall|i: int| 0 <= i < shape.len() implies #[trigger] shape[i] == tail[i
                + tail.len() - shape.len()] || shape[i] == 1 by {
                assert(shape[i] == target[i + target.len() - shape.len()] || shape[i] == 1);
            }
        }
        lemma_broadcast(shape, strides, tail);
        if product(target) > 0 {
            lemma_product_positive(target);
            assert(bs[0] == 0);
            assert((target[0] - 1) * 0 == 0) by (nonlinear_arith);
        }
    } else {
        let tail = target.drop_first();
        let stail = shape.drop_first();
        assert(bs.drop_first() =~= broadcast_strides(stail, strides.drop_first(), tail));
        assert(can_broadcast(stail, tail)) by {
            assert forall|i: int| 0 <= i < stail.len() implies #[trigger] stail[i] == tail[i
                + tail.len() - stail.len()] || stail[i] == 1 by {
                assert(shape[i + 1] == target[i + 1] || shape[i + 1] == 1);
            }
        }
        lemma_broadcast(stail, strides.drop_first(), tail);
        if product(target) > 0 {
            lemma_product_positive(target);
            assert(shape[0] == target[0] || shape[0] == 1);
            if shape[0] != target[0] {
                assert(bs[0] == 0);
                assert((target[0] - 1) * 0 == 0) by (nonlinear_arith);
                assert((shape[0] - 1) * strides[0] == 0) by (nonlinear_arith)
                    requires
                        shape[0] == 1,
                ;
            }
            assert(shape[0] as nat * product(stail) > 0) by (nonlinear_arith)
                requires
                    shape[0] >= 1,
                    product(stail) > 0,
            ;
        }
    }
}

/// Whether `shape` broadcasts to `target`.
pub fn can_broadcast_to(shape: &[usize], target: &[usize]) -> (r: bool)
    ensures
        r == can_broadcast(shape@, target@),
{
    let n = shape.len();
    let m = target.len();
    if n > m {
        return false;
    }
    let lead = m - n;
    let mut i: usize = 0;
    while i < n
        invariant
            n == shape@.len(),
            m == target@.len(),
            n <= m,
            lead == m - n,
            i <= n,
            forall|j: int|
                0 <= j < i ==> #[trigger] shape@[j] == target@[j + m - n] || shape@[j] == 1,
        decreases n - i,
    {
        if shape[i] != target[i + lead] && shape[i] != 1 {
            assert(!(shape@[i as int] == target@[i + m - n] || shape@[i as int] == 1));
            return false;
        }
        i += 1;
    }
    true
}

impl DynLayout {
    /// This layout read as if it had shape `target`.
    pub fn broadcast(&self, target: &[usize]) -> (r: DynLayout)
        requires
            self.wf(),
            can_broadcast(self.shape_view(), target@),
            shape_fits(target@),
        ensures
            r.wf(),
            r.shape_view() == target@,
            r.strides_view() == broadcast_strides(self.shape_view(), self.strides_view(), target@),
    {
        let n = self.shape.len();
        let m = target.len();
        let lead = m - n;
        let mut strides: Vec<usize> = Vec::new();
        let mut i: usize = 0;
        while i < m
            invariant
                self.wf(),
                n == self.shape@.len(),
                m == target@.len(),
                can_broadcast(self.shape_view(), target@),
                lead == m - n,
                i <= m,
                strides@ =~= broadcast_strides(self.shape_view(), self.strides_view(), target@).subrange(
                    0,
                    i as int,
                ),
            decreases m - i,
        {
            let s = if i < lead {
                0
            } else if self.shape[i - lead] == target[i] {
                self.strides[i - lead]
            } else {
                0
            };
            strides.push(s);
            i += 1;
        }
        DynLayout { shape: copy_slice(target), strides }
    }
}

/// `dims` lists each of `0 .. n` exactly once.
pub open spec fn is_permutation(dims: Seq<usize>, n: int) -> bool {
    &&& dims.len() == n
    &&& forall|i: int| 0 <= i < n ==> #[trigger] dims[i] < n
    &&& forall|i: int, j: int| 0 <= i < n && 0 <= j < n && i != j ==> dims[i] != dims[j]
}

/// `s` reordered so that position `i` holds `s[dims[i]]`.
pub open spec fn permuted(s: Seq<usize>, dims: Seq<usize>) -> Seq<usize> {
    Seq::new(dims.len(), |i: int| s[dims[i] as int])
}

/// Sum of a sequence of integers.
pub open spec fn sum_int(s: Seq<int>) -> int
    decreases s.len(),
{
    if s.len() == 0 {
        0
    } else {
        s[0] + sum_int(s.drop_first())
    }
}

/// Terms of the largest offset: `(size - 1) * stride` for each dimension.
pub open spec fn offset_terms(shape: Seq<usize>, strides: Seq<usize>) -> Seq<int> {
    Seq::new(shape.len(), |i: int| (shape[i] - 1) * strides[i])
}

proof fn lemma_max_offset_sum(shape: Seq<usize>, strides: Seq<usize>)
    requires
        shape.len() == strides.len(),
    ensures
        max_offset(shape, strides) == sum_int(offset_terms(shape, strides)),
    decreases shape.len(),
{
    if shape.len() > 0 {
        assert(offset_terms(shape, strides).drop_first() =~= offset_terms(
            shape.drop_first(),
            strides.drop_first(),
        ));
        lemma_max_offset_sum(shape.drop_first(), strides.drop_first());
    }
}

/// Every value below `n` appears in a permutation of `n`.
proof fn lemma_permutation_onto(dims: Seq<usize>, n: int, v: int)
    requires
        is_permutation(dims, n),
        0 <= v < n,
    ensures
        exists|i: int| 0 <= i < n && dims[i] == v,
{
    let s = Seq::new(n as nat, |i: int| dims[i] as int);
    assert(s.no_duplicates());
    s.unique_seq_to_set();
    vstd::set_lib::lemma_int_range(0, n);
    let range = vstd::set_lib::set_int_range(0, n);
    assert(s.to_set().subset_of(range));
    vstd::set_lib::lemma_len_subset(s.to_set(), range);
    vstd::set_lib::lemma_subset_equality(s.to_set(), range);
    assert(range.contains(v));
    assert(s.to_set().contains(v));
    let i = choose|i: int| 0 <= i < s.len() && s[i] == v;
    assert(dims[i] == v);
}

proof fn lemma_sum_remove(u: Seq<int>, j: int)
    requires
        0 <= j < u.len(),
    ensures
        sum_int(u) == u[j] + sum_int(u.remove(j)),
    decreases j,
{
    if j == 0 {
        assert(u.remove(0) =~= u.drop_first());
    } else {
        lemma_sum_remove(u.drop_first(), j - 1);
        assert(u.remove(j).drop_first() =~= u.drop_first().remove(j - 1));
        assert(u.remove(j)[0] == u[0]);
    }
}

proof fn lemma_product_remove(u: Seq<usize>, j: int)
    requires
        0 <= j < u.len(),
    ensures
        product(u) == u[j] as nat * product(u.remove(j)),
    decreases j,
{
    if j == 0 {
        assert(u.remove(0) =~= u.drop_first());
    } else {
        lemma_product_remove(u.drop_first(), j - 1);
        assert(u.remove(j).drop_first() =~= u.drop_first().remove(j - 1));
        assert(u.remove(j)[0] == u[0]);
        let (a, b, c) = (u[0] as nat, u[j] as nat, product(u.drop_first().remove(j - 1)));
        assert(a * (b * c) == b * (a * c)) by (nonlinear_arith);
    }
}

/// Removing the position that holds zero from a permutation of `n`, and
/// lowering the other values by one, gives a permutation of `n - 1`.
pub open spec fn lower_permutation(dims: Seq<usize>, j: int) -> Seq<usize> {
    Seq::new((dims.len() - 1) as nat, |i: int| (dims.remove(j)[i] - 1) as usize)
}

proof fn lemma_lower_permutation(dims: Seq<usize>, n: int, j: int)
    requires
        is_permutation(dims, n),
        0 <= j < n,
        dims[j] == 0,
    ensures
        is_permutation(lower_permutation(dims, j), n - 1),
        forall|i: int|
            0 <= i < n - 1 ==> #[trigger] lower_permutation(dims, j)[i] + 1 == dims.remove(j)[i],
{
    let r = dims.remove(j);
    assert forall|i: int| 0 <= i < n - 1 implies r[i] >= 1 && r[i] < n by {
        if i < j {
            assert(r[i] == dims[i]);
        } else {
            assert(r[i] == dims[i + 1]);
        }
    }
    let lp = lower_permutation(dims, j);
    assert forall|a: int, b: int| 0 <= a < n - 1 && 0 <= b < n - 1 && a != b implies lp[a] != lp[b] by {
        let ia = if a < j { a } else { a + 1 };
        let ib = if b < j { b } else { b + 1 };
        assert(r[a] == dims[ia]);
        assert(r[b] == dims[ib]);
    }
}

/// Reordering does not change a sum.
proof fn lemma_sum_permuted(t: Seq<int>, dims: Seq<usize>)
    requires
        is_permutation(dims, t.len() as int),
    ensures
        sum_int(Seq::new(t.len(), |i: int| t[dims[i] as int])) == sum_int(t),
    decreases t.len(),
{
    let n = t.len() as int;
    let u = Seq::new(t.len(), |i: int| t[dims[i] as int]);
    if n > 0 {
        lemma_permutation_onto(dims, n, 0);
        let j = choose|i: int| 0 <= i < n && dims[i] == 0;
        lemma_sum_remove(u, j);
        lemma_lower_permutation(dims, n, j);
        let lp = lower_permutation(dims, j);
        let tail = t.drop_first();
        lemma_sum_permuted(tail, lp);
        assert(u.remove(j) =~= Seq::new(tail.len(), |i: int| tail[lp[i] as int])) by {
            assert forall|i: int| 0 <= i < n - 1 implies u.remove(j)[i] == tail[lp[i] as int] by {
                if i < j {
                    assert(u.remove(j)[i] == u[i]);
                } else {
                    assert(u.remove(j)[i] == u[i + 1]);
                }
            }
        }
    }
}

/// Reordering does not change a product.
proof fn lemma_product_permuted(t: Seq<usize>, dims: Seq<usize>)
    requires
        is_permutation(dims, t.len() as int),
    ensures
        product(permuted(t, dims)) == product(t),
    decreases t.len(),
{
    let n = t.len() as int;
    let u = permuted(t, dims);
    if n > 0 {
        lemma_permutation_onto(dims, n, 0);
        let j = choose|i: int| 0 <= i < n && dims[i] == 0;
        lemma_product_remove(u, j);
        lemma_lower_permutation(dims, n, j);
        let lp = lower_permutation(dims, j);
        let tail = t.drop_first();
        lemma_product_permuted(tail, lp);
        assert(u.remove(j) =~= permuted(tail, lp)) by {
            assert forall|i: int| 0 <= i < n - 1 implies u.remove(j)[i] == tail[lp[i] as int] by {
                if i < j {
                    assert(u.remove(j)[i] == u[i]);
                } else {
                    assert(u.remove(j)[i] == u[i + 1]);
                }
            }
        }
    }
}

/// Reordering dimensions keeps the number of elements and the largest
/// offset.
pub proof fn lemma_permuted_layout(shape: Seq<usize>, strides: Seq<usize>, dims: Seq<usize>)
    requires
        shape.len() == strides.len(),
        is_permutation(dims, shape.len() as int),
    ensures
        product(permuted(shape, dims)) == product(shape),
        max_offset(permuted(shape, dims), permuted(strides, dims)) == max_offset(shape, strides),
{
    lemma_product_permuted(shape, dims);
    let t = offset_terms(shape, strides);
    lemma_sum_permuted(t, dims);
    lemma_max_offset_sum(shape, strides);
    lemma_max_offset_sum(permuted(shape, dims), permuted(strides, dims));
    assert(offset_terms(permuted(shape, dims), permuted(strides, dims)) =~= Seq::new(
        t.len(),
        |i: int| t[dims[i] as int],
    ));
}

/// The order of dimensions reversed.
pub open spec fn reversed_dims(n: int) -> Seq<usize> {
    Seq::new(n as nat, |i: int| (n - 1 - i) as usize)
}

/// Dimension `from` moved to position `to`, the others keeping their order.
pub open spec fn moved_dims(n: int, from: int, to: int) -> Seq<usize> {
    Seq::new(
        n as nat,
        |i: int|
            if i == to {
                from as usize
            } else {
                let k = if i < to {
                    i
                } else {
                    i - 1
                };
                if k < from {
                    k as usize
                } else {
                    (k + 1) as usize
                }
            },
    )
}

pub proof fn lemma_reversed_is_permutation(n: int)
    requires
        0 <= n <= usize::MAX,
    ensures
        is_permutation(reversed_dims(n), n),
{
}

pub proof fn lemma_moved_is_permutation(n: int, from: int, to: int)
    requires
        0 <= from < n <= usize::MAX,
        0 <= to < n,
    ensures
        is_permutation(moved_dims(n, from, to), n),
{
}

impl DynLayout {
    /// Reorder the dimensions: dimension `i` becomes old dimension
    /// `dims[i]`.
    pub fn permute(&mut self, dims: &[usize])
        requires
            old(self).wf(),
            is_permutation(dims@, old(self).shape_view().len() as int),
            shape_fits(permuted(old(self).shape_view(), dims@)),
        ensures
            final(self).wf(),
            final(self).shape_view() == permuted(old(self).shape_view(), dims@),
            final(self).strides_view() == permuted(old(self).strides_view(), dims@),
    {
        let n = dims.len();
        let mut shape: Vec<usize> = Vec::new();
        let mut strides: Vec<usize> = Vec::new();
        let mut i: usize = 0;
        while i < n
            invariant
                n == dims@.len() == self.shape@.len() == self.strides@.len(),
                is_permutation(dims@, n as int),
                i <= n,
                shape@ =~= permuted(self.shape@, dims@).subrange(0, i as int),
                strides@ =~= permuted(self.strides@, dims@).subrange(0, i as int),
            decreases n - i,
        {
            let d = dims[i];
            shape.push(self.shape[d]);
            strides.push(self.strides[d]);
            i += 1;
        }
        assert(shape@ =~= permuted(self.shape@, dims@));
        assert(strides@ =~= permuted(self.strides@, dims@));
        self.shape = shape;
        self.strides = strides;
    }
}

/// `a` and `b` broadcast to a common shape: aligned at the last dimension,
/// each pair of sizes is equal or one of them is one.
pub open spec fn can_broadcast_together(a: Seq<usize>, b: Seq<usize>) -> bool {
    forall|i: int|
        1 <= i <= a.len() && i <= b.len() ==> #[trigger] a[a.len() - i] == b[b.len() - i] || a[a.len()
            - i] == 1 || b[b.len() - i] == 1
}

/// Whether `a` and `b` broadcast to a common shape.
pub fn can_broadcast_with(a: &[usize], b: &[usize]) -> (r: bool)
    ensures
        r == can_broadcast_together(a@, b@),
{
    let n = if a.len() < b.len() {
        a.len()
    } else {
        b.len()
    };
    let mut i: usize = 0;
    while i < n
        invariant
            n <= a@.len(),
            n <= b@.len(),
            n == a@.len() || n == b@.len(),
            i <= n,
            forall|t: int|
                1 <= t <= i ==> #[trigger] a@[a@.len() - t] == b@[b@.len() - t] || a@[a@.len() - t]
                    == 1 || b@[b@.len() - t] == 1,
        decreases n - i,
    {
        let x = a[a.len() - 1 - i];
        let y = b[b.len() - 1 - i];
        if x != y && x != 1 && y != 1 {
            assert(!(a@[a@.len() - (i + 1)] == b@[b@.len() - (i + 1)] || a@[a@.len() - (i + 1)] == 1
                || b@[b@.len() - (i + 1)] == 1));
            return false;
        }
        i += 1;
    }
    true
}

/// A zero coordinate in an inserted dimension adds nothing to an offset.
pub proof fn lemma_index_offset_insert_zero(index: Seq<usize>, strides: Seq<usize>, d: int, x: usize)
    requires
        index.len() == strides.len(),
        0 <= d <= index.len(),
    ensures
        index_offset(index.insert(d, 0), strides.insert(d, x)) == index_offset(index, strides),
    decreases d,
{
    let ii = index.insert(d, 0);
    let si = strides.insert(d, x);
    if d == 0 {
        assert(ii.drop_first() =~= index);
        assert(si.drop_first() =~= strides);
        assert(ii[0] == 0);
    } else {
        assert(ii.drop_first() =~= index.drop_first().insert(d - 1, 0));
        assert(si.drop_first() =~= strides.drop_first().insert(d - 1, x));
        lemma_index_offset_insert_zero(index.drop_first(), strides.drop_first(), d - 1, x);
        assert(ii[0] == index[0]);
        assert(si[0] == strides[0]);
    }
}

proof fn lemma_shape_fits_remove_unit(shape: Seq<usize>, d: int)
    requires
        shape_fits(shape),
        0 <= d < shape.len(),
        shape[d] == 1,
    ensures
        shape_fits(shape.remove(d)),
{
    let sr = shape.remove(d);
    assert forall|i: int| 0 <= i <= sr.len() implies #[trigger] product(sr.skip(i)) <= usize::MAX by {
        if i <= d {
            assert(sr.skip(i).insert(d - i, 1) =~= shape.skip(i));
            lemma_product_insert_unit(sr.skip(i), d - i);
            assert(product(shape.skip(i)) <= usize::MAX);
        } else {
            assert(sr.skip(i) =~= shape.skip(i + 1));
            assert(product(shape.skip(i + 1)) <= usize::MAX);
        }
    }
}

impl DynLayout {
    /// Remove dimension `dim`, which has size one.
    pub fn remove_dim(&mut self, dim: usize)
        requires
            old(self).wf(),
            dim < old(self).shape_view().len(),
            old(self).shape_view()[dim as int] == 1,
        ensures
            final(self).wf(),
            final(self).shape_view() == old(self).shape_view().remove(dim as int),
            final(self).strides_view() == old(self).strides_view().remove(dim as int),
    {
        proof {
            lemma_shape_fits_remove_unit(self.shape@, dim as int);
        }
        self.shape.remove(dim);
        self.strides.remove(dim);
    }
}

} // verus!
