//! N-dimensional arrays whose rank is determined at run time: an element
//! buffer together with a layout that maps indices to buffer offsets.
use vstd::prelude::*;

use crate::layout::{
    broadcast_strides, can_broadcast, contiguous_strides, is_permutation, moved_dims, permuted,
    reversed_dims, copy_slice, index_offset, lemma_contiguous_offsets,
    lemma_logical_offset_bound, logical_offset, max_offset, product, shape_fits, valid_index,
    DynLayout,
};

verus! {

/// An index into a tensor: one coordinate per dimension.
pub trait TensorIndex {
    spec fn coords(&self) -> Seq<usize>;

    /// Number of dimensions in the index.
    fn len(&self) -> (r: usize)
        ensures
            r == self.coords().len(),
    ;

    /// Whether the index has no dimensions (it addresses a scalar).
    fn is_empty(&self) -> (r: bool)
        ensures
            r == (self.coords().len() == 0),
    ;

    /// Coordinate for dimension `dim`.
    fn index(&self, dim: usize) -> (r: usize)
        requires
            dim < self.coords().len(),
        ensures
            r == self.coords()[dim as int],
    ;
}

impl<const N: usize> TensorIndex for [usize; N] {
    open spec fn coords(&self) -> Seq<usize> {
        self@
    }

    fn len(&self) -> (r: usize) {
        N
    }

    fn is_empty(&self) -> (r: bool) {
        N == 0
    }

    fn index(&self, dim: usize) -> (r: usize) {
        self[dim]
    }
}

impl<'a> TensorIndex for &'a [usize] {
    open spec fn coords(&self) -> Seq<usize> {
        (*self)@
    }

    fn len(&self) -> (r: usize) {
        (*self).len()
    }

    fn is_empty(&self) -> (r: bool) {
        (*self).len() == 0
    }

    fn index(&self, dim: usize) -> (r: usize) {
        (*self)[dim]
    }
}

/// A source of values used to fill a tensor.
pub trait RandomSource<T> {
    fn next(&mut self) -> T;
}

/// An n-dimensional array: elements stored in a buffer, read through a
/// layout of shape and strides.
#[derive(Clone)]
pub struct TensorBase<T> {
    data: Vec<T>,
    layout: DynLayout,
}

/// A tensor that owns its elements.
pub type Tensor<T> = TensorBase<T>;

impl<T> TensorBase<T> {
    pub closed spec fn data_view(&self) -> Seq<T> {
        self.data@
    }

    pub closed spec fn layout_view(&self) -> DynLayout {
        self.layout
    }

    pub open spec fn shape_view(&self) -> Seq<usize> {
        self.layout_view().shape_view()
    }

    pub open spec fn strides_view(&self) -> Seq<usize> {
        self.layout_view().strides_view()
    }

    /// The layout is well formed and every element it addresses lies in the
    /// buffer.
    pub open spec fn wf(&self) -> bool {
        &&& self.layout_view().wf()
        &&& (product(self.shape_view()) == 0 || max_offset(self.shape_view(), self.strides_view())
            < self.data_view().len())
    }

    /// The elements in logical (row-major index) order.
    pub open spec fn logical(&self) -> Seq<T> {
        Seq::new(
            product(self.shape_view()),
            |k: int| self.data_view()[logical_offset(self.shape_view(), self.strides_view(), k)],
        )
    }

    /// The element at multi-dimensional index `index`.
    pub open spec fn elem(&self, index: Seq<usize>) -> T {
        self.data_view()[index_offset(index, self.strides_view())]
    }

    /// A tensor with the given shape and elements in row-major order.
    pub fn from_data(shape: &[usize], data: Vec<T>) -> (r: Self)
        requires
            shape_fits(shape@),
            product(shape@) == data@.len(),
        ensures
            r.wf(),
            r.shape_view() == shape@,
            r.strides_view() == contiguous_strides(shape@),
            r.data_view() == data@,
            r.logical() == data@,
    {
        let layout = DynLayout::new(shape);
        let r = TensorBase { data, layout };
        proof {
            if product(shape@) > 0 {
                lemma_contiguous_offsets(shape@, 0);
            }
            assert forall|k: int| 0 <= k < data@.len() implies r.logical()[k] == data@[k] by {
                lemma_contiguous_offsets(shape@, k);
            }
            assert(r.logical() =~= data@);
        }
        r
    }

    /// Consume the tensor and return its element buffer.
    pub fn into_data(self) -> (r: Vec<T>)
        ensures
            r@ == self.data_view(),
    {
        self.data
    }

    /// The element buffer; its order matches the logical order only for a
    /// contiguous layout.
    pub fn data(&self) -> (r: &[T])
        ensures
            r@ == self.data_view(),
    {
        self.data.as_slice()
    }

    /// The layout which maps indices to offsets in the data.
    pub fn layout(&self) -> (r: &DynLayout)
        ensures
            *r == self.layout_view(),
    {
        &self.layout
    }

    pub fn ndim(&self) -> (r: usize)
        ensures
            r == self.shape_view().len(),
    {
        self.layout.ndim()
    }

    /// Number of elements.
    pub fn len(&self) -> (r: usize)
        requires
            self.wf(),
        ensures
            r == product(self.shape_view()),
    {
        self.layout.len()
    }

    pub fn is_empty(&self) -> (r: bool)
        requires
            self.wf(),
        ensures
            r == (product(self.shape_view()) == 0),
    {
        self.layout.is_empty()
    }

    pub fn shape(&self) -> (r: &[usize])
        ensures
            r@ == self.shape_view(),
    {
        self.layout.shape()
    }

    pub fn strides(&self) -> (r: &[usize])
        ensures
            r@ == self.strides_view(),
    {
        self.layout.strides()
    }

    pub fn size(&self, dim: usize) -> (r: usize)
        requires
            dim < self.shape_view().len(),
        ensures
            r == self.shape_view()[dim as int],
    {
        self.layout.size(dim)
    }

    pub fn stride(&self, dim: usize) -> (r: usize)
        requires
            dim < self.strides_view().len(),
        ensures
            r == self.strides_view()[dim as int],
    {
        self.layout.stride(dim)
    }

    pub fn is_contiguous(&self) -> (r: bool)
        requires
            self.wf(),
        ensures
            r == (self.strides_view() == contiguous_strides(self.shape_view())),
    {
        self.layout.is_contiguous()
    }

    /// Offsets into the buffer of the elements, in logical order.
    pub fn offsets(&self) -> (r: Vec<usize>)
        requires
            self.wf(),
        ensures
            r@.len() == product(self.shape_view()),
            forall|k: int|
                0 <= k < r@.len() ==> #[trigger] r@[k] == logical_offset(
                    self.shape_view(),
                    self.strides_view(),
                    k,
                ),
    {
        let _ = self.data.len();
        self.layout.offsets()
    }

    /// The element at `index`.
    pub fn index<I: TensorIndex>(&self, index: I) -> (r: &T)
        requires
            self.wf(),
            valid_index(index.coords(), self.shape_view()),
        ensures
            *r == self.elem(index.coords()),
    {
        let n = index.len();
        let mut coords: Vec<usize> = Vec::new();
        let mut i: usize = 0;
        while i < n
            invariant
                n == index.coords().len(),
                i <= n,
                coords@ == index.coords().subrange(0, i as int),
            decreases n - i,
        {
            coords.push(index.index(i));
            i += 1;
        }
        proof {
            assert(coords@ =~= index.coords());
            let _ = self.data@.len();
            crate::layout::lemma_index_offset_bound(
                coords@,
                self.shape_view(),
                self.strides_view(),
            );
            lemma_product_of_valid(coords@, self.shape_view());
        }
        let _ = self.data.len();
        let off = self.layout.offset(coords.as_slice());
        &self.data[off]
    }
}

impl<T: Copy> TensorBase<T> {
    /// The elements in logical order, as a new vector.
    pub fn to_vec(&self) -> (r: Vec<T>)
        requires
            self.wf(),
        ensures
            r@ == self.logical(),
    {
        let offsets = self.offsets();
        let n = offsets.len();
        let mut out: Vec<T> = Vec::new();
        let mut k: usize = 0;
        while k < n
            invariant
                self.wf(),
                n == offsets@.len() == product(self.shape_view()),
                forall|t: int|
                    0 <= t < n ==> #[trigger] offsets@[t] == logical_offset(
                        self.shape_view(),
                        self.strides_view(),
                        t,
                    ),
                k <= n,
                out@ == self.logical().subrange(0, k as int),
            decreases n - k,
        {
            proof {
                lemma_logical_offset_bound(self.shape_view(), self.strides_view(), k as int);
            }
            out.push(self.data[offsets[k]]);
            k += 1;
        }
        assert(out@ =~= self.logical());
        out
    }

    /// The elements in logical order.
    pub fn iter(&self) -> (r: Vec<T>)
        requires
            self.wf(),
        ensures
            r@ == self.logical(),
    {
        self.to_vec()
    }

    /// The only element of a tensor that holds exactly one.
    pub fn item(&self) -> (r: Option<&T>)
        requires
            self.wf(),
        ensures
            r.is_some() == (product(self.shape_view()) == 1),
            r.is_some() ==> *r.unwrap() == self.logical()[0],
    {
        if self.ndim() == 0 {
            assert(max_offset(self.shape_view(), self.strides_view()) == 0);
            Some(&self.data[0])
        } else if self.len() == 1 {
            let offsets = self.offsets();
            proof {
                lemma_logical_offset_bound(self.shape_view(), self.strides_view(), 0);
            }
            Some(&self.data[offsets[0]])
        } else {
            None
        }
    }

    /// A tensor with the same shape and elements whose layout is contiguous.
    pub fn to_contiguous(&self) -> (r: TensorBase<T>)
        requires
            self.wf(),
        ensures
            r.wf(),
            r.shape_view() == self.shape_view(),
            r.strides_view() == contiguous_strides(self.shape_view()),
            r.logical() == self.logical(),
            r.data_view() == self.logical(),
    {
        let data = if self.is_contiguous() && self.data.len() == self.len() {
            proof {
                assert forall|k: int| 0 <= k < self.data@.len() implies self.logical()[k]
                    == self.data@[k] by {
                    lemma_contiguous_offsets(self.shape_view(), k);
                }
                assert(self.logical() =~= self.data@);
            }
            copy_slice(self.data.as_slice())
        } else {
            self.to_vec()
        };
        TensorBase::from_data(self.shape(), data)
    }

    /// Rearrange the buffer so that the layout is contiguous; the shape and
    /// the elements in logical order stay as they are.
    pub fn make_contiguous(&mut self)
        requires
            old(self).wf(),
        ensures
            final(self).wf(),
            final(self).shape_view() == old(self).shape_view(),
            final(self).strides_view() == contiguous_strides(old(self).shape_view()),
            final(self).logical() == old(self).logical(),
            final(self).data_view() == if old(self).strides_view() == contiguous_strides(
                old(self).shape_view(),
            ) {
                old(self).data_view()
            } else {
                old(self).logical()
            },
    {
        if self.is_contiguous() {
            return ;
        }
        let data = self.to_vec();
        let layout = DynLayout::new(self.layout.shape());
        self.data = data;
        self.layout = layout;
        proof {
            let sh = self.shape_view();
            if product(sh) > 0 {
                lemma_contiguous_offsets(sh, 0);
            }
            assert forall|k: int| 0 <= k < product(sh) implies self.logical()[k] == self.data@[k] by {
                lemma_contiguous_offsets(sh, k);
            }
            assert(self.logical() =~= old(self).logical());
        }
    }

    /// Give the tensor a new shape with the same number of elements; the
    /// elements keep their logical order.
    pub fn reshape(&mut self, shape: &[usize])
        requires
            old(self).wf(),
            shape_fits(shape@),
            product(shape@) == product(old(self).shape_view()),
        ensures
            final(self).wf(),
            final(self).shape_view() == shape@,
            final(self).strides_view() == contiguous_strides(shape@),
            final(self).logical() == old(self).logical(),
    {
        self.make_contiguous();
        let ghost mid = *self;
        self.layout = DynLayout::new(shape);
        proof {
            let n = product(shape@);
            if n > 0 {
                lemma_contiguous_offsets(shape@, 0);
                lemma_contiguous_offsets(mid.shape_view(), 0);
            }
            assert forall|k: int| 0 <= k < n implies self.logical()[k] == mid.logical()[k] by {
                lemma_contiguous_offsets(shape@, k);
                lemma_contiguous_offsets(mid.shape_view(), k);
            }
            assert(self.logical() =~= mid.logical());
        }
    }
}

impl<T: Copy> TensorBase<T> {
    /// Keep only positions `range` of dimension `dim`. The buffer is cut to
    /// the elements that the clipped layout addresses.
    pub fn clip_dim(&mut self, dim: usize, range: std::ops::Range<usize>)
        requires
            old(self).wf(),
            dim < old(self).shape_view().len(),
            range.start <= range.end <= old(self).shape_view()[dim as int],
        ensures
            final(self).wf(),
            final(self).shape_view() == old(self).shape_view().update(
                dim as int,
                (range.end - range.start) as usize,
            ),
            final(self).strides_view() == old(self).strides_view(),
            final(self).data_view() == if product(final(self).shape_view()) == 0 {
                Seq::<T>::empty()
            } else {
                old(self).data_view().subrange(
                    range.start * old(self).strides_view()[dim as int],
                    range.start * old(self).strides_view()[dim as int] + max_offset(
                        final(self).shape_view(),
                        final(self).strides_view(),
                    ) + 1,
                )
            },
            forall|index: Seq<usize>|
                valid_index(index, final(self).shape_view()) ==> #[trigger] final(self).elem(index)
                    == old(self).elem(index.update(dim as int, (index[dim as int] + range.start) as usize)),
    {
        let (start, end) = (range.start, range.end);
        let ghost old_shape = self.shape_view();
        let ghost st = self.strides_view();
        let stride = self.layout.stride(dim);
        let _ = self.data.len();
        self.layout.resize_dim(dim, end - start);
        proof {
            crate::layout::lemma_shape_fits_shrink(old_shape, dim as int, (end - start) as usize);
            crate::layout::lemma_product_shrink(old_shape, dim as int, (end - start) as usize);
            crate::layout::lemma_max_offset_resize(old_shape, st, dim as int, (end - start) as usize);
            let (s0, e0, sz, sd) = (start as int, end as int, old_shape[dim as int] as int, stride as int);
            assert((e0 - s0 - sz) * sd <= 0) by (nonlinear_arith)
                requires
                    0 <= s0 <= e0 <= sz,
                    sd >= 0,
            ;
            assert(st.len() == self.shape_view().len());
        }
        let n = self.layout.end_offset();
        let ghost lay = self.layout;
        if n > 0 {
            let ghost new_shape = self.shape_view();
            proof {
                crate::layout::lemma_product_positive_all(new_shape, dim as int);
                assert(end - start >= 1);
                let (s0, e0, sz, sd) = (start as int, end as int, old_shape[dim as int] as int, stride as int);
                assert(s0 * sd + (e0 - s0 - sz) * sd <= 0) by (nonlinear_arith)
                    requires
                        0 <= s0 <= e0 <= sz,
                        sd >= 0,
                ;
                assert(s0 * sd >= 0) by (nonlinear_arith)
                    requires
                        0 <= s0,
                        sd >= 0,
                ;
                crate::layout::lemma_product_shrink(old_shape, dim as int, (end - start) as usize);
            }
            let so = start * stride;
            let ghost od = self.data@;
            let mut j: usize = 0;
            while j < n
                invariant
                    self.data@.len() == od.len(),
                    self.layout == lay,
                    od.len() <= usize::MAX,
                    so + n <= od.len(),
                    j <= n,
                    forall|i: int| 0 <= i < j ==> #[trigger] self.data@[i] == od[i + so],
                    forall|i: int| j <= i < od.len() ==> #[trigger] self.data@[i] == od[i],
                decreases n - j,
            {
                let v = self.data[j + so];
                self.data.set(j, v);
                j += 1;
            }
        }
        self.data.truncate(n);
        proof {
            if product(self.shape_view()) > 0 {
                crate::layout::lemma_max_offset_nonneg(self.shape_view(), self.strides_view());
            }
            if n > 0 {
                assert(self.data@ =~= old(self).data@.subrange(
                    start * stride,
                    start * stride + n,
                ));
            } else {
                assert(self.data@ =~= Seq::<T>::empty());
            }
            assert(self.layout == lay);
            assert(st.len() == self.shape_view().len());
            assert forall|index: Seq<usize>| valid_index(index, self.shape_view()) implies #[trigger] self.elem(
                index,
            ) == old(self).elem(index.update(dim as int, (index[dim as int] + start) as usize)) by {
                crate::layout::lemma_index_offset_bound(index, self.shape_view(), st);
                lemma_product_of_valid(index, self.shape_view());
                crate::layout::lemma_index_offset_shift(
                    index,
                    st,
                    dim as int,
                    (index[dim as int] + start) as usize,
                );
            }
        }
    }
}

impl<T> TensorBase<T> {
    /// Insert a dimension of size one at `dim`; the elements keep their
    /// logical order.
    pub fn insert_dim(&mut self, dim: usize)
        requires
            old(self).wf(),
            dim <= old(self).shape_view().len(),
        ensures
            final(self).wf(),
            final(self).shape_view() == old(self).shape_view().insert(dim as int, 1),
            final(self).strides_view() == old(self).strides_view().insert(
                dim as int,
                product(old(self).shape_view().skip(dim as int)) as usize,
            ),
            final(self).data_view() == old(self).data_view(),
            final(self).logical() == old(self).logical(),
    {
        let ghost sh = self.shape_view();
        let ghost st = self.strides_view();
        self.layout.insert_dim(dim);
        proof {
            let x = product(sh.skip(dim as int)) as usize;
            crate::layout::lemma_insert_unit_dim(sh, st, dim as int, x);
            assert(self.logical() =~= old(self).logical());
        }
    }
}

impl<T> TensorBase<T> {
    /// Whether this tensor broadcasts to `shape`.
    pub fn can_broadcast_to(&self, shape: &[usize]) -> (r: bool)
        ensures
            r == can_broadcast(self.shape_view(), shape@),
    {
        crate::layout::can_broadcast_to(self.layout.shape(), shape)
    }

    /// Whether this tensor and one of `shape` broadcast to a common shape.
    pub fn can_broadcast_with(&self, shape: &[usize]) -> (r: bool)
        ensures
            r == crate::layout::can_broadcast_together(self.shape_view(), shape@),
    {
        crate::layout::can_broadcast_with(self.layout.shape(), shape)
    }

    /// Buffer offsets of the elements of this tensor broadcast to `shape`,
    /// in the logical order of `shape`.
    pub fn broadcast_offsets(&self, shape: &[usize]) -> (r: Vec<usize>)
        requires
            self.wf(),
            can_broadcast(self.shape_view(), shape@),
            shape_fits(shape@),
        ensures
            r@.len() == product(shape@),
            forall|k: int|
                0 <= k < r@.len() ==> #[trigger] r@[k] == logical_offset(
                    shape@,
                    broadcast_strides(self.shape_view(), self.strides_view(), shape@),
                    k,
                ),
            forall|k: int| 0 <= k < r@.len() ==> #[trigger] r@[k] < self.data_view().len(),
    {
        let _ = self.data.len();
        let layout = self.layout.broadcast(shape);
        proof {
            crate::layout::lemma_broadcast(self.shape_view(), self.strides_view(), shape@);
        }
        let offsets = layout.offsets();
        proof {
            assert forall|k: int| 0 <= k < offsets@.len() implies #[trigger] offsets@[k]
                < self.data_view().len() by {
                lemma_logical_offset_bound(shape@, layout.strides_view(), k);
            }
        }
        offsets
    }
}

impl<T: Copy> TensorBase<T> {
    /// The elements of this tensor broadcast to `shape`, in the logical
    /// order of `shape`: elements repeat along dimensions that are added or
    /// stretched from size one.
    pub fn broadcast_iter(&self, shape: &[usize]) -> (r: Vec<T>)
        requires
            self.wf(),
            can_broadcast(self.shape_view(), shape@),
            shape_fits(shape@),
        ensures
            r@ == Seq::new(
                product(shape@),
                |k: int|
                    self.data_view()[logical_offset(
                        shape@,
                        broadcast_strides(self.shape_view(), self.strides_view(), shape@),
                        k,
                    )],
            ),
    {
        let offsets = self.broadcast_offsets(shape);
        let n = offsets.len();
        let mut out: Vec<T> = Vec::new();
        let mut k: usize = 0;
        while k < n
            invariant
                n == offsets@.len() == product(shape@),
                forall|t: int|
                    0 <= t < n ==> #[trigger] offsets@[t] == logical_offset(
                        shape@,
                        broadcast_strides(self.shape_view(), self.strides_view(), shape@),
                        t,
                    ),
                forall|t: int| 0 <= t < n ==> #[trigger] offsets@[t] < self.data_view().len(),
                k <= n,
                out@ =~= Seq::new(
                    product(shape@),
                    |t: int|
                        self.data_view()[logical_offset(
                            shape@,
                            broadcast_strides(self.shape_view(), self.strides_view(), shape@),
                            t,
                        )],
                ).subrange(0, k as int),
            decreases n - k,
        {
            out.push(self.data[offsets[k]]);
            k += 1;
        }
        out
    }

    /// A tensor with the same shape whose elements, in logical order, are
    /// `f` of this tensor's.
    pub fn map<U, F: Fn(&T) -> U>(&self, f: F) -> (r: TensorBase<U>)
        requires
            self.wf(),
            forall|x: &T| #[trigger] f.requires((x,)),
        ensures
            r.wf(),
            r.shape_view() == self.shape_view(),
            r.logical().len() == self.logical().len(),
            forall|k: int|
                0 <= k < self.logical().len() ==> f.ensures(
                    (&self.logical()[k],),
                    #[trigger] r.logical()[k],
                ),
    {
        let elems = self.to_vec();
        let n = elems.len();
        let mut data: Vec<U> = Vec::new();
        let mut k: usize = 0;
        while k < n
            invariant
                n == elems@.len(),
                elems@ == self.logical(),
                forall|x: &T| #[trigger] f.requires((x,)),
                k <= n,
                data@.len() == k,
                forall|t: int| 0 <= t < k ==> f.ensures((&elems@[t],), #[trigger] data@[t]),
            decreases n - k,
        {
            data.push(f(&elems[k]));
            k += 1;
        }
        TensorBase::from_data(self.layout.shape(), data)
    }

    /// A new contiguous tensor with the same shape and elements.
    pub fn to_owned(&self) -> (r: TensorBase<T>)
        requires
            self.wf(),
        ensures
            r.wf(),
            r.shape_view() == self.shape_view(),
            r.strides_view() == contiguous_strides(self.shape_view()),
            r.logical() == self.logical(),
    {
        let data = self.to_vec();
        TensorBase::from_data(self.layout.shape(), data)
    }

    /// A copy of this tensor's elements, in logical order, with shape
    /// `shape`.
    pub fn clone_with_shape(&self, shape: &[usize]) -> (r: TensorBase<T>)
        requires
            self.wf(),
            shape_fits(shape@),
            product(shape@) == product(self.shape_view()),
        ensures
            r.wf(),
            r.shape_view() == shape@,
            r.logical() == self.logical(),
    {
        let data = self.to_vec();
        TensorBase::from_data(shape, data)
    }
}

impl<T: Copy + Default> TensorBase<T> {
    /// A tensor of `shape` filled with the default value of `T`.
    pub fn zeros(shape: &[usize]) -> (r: TensorBase<T>)
        requires
            shape_fits(shape@),
        ensures
            r.wf(),
            r.shape_view() == shape@,
            r.strides_view() == contiguous_strides(shape@),
            forall|i: int, j: int|
                0 <= i < r.logical().len() && 0 <= j < r.logical().len() ==> r.logical()[i]
                    == r.logical()[j],
    {
        let n = crate::layout::shape_len(shape);
        let z = T::default();
        let mut data: Vec<T> = Vec::new();
        let mut k: usize = 0;
        while k < n
            invariant
                k <= n,
                data@.len() == k,
                forall|i: int| 0 <= i < k ==> data@[i] == z,
            decreases n - k,
        {
            data.push(z);
            k += 1;
        }
        TensorBase::from_data(shape, data)
    }

    /// A tensor of `shape` whose elements, in logical order, are drawn from
    /// `rand_src`.
    pub fn rand<R: RandomSource<T>>(shape: &[usize], rand_src: &mut R) -> (r: TensorBase<T>)
        requires
            shape_fits(shape@),
        ensures
            r.wf(),
            r.shape_view() == shape@,
            r.strides_view() == contiguous_strides(shape@),
    {
        let n = crate::layout::shape_len(shape);
        let mut data: Vec<T> = Vec::new();
        let mut k: usize = 0;
        while k < n
            invariant
                k <= n,
                data@.len() == k,
            decreases n - k,
        {
            data.push(rand_src.next());
            k += 1;
        }
        TensorBase::from_data(shape, data)
    }
}

impl<T> TensorBase<T> {
    /// Reorder the dimensions so that dimension `i` is the old dimension
    /// `dims[i]`. The buffer is unchanged; only the layout moves.
    pub fn permute(&mut self, dims: &[usize])
        requires
            old(self).wf(),
            is_permutation(dims@, old(self).shape_view().len() as int),
            shape_fits(permuted(old(self).shape_view(), dims@)),
        ensures
            final(self).wf(),
            final(self).shape_view() == permuted(old(self).shape_view(), dims@),
            final(self).strides_view() == permuted(old(self).strides_view(), dims@),
            final(self).data_view() == old(self).data_view(),
    {
        proof {
            crate::layout::lemma_permuted_layout(self.shape_view(), self.strides_view(), dims@);
        }
        self.layout.permute(dims);
    }

    /// Reverse the order of the dimensions.
    pub fn transpose(&mut self)
        requires
            old(self).wf(),
            shape_fits(permuted(old(self).shape_view(), reversed_dims(old(self).shape_view().len() as int))),
        ensures
            final(self).wf(),
            final(self).shape_view() == permuted(
                old(self).shape_view(),
                reversed_dims(old(self).shape_view().len() as int),
            ),
            final(self).strides_view() == permuted(
                old(self).strides_view(),
                reversed_dims(old(self).shape_view().len() as int),
            ),
            final(self).data_view() == old(self).data_view(),
    {
        let n = self.ndim();
        let mut dims: Vec<usize> = Vec::new();
        let mut i: usize = 0;
        while i < n
            invariant
                i <= n,
                dims@ =~= reversed_dims(n as int).subrange(0, i as int),
            decreases n - i,
        {
            dims.push(n - 1 - i);
            i += 1;
        }
        proof {
            assert(dims@ =~= reversed_dims(n as int));
            crate::layout::lemma_reversed_is_permutation(n as int);
        }
        self.permute(dims.as_slice());
    }

    /// Move dimension `from` to position `to`, keeping the order of the
    /// others.
    pub fn move_axis(&mut self, from: usize, to: usize)
        requires
            old(self).wf(),
            from < old(self).shape_view().len(),
            to < old(self).shape_view().len(),
            shape_fits(
                permuted(
                    old(self).shape_view(),
                    moved_dims(old(self).shape_view().len() as int, from as int, to as int),
                ),
            ),
        ensures
            final(self).wf(),
            final(self).shape_view() == permuted(
                old(self).shape_view(),
                moved_dims(old(self).shape_view().len() as int, from as int, to as int),
            ),
            final(self).strides_view() == permuted(
                old(self).strides_view(),
                moved_dims(old(self).shape_view().len() as int, from as int, to as int),
            ),
            final(self).data_view() == old(self).data_view(),
    {
        let n = self.ndim();
        let mut dims: Vec<usize> = Vec::new();
        let mut i: usize = 0;
        while i < n
            invariant
                from < n,
                to < n,
                i <= n,
                dims@ =~= moved_dims(n as int, from as int, to as int).subrange(0, i as int),
            decreases n - i,
        {
            let d = if i == to {
                from
            } else {
                let k = if i < to {
                    i
                } else {
                    i - 1
                };
                if k < from {
                    k
                } else {
                    k + 1
                }
            };
            dims.push(d);
            i += 1;
        }
        proof {
            assert(dims@ =~= moved_dims(n as int, from as int, to as int));
            crate::layout::lemma_moved_is_permutation(n as int, from as int, to as int);
        }
        self.permute(dims.as_slice());
    }
}

impl<T: Copy> TensorBase<T> {
    /// A copy of this tensor with its dimensions reordered as `permute` does.
    pub fn permuted(&self, dims: &[usize]) -> (r: TensorBase<T>)
        requires
            self.wf(),
            is_permutation(dims@, self.shape_view().len() as int),
            shape_fits(permuted(self.shape_view(), dims@)),
        ensures
            r.wf(),
            r.shape_view() == permuted(self.shape_view(), dims@),
            r.strides_view() == permuted(self.strides_view(), dims@),
            r.data_view() == self.data_view(),
    {
        let mut r = TensorBase { data: copy_slice(self.data.as_slice()), layout: self.layout.copy() };
        r.permute(dims);
        r
    }

    /// A copy of this tensor with the order of dimensions reversed.
    pub fn transposed(&self) -> (r: TensorBase<T>)
        requires
            self.wf(),
            shape_fits(permuted(self.shape_view(), reversed_dims(self.shape_view().len() as int))),
        ensures
            r.wf(),
            r.shape_view() == permuted(self.shape_view(), reversed_dims(self.shape_view().len() as int)),
            r.strides_view() == permuted(
                self.strides_view(),
                reversed_dims(self.shape_view().len() as int),
            ),
            r.data_view() == self.data_view(),
    {
        let mut r = TensorBase { data: copy_slice(self.data.as_slice()), layout: self.layout.copy() };
        r.transpose();
        r
    }
}

impl<T> TensorBase<T> {
    /// Remove dimension `dim`, which has size one; the elements keep their
    /// logical order.
    pub fn remove_dim(&mut self, dim: usize)
        requires
            old(self).wf(),
            dim < old(self).shape_view().len(),
            old(self).shape_view()[dim as int] == 1,
        ensures
            final(self).wf(),
            final(self).shape_view() == old(self).shape_view().remove(dim as int),
            final(self).strides_view() == old(self).strides_view().remove(dim as int),
            final(self).data_view() == old(self).data_view(),
            final(self).logical() == old(self).logical(),
            forall|index: Seq<usize>|
                valid_index(index, final(self).shape_view()) ==> #[trigger] final(self).elem(index)
                    == old(self).elem(index.insert(dim as int, 0)),
    {
        let ghost sh = self.shape_view();
        let ghost st = self.strides_view();
        self.layout.remove_dim(dim);
        proof {
            let d = dim as int;
            let x = st[d];
            assert(sh.remove(d).insert(d, 1) =~= sh);
            assert(st.remove(d).insert(d, x) =~= st);
            crate::layout::lemma_insert_unit_dim(sh.remove(d), st.remove(d), d, x);
            assert(self.logical() =~= old(self).logical());
            assert forall|index: Seq<usize>| valid_index(index, self.shape_view()) implies #[trigger] self.elem(
                index,
            ) == old(self).elem(index.insert(d, 0)) by {
                crate::layout::lemma_index_offset_insert_zero(index, st.remove(d), d, x);
            }
        }
    }
}

impl<T: Copy> TensorBase<T> {
    /// A copy of this tensor without its dimensions of size one; the
    /// elements keep their logical order.
    pub fn squeezed(&self) -> (r: TensorBase<T>)
        requires
            self.wf(),
        ensures
            r.wf(),
            r.shape_view() == self.shape_view().filter(kept_dim()),
            r.logical() == self.logical(),
    {
        let mut part = TensorBase { data: copy_slice(self.data.as_slice()), layout: self.layout.copy() };
        let ghost sh = self.shape_view();
        let n = self.ndim();
        let mut i: usize = 0;
        let mut j: usize = 0;
        proof {
            reveal(Seq::filter);
            assert(sh.take(0) =~= Seq::<usize>::empty());
            assert(sh.take(0).filter(kept_dim()) =~= Seq::<usize>::empty());
            assert(sh.take(0).filter(kept_dim()) + sh.skip(0) =~= sh);
            assert(part.logical() =~= self.logical());
        }
        while i < n
            invariant
                part.wf(),
                self.wf(),
                sh == self.shape_view(),
                n == sh.len(),
                i <= n,
                j == sh.take(i as int).filter(kept_dim()).len(),
                part.shape_view() == sh.take(i as int).filter(kept_dim()) + sh.skip(i as int),
                part.logical() == self.logical(),
            decreases n - i,
        {
            let ghost pre = sh.take(i as int).filter(kept_dim());
            proof {
                reveal(Seq::filter);
                assert(sh.take(i + 1).drop_last() =~= sh.take(i as int));
                assert(sh.take(i + 1).last() == sh[i as int]);
                assert(part.shape_view()[j as int] == sh[i as int]);
            }
            if part.layout.size(j) == 1 {
                part.remove_dim(j);
                proof {
                    assert(sh.take(i + 1).filter(kept_dim()) == pre);
                    assert(part.shape_view() =~= pre + sh.skip(i + 1));
                }
            } else {
                proof {
                    assert(sh.take(i + 1).filter(kept_dim()) == pre.push(sh[i as int]));
                    assert(part.shape_view() =~= pre.push(sh[i as int]) + sh.skip(i + 1));
                }
                j += 1;
            }
            i += 1;
        }
        proof {
            assert(sh.take(n as int) =~= sh);
            assert(sh.skip(n as int) =~= Seq::<usize>::empty());
            assert(part.shape_view() =~= sh.filter(kept_dim()));
        }
        part
    }

    /// The slices of this tensor at each position of dimension `dim`, with
    /// that dimension removed: slice `i` holds the elements whose index has
    /// `i` at `dim`.
    pub fn axis_iter(&self, dim: usize) -> (r: Vec<TensorBase<T>>)
        requires
            self.wf(),
            dim < self.shape_view().len(),
        ensures
            r@.len() == self.shape_view()[dim as int],
            forall|i: int| 0 <= i < r@.len() ==> (#[trigger] r@[i]).wf() && r@[i].shape_view()
                == self.shape_view().remove(dim as int),
            forall|i: int, index: Seq<usize>|
                0 <= i < r@.len() && valid_index(index, self.shape_view().remove(dim as int))
                    ==> #[trigger] r@[i].elem(index) == self.elem(index.insert(dim as int, i as usize)),
    {
        let n = self.layout.size(dim);
        let mut out: Vec<TensorBase<T>> = Vec::new();
        let mut i: usize = 0;
        while i < n
            invariant
                self.wf(),
                dim < self.shape_view().len(),
                n == self.shape_view()[dim as int],
                i <= n,
                out@.len() == i,
                forall|t: int| 0 <= t < i ==> (#[trigger] out@[t]).wf() && out@[t].shape_view()
                    == self.shape_view().remove(dim as int),
                forall|t: int, index: Seq<usize>|
                    0 <= t < i && valid_index(index, self.shape_view().remove(dim as int))
                        ==> #[trigger] out@[t].elem(index) == self.elem(index.insert(dim as int, t as usize)),
            decreases n - i,
        {
            let mut part = TensorBase { data: copy_slice(self.data.as_slice()), layout: self.layout.copy() };
            let ghost p0 = part;
            part.clip_dim(dim, i..i + 1);
            let ghost p1 = part;
            part.remove_dim(dim);
            proof {
                let d = dim as int;
                assert(p1.shape_view() =~= self.shape_view().update(d, 1usize));
                assert(p1.shape_view().remove(d) =~= self.shape_view().remove(d));
                assert forall|index: Seq<usize>| valid_index(index, self.shape_view().remove(d)) implies #[trigger] part.elem(
                    index,
                ) == self.elem(index.insert(d, i as usize)) by {
                    let ins = index.insert(d, 0usize);
                    assert(valid_index(ins, p1.shape_view())) by {
                        assert forall|k: int| 0 <= k < p1.shape_view().len() implies #[trigger] ins[k] < p1.shape_view()[k] by {
                            if k < d {
                                assert(ins[k] == index[k]);
                            } else if k > d {
                                assert(ins[k] == index[k - 1]);
                            }
                        }
                    }
                    assert(ins.update(d, (ins[d] + i) as usize) =~= index.insert(d, i as usize));
                    assert(p0.elem(index.insert(d, i as usize)) == self.elem(index.insert(d, i as usize)));
                }
            }
            out.push(part);
            i += 1;
        }
        out
    }
}

impl<T> TensorBase<T> {
    /// Replace each element of the buffer with `f(element)`.
    pub fn apply<F: Fn(&T) -> T>(&mut self, f: F)
        requires
            forall|x: &T| #[trigger] f.requires((x,)),
        ensures
            final(self).layout_view() == old(self).layout_view(),
            final(self).data_view().len() == old(self).data_view().len(),
            forall|i: int|
                0 <= i < old(self).data_view().len() ==> f.ensures(
                    (&old(self).data_view()[i],),
                    #[trigger] final(self).data_view()[i],
                ),
    {
        let n = self.data.len();
        let mut i: usize = 0;
        while i < n
            invariant
                forall|x: &T| #[trigger] f.requires((x,)),
                self.layout == old(self).layout,
                n == self.data@.len() == old(self).data@.len(),
                i <= n,
                forall|t: int| i <= t < n ==> self.data@[t] == old(self).data@[t],
                forall|t: int|
                    0 <= t < i ==> f.ensures((&old(self).data@[t],), #[trigger] self.data@[t]),
            decreases n - i,
        {
            let v = f(&self.data[i]);
            self.data.set(i, v);
            i += 1;
        }
    }

    /// The element buffer, for modification.
    pub fn data_mut(&mut self) -> (r: &mut [T])
        ensures
            r@ == old(self).data_view(),
            final(self).layout_view() == old(self).layout_view(),
            final(self).data_view() == final(r)@,
    {
        self.data.as_mut_slice()
    }

    /// The element at `index`, for modification.
    pub fn index_mut<I: TensorIndex>(&mut self, index: I) -> (r: &mut T)
        requires
            old(self).wf(),
            valid_index(index.coords(), old(self).shape_view()),
        ensures
            *r == old(self).elem(index.coords()),
            final(self).layout_view() == old(self).layout_view(),
            final(self).data_view() == old(self).data_view().update(
                index_offset(index.coords(), old(self).strides_view()),
                *final(r),
            ),
    {
        let n = index.len();
        let mut coords: Vec<usize> = Vec::new();
        let mut i: usize = 0;
        while i < n
            invariant
                n == index.coords().len(),
                i <= n,
                coords@ == index.coords().subrange(0, i as int),
            decreases n - i,
        {
            coords.push(index.index(i));
            i += 1;
        }
        proof {
            assert(coords@ =~= index.coords());
            crate::layout::lemma_index_offset_bound(
                coords@,
                self.shape_view(),
                self.strides_view(),
            );
            lemma_product_of_valid(coords@, self.shape_view());
        }
        let _ = self.data.len();
        let off = self.layout.offset(coords.as_slice());
        &mut self.data[off]
    }

    /// A one-dimensional tensor holding `data`.
    pub fn from_vec(data: Vec<T>) -> (r: Self)
        ensures
            r.wf(),
            r.shape_view() == seq![data@.len() as usize],
            r.logical() == data@,
    {
        let n = data.len();
        let shape = [n];
        proof {
            let s = shape@;
            assert(s.skip(0) =~= s);
            assert(s.skip(1) =~= Seq::<usize>::empty());
            assert(s.drop_first() =~= Seq::<usize>::empty());
            assert(product(s.drop_first()) == 1);
            assert(product(s) == n as nat * 1);
            assert forall|i: int| 0 <= i <= s.len() implies #[trigger] product(s.skip(i))
                <= usize::MAX by {
                if i == 0 {
                } else {
                    assert(s.skip(i) =~= Seq::<usize>::empty());
                }
            }
        }
        assert(shape@ =~= seq![n]);
        TensorBase::from_data(&shape, data)
    }

    /// A tensor of rank zero holding `value`.
    pub fn from_scalar(value: T) -> (r: Self)
        ensures
            r.wf(),
            r.shape_view().len() == 0,
            r.logical() == seq![value],
    {
        let shape: [usize; 0] = [];
        proof {
            assert(shape@.skip(0) =~= Seq::<usize>::empty());
            assert(shape_fits(shape@));
        }
        let data = vec![value];
        TensorBase::from_data(&shape, data)
    }
}

/// Dimensions that `squeezed` keeps: those whose size is not one.
pub open spec fn kept_dim() -> spec_fn(usize) -> bool {
    |x: usize| x != 1
}

/// A shape that has a valid index has no empty dimension.
pub proof fn lemma_product_of_valid(index: Seq<usize>, shape: Seq<usize>)
    requires
        valid_index(index, shape),
    ensures
        product(shape) > 0,
    decreases shape.len(),
{
    if shape.len() > 0 {
        assert(valid_index(index.drop_first(), shape.drop_first())) by {
            assert forall|i: int| 0 <= i < shape.drop_first().len() implies #[trigger] index.drop_first()[i]
                < shape.drop_first()[i] by {
                assert(index[i + 1] < shape[i + 1]);
            }
        }
        lemma_product_of_valid(index.drop_first(), shape.drop_first());
        assert(index[0] < shape[0]);
        assert(shape[0] as nat * product(shape.drop_first()) > 0) by (nonlinear_arith)
            requires
                shape[0] > 0,
                product(shape.drop_first()) > 0,
        ;
    }
}

} // verus!
