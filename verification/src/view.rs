//! Views: tensors over components they borrow (`ViewRef`, `ViewMut`), or share.
use crate::error::{self, Error, KindView};
use crate::layout::{
    broadcast_axis_dims, broadcast_axis_ok, broadcast_axis_strides, broadcast_dims, broadcast_fits,
    broadcast_strides, end_ok, flipped, flipped_around, flipped_at, negatable, range_fits,
    row_major_strides, slice_checks_pass, slice_computable, slice_offset, slice_origin,
    slice_shift, slice_start, slice_stop, sliced_dims, suffix_counts_fit, AxisRange, Layout,
};
use crate::position::{
    self, abs_int, axis_offset, buffer_len_of, coord_in_bounds, count_of, dims_fit_isize,
    norm_coord, offset_of, position_in_bounds,
};
use crate::tensor::{components_in, layout_fits, swap_axes, Tens, Tensor, View};
use std::rc::Rc;
use vstd::prelude::*;
use vstd::view::View as _;

verus! {

/// Another pointer to the vector an `Rc` holds, by `Rc::clone`; the contract claims that it
/// points to the same vector (the clone shares the allocation).
#[verifier::external_body]
fn share_rc<E>(rc: &Rc<Vec<E>>) -> (r: Rc<Vec<E>>)
    ensures
        *r == **rc,
{
    Rc::clone(rc)
}

/// A slice of one element, by `std::slice::from_ref`; the contract claims that it holds
/// exactly the referenced value.
#[verifier::external_body]
fn one_slice<E>(x: &E) -> (r: &[E])
    ensures
        r@ == seq![*x],
{
    std::slice::from_ref(x)
}

/// A mutable slice of one element, by `std::slice::from_mut`; the contract claims that it
/// holds exactly the referenced value, and that what is written through it is the value's
/// final state.
#[verifier::external_body]
fn one_slice_mut<E>(x: &mut E) -> (r: &mut [E])
    ensures
        r@ == seq![*old(x)],
        final(r)@.len() == 1,
        *final(x) == final(r)@[0],
{
    std::slice::from_mut(x)
}

/// Where the components of a shared view live: borrowed, or a window `start..end` of a vector
/// that views share.
pub enum Share<'a, E> {
    Borrowed(&'a [E]),
    Shared(Rc<Vec<E>>, usize, usize),
}

/// A shared tensor view: a layout over components it borrows or shares with other views.
pub struct ViewRef<'a, E> {
    layout: Layout,
    data: Share<'a, E>,
}

impl<'a, E> ViewRef<'a, E> {
    #[verifier::type_invariant]
    spec fn window_ok(&self) -> bool {
        match self.data {
            Share::Shared(v, a, b) => a <= b <= v@.len(),
            Share::Borrowed(_) => true,
        }
    }

    /// The layout.
    pub closed spec fn layout_view(&self) -> Layout {
        self.layout
    }

    /// The components this view reaches into, as a flat buffer.
    pub closed spec fn buffer_view(&self) -> Seq<E> {
        match self.data {
            Share::Borrowed(s) => s@,
            Share::Shared(v, a, b) => v@.subrange(a as int, b as int),
        }
    }

    pub open spec fn dims_of(&self) -> Seq<usize> {
        self.layout_view().dims_view()
    }

    pub open spec fn strides_of(&self) -> Seq<isize> {
        self.layout_view().strides_view()
    }

    /// The layout is valid and fits in the buffer.
    pub open spec fn valid(&self) -> bool {
        layout_fits(self.dims_of(), self.strides_of(), self.buffer_view().len() as int)
    }

    /// The components in last-axis-fastest order.
    pub open spec fn components(&self) -> Seq<E> {
        components_in(self.dims_of(), self.strides_of(), self.buffer_view())
    }

    /// The buffer.
    fn buf(&self) -> (r: &[E])
        ensures
            r@ == self.buffer_view(),
    {
        proof {
            use_type_invariant(self);
        }
        match &self.data {
            Share::Borrowed(s) => s,
            Share::Shared(v, a, b) => vstd::slice::slice_subrange(v.as_slice(), *a, *b),
        }
    }

    /// This view's components under another layout.
    fn relayout(&self, layout: Layout) -> (r: Self)
        ensures
            r.layout_view() == layout,
            r.buffer_view() == self.buffer_view(),
    {
        proof {
            use_type_invariant(self);
        }
        let data = match &self.data {
            Share::Borrowed(s) => Share::Borrowed(*s),
            Share::Shared(v, a, b) => Share::Shared(share_rc(v), *a, *b),
        };
        ViewRef { layout, data }
    }

    /// The dims.
    pub fn dims(&self) -> (r: &[usize])
        ensures
            r@ == self.dims_of(),
    {
        self.layout.dims()
    }

    /// The strides.
    pub fn strides(&self) -> (r: &[isize])
        ensures
            r@ == self.strides_of(),
    {
        self.layout.strides()
    }

    /// A copy of the layout.
    pub fn get_layout(&self) -> (r: Layout)
        ensures
            r.dims_view() == self.dims_of(),
            r.strides_view() == self.strides_of(),
    {
        self.layout.clone()
    }

    /// The length of the buffer this view reaches into.
    pub fn get_len(&self) -> (r: usize)
        ensures
            r == self.buffer_view().len(),
    {
        self.buf().len()
    }

    /// References this view with a shorter lifetime.
    pub fn view_ref(&self) -> (r: ViewRef<'_, E>)
        ensures
            r.dims_of() == self.dims_of(),
            r.strides_of() == self.strides_of(),
            r.buffer_view() == self.buffer_view(),
    {
        ViewRef { layout: self.layout.clone(), data: Share::Borrowed(self.buf()) }
    }

    /// Broadcasts the axis at `index` to `rhs`; see `Layout::broadcast_dim`.
    pub fn broadcast_dim(&self, index: isize, rhs: usize) -> (r: Self)
        requires
            error::layout_ok(self.dims_of(), self.strides_of()),
            coord_in_bounds(self.dims_of().len() as int, index as int),
            broadcast_axis_ok(self.dims_of(), norm_coord(self.dims_of().len() as int, index as int), rhs),
        ensures
            ({
                let i = norm_coord(self.dims_of().len() as int, index as int);
                &&& r.dims_of() == broadcast_axis_dims(self.dims_of(), i, rhs)
                &&& r.strides_of() == broadcast_axis_strides(self.dims_of(), self.strides_of(), i, rhs)
            }),
            r.buffer_view() == self.buffer_view(),
    {
        let mut layout = self.layout.clone();
        layout.broadcast_dim(index, rhs);
        self.relayout(layout)
    }

    /// Broadcasts to the dims `rhs`; see `Layout::broadcast`.
    pub fn broadcast(&mut self, rhs: &[usize]) -> (r: Self)
        requires
            error::layout_ok(old(self).dims_of(), old(self).strides_of()),
            old(self).dims_of().len() == rhs@.len(),
            broadcast_fits(old(self).dims_of(), rhs@),
            error::layout_ok(
                broadcast_dims(old(self).dims_of(), rhs@),
                broadcast_strides(old(self).dims_of(), old(self).strides_of(), rhs@),
            ),
        ensures
            r.dims_of() == broadcast_dims(old(self).dims_of(), rhs@),
            r.strides_of() == broadcast_strides(old(self).dims_of(), old(self).strides_of(), rhs@),
            r.buffer_view() == old(self).buffer_view(),
            *final(self) == *old(self),
    {
        let mut layout = self.layout.clone();
        layout.broadcast(rhs);
        self.relayout(layout)
    }

    /// Reverses the order of components along every axis except the one at `index`.
    pub fn flip_around(&self, index: isize) -> (r: Self)
        requires
            self.layout_view().ranks_match(),
            coord_in_bounds(self.dims_of().len() as int, index as int),
            negatable(self.strides_of()),
        ensures
            r.dims_of() == self.dims_of(),
            r.strides_of() == flipped_around(self.strides_of(), norm_coord(self.dims_of().len() as int, index as int)),
            r.buffer_view() == self.buffer_view(),
    {
        let mut layout = self.layout.clone();
        layout.flip_around(index);
        let r = self.relayout(layout);
        assert(r.strides_of() =~= flipped_around(self.strides_of(), norm_coord(self.dims_of().len() as int, index as int)));
        r
    }

    /// Reverses the order of components along the axis at `index`.
    pub fn flip_dim(&self, index: isize) -> (r: Self)
        requires
            self.layout_view().ranks_match(),
            coord_in_bounds(self.dims_of().len() as int, index as int),
            self.strides_of()[norm_coord(self.dims_of().len() as int, index as int)] != isize::MIN,
        ensures
            r.dims_of() == self.dims_of(),
            r.strides_of() == flipped_at(self.strides_of(), norm_coord(self.dims_of().len() as int, index as int)),
            r.buffer_view() == self.buffer_view(),
    {
        let mut layout = self.layout.clone();
        layout.flip_dim(index);
        self.relayout(layout)
    }

    /// Reverses the order of components along every axis.
    pub fn flip(&self) -> (r: Self)
        requires
            negatable(self.strides_of()),
        ensures
            r.dims_of() == self.dims_of(),
            r.strides_of() == flipped(self.strides_of()),
            r.buffer_view() == self.buffer_view(),
    {
        let mut layout = self.layout.clone();
        layout.flip();
        let r = self.relayout(layout);
        assert(r.strides_of() =~= flipped(self.strides_of()));
        r
    }

    /// Removes an axis of dim 1.
    pub fn squeeze_dim(&self, index: isize) -> (r: Self)
        requires
            error::layout_ok(self.dims_of(), self.strides_of()),
            coord_in_bounds(self.dims_of().len() as int, index as int),
            self.dims_of()[norm_coord(self.dims_of().len() as int, index as int)] == 1,
        ensures
            r.dims_of() == self.dims_of().remove(norm_coord(self.dims_of().len() as int, index as int)),
            r.strides_of() == self.strides_of().remove(norm_coord(self.dims_of().len() as int, index as int)),
            r.buffer_view() == self.buffer_view(),
    {
        let mut layout = self.layout.clone();
        layout.squeeze_dim(index);
        self.relayout(layout)
    }

    /// Swaps two axes.
    pub fn swap_dims(&self, a: isize, b: isize) -> (r: Self)
        requires
            self.layout_view().ranks_match(),
            coord_in_bounds(self.dims_of().len() as int, a as int),
            coord_in_bounds(self.dims_of().len() as int, b as int),
        ensures
            ({
                let i = norm_coord(self.dims_of().len() as int, a as int);
                let j = norm_coord(self.dims_of().len() as int, b as int);
                &&& r.dims_of() == swap_axes(self.dims_of(), i, j)
                &&& r.strides_of() == swap_axes(self.strides_of(), i, j)
            }),
            r.buffer_view() == self.buffer_view(),
    {
        let mut layout = self.layout.clone();
        layout.swap_dims(a, b);
        self.relayout(layout)
    }

    /// Inserts an axis of dim 1 and stride 1 at `index` (of the new rank).
    pub fn unsqueeze_dim(&self, index: isize) -> (r: Self)
        requires
            error::layout_ok(self.dims_of(), self.strides_of()),
            self.dims_of().len() < usize::MAX,
            coord_in_bounds(self.dims_of().len() + 1int, index as int),
        ensures
            r.dims_of() == self.dims_of().insert(norm_coord(self.dims_of().len() + 1int, index as int), 1),
            r.strides_of() == self.strides_of().insert(norm_coord(self.dims_of().len() + 1int, index as int), 1),
            r.buffer_view() == self.buffer_view(),
    {
        let mut layout = self.layout.clone();
        layout.unsqueeze_dim(index);
        self.relayout(layout)
    }
}

impl<'a, E> Clone for ViewRef<'a, E> {
    fn clone(&self) -> (r: Self)
        ensures
            r.dims_of() == self.dims_of(),
            r.strides_of() == self.strides_of(),
            r.buffer_view() == self.buffer_view(),
    {
        self.relayout(self.layout.clone())
    }
}


/// A copy of `layout` with the dim at `i` set to `d`.
fn with_dim(layout: &Layout, i: usize, d: usize) -> (r: Layout)
    requires
        i < layout.dims_view().len(),
    ensures
        r.dims_view() == layout.dims_view().update(i as int, d),
        r.strides_view() == layout.strides_view(),
{
    let mut l = layout.clone();
    let dims = l.dims_mut();
    dims[i] = d;
    l
}

/// The split point along an axis: the offset of coordinate `p` of an axis of extent `dim`
/// and stride `stride`.
fn split_point(dim: usize, p: usize, stride: isize, len: usize) -> (r: usize)
    requires
        p < dim,
        axis_offset(dim as int, p as int, stride as int) <= len,
    ensures
        r == axis_offset(dim as int, p as int, stride as int),
{
    let m = position::stride_magnitude(stride);
    let c = if stride < 0 { dim - 1 - p } else { p };
    assert(c * m == axis_offset(dim as int, p as int, stride as int));
    c * m
}

impl<'a, E> ViewRef<'a, E> {
    /// Splits in two along the axis at `index` before the coordinate `position`, keeping the
    /// strides: the first part reaches the buffer before the offset of that coordinate, the
    /// second the rest.
    pub fn split_at(self, index: isize, position: isize) -> (r: (Self, Self))
        requires
            self.layout_view().ranks_match(),
            coord_in_bounds(self.dims_of().len() as int, index as int),
            ({
                let i = norm_coord(self.dims_of().len() as int, index as int);
                &&& coord_in_bounds(self.dims_of()[i] as int, position as int)
                &&& axis_offset(self.dims_of()[i] as int, position as int, self.strides_of()[i] as int)
                    <= self.buffer_view().len()
            }),
        ensures
            ({
                let i = norm_coord(self.dims_of().len() as int, index as int);
                let d = self.dims_of()[i] as int;
                let p = norm_coord(d, position as int);
                let at = axis_offset(d, position as int, self.strides_of()[i] as int);
                &&& r.0.dims_of() == self.dims_of().update(i, p as usize)
                &&& r.1.dims_of() == self.dims_of().update(i, (d - p) as usize)
                &&& r.0.strides_of() == self.strides_of()
                &&& r.1.strides_of() == self.strides_of()
                &&& r.0.buffer_view() == self.buffer_view().subrange(0, at)
                &&& r.1.buffer_view() == self.buffer_view().subrange(at, self.buffer_view().len() as int)
            }),
    {
        proof {
            use_type_invariant(&self);
        }
        let i = self.layout.normalize_index(index);
        let dim = self.layout.dims()[i];
        let p = position::unsign_position(dim, position).unwrap();
        let len = self.get_len();
        let at = split_point(dim, p, self.layout.strides()[i], len);
        let l0 = with_dim(&self.layout, i, p);
        let l1 = with_dim(&self.layout, i, dim - p);
        match self.data {
            Share::Borrowed(s) => {
                let (a, b) = s.split_at(at);
                (ViewRef { layout: l0, data: Share::Borrowed(a) }, ViewRef { layout: l1, data: Share::Borrowed(b) })
            },
            Share::Shared(v, x, y) => {
                let w = share_rc(&v);
                let r0 = ViewRef { layout: l0, data: Share::Shared(v, x, x + at) };
                let r1 = ViewRef { layout: l1, data: Share::Shared(w, x + at, y) };
                proof {
                    assert(r0.buffer_view() =~= self.buffer_view().subrange(0, at as int));
                    assert(r1.buffer_view() =~= self.buffer_view().subrange(at as int, self.buffer_view().len() as int));
                }
                (r0, r1)
            },
        }
    }

    /// References the component at `position`. Errors (operation "index") when the position
    /// is out of bounds, and with `InvalidLayout` when the layout does not place it in the
    /// buffer.
    pub fn component(&self, position: &[isize]) -> (r: Result<&E, Error>)
        ensures
            r is Ok <==> position_in_bounds(self.dims_of(), position@) && self.layout_view().ranks_match()
                && offset_of(self.dims_of(), position@, self.strides_of()) < self.buffer_view().len(),
            r matches Ok(x) ==> *x == self.buffer_view()[offset_of(self.dims_of(), position@, self.strides_of())],
            r matches Err(e) ==> e.spec_op() == "index"@,
    {
        let b = self.buf();
        match crate::tensor::locate_in(&self.layout, b.len(), position) {
            Err(e) => Err(e),
            Ok(o) => Ok(&b[o]),
        }
    }

    /// Copies the components, in last-axis-fastest order, after the contents of `mem`.
    pub fn flat_vec(&self, mem: Option<Vec<E>>) -> (r: Vec<E>) where E: Clone
        requires
            self.valid(),
        ensures
            ({
                let m = match mem {
                    Some(v) => v@,
                    None => Seq::<E>::empty(),
                };
                &&& r@.len() == m.len() + self.components().len()
                &&& r@.subrange(0, m.len() as int) == m
                &&& forall|k: int| 0 <= k < self.components().len() ==> cloned::<E>(#[trigger] self.components()[k], r@[m.len() + k])
            }),
    {
        crate::tensor::flat_vec_in(&self.layout, self.buf(), mem)
    }

    /// Copies the components into an owned tensor with the row-major layout of the dims.
    pub fn to_tens(&self) -> (r: Tens<E>) where E: Clone
        requires
            self.valid(),
            suffix_counts_fit(self.dims_of()),
        ensures
            r.dims_of() == self.dims_of(),
            r.strides_of() == row_major_strides(self.dims_of()),
            r.buffer_view().len() == self.components().len(),
            forall|k: int| 0 <= k < self.components().len() ==> cloned::<E>(#[trigger] self.components()[k], r.buffer_view()[k]),
    {
        proof {
            error::lemma_layout_ok_bounds(self.dims_of(), self.strides_of());
        }
        let buffer = self.flat_vec(None);
        let layout = Layout::new(self.layout.dims());
        assert(buffer@.subrange(0, 0) =~= Seq::<E>::empty());
        Tens::from_inner(buffer, layout)
    }
}


/// Where the components of a mutable view live: borrowed, or owned by the view.
pub enum ShareMut<'a, E> {
    Borrowed(&'a mut [E]),
    Owned(Vec<E>),
}

/// A mutable tensor view: a layout over components it borrows mutably or owns.
pub struct ViewMut<'a, E> {
    layout: Layout,
    data: ShareMut<'a, E>,
}

impl<'a, E> ViewMut<'a, E> {
    /// The layout.
    pub closed spec fn layout_view(&self) -> Layout {
        self.layout
    }

    /// The components this view reaches into, as a flat buffer.
    pub closed spec fn buffer_view(&self) -> Seq<E> {
        match self.data {
            ShareMut::Borrowed(s) => s@,
            ShareMut::Owned(v) => v@,
        }
    }

    pub open spec fn dims_of(&self) -> Seq<usize> {
        self.layout_view().dims_view()
    }

    pub open spec fn strides_of(&self) -> Seq<isize> {
        self.layout_view().strides_view()
    }

    /// The layout is valid and fits in the buffer.
    pub open spec fn valid(&self) -> bool {
        layout_fits(self.dims_of(), self.strides_of(), self.buffer_view().len() as int)
    }

    /// The layout is valid, fits in the buffer, and no two positions share an offset.
    pub open spec fn valid_mut(&self) -> bool {
        self.valid() && !error::aliases(self.dims_of(), self.strides_of())
    }

    /// The components in last-axis-fastest order.
    pub open spec fn components(&self) -> Seq<E> {
        components_in(self.dims_of(), self.strides_of(), self.buffer_view())
    }

    /// The buffer.
    fn buf(&self) -> (r: &[E])
        ensures
            r@ == self.buffer_view(),
    {
        match &self.data {
            ShareMut::Borrowed(s) => &**s,
            ShareMut::Owned(v) => v.as_slice(),
        }
    }

    /// The buffer, mutably.
    fn buf_mut(&mut self) -> (r: &mut [E])
        ensures
            r@ == old(self).buffer_view(),
            final(self).buffer_view() == final(r)@,
            final(self).layout_view() == old(self).layout_view(),
    {
        match &mut self.data {
            ShareMut::Borrowed(s) => &mut **s,
            ShareMut::Owned(v) => v.as_mut_slice(),
        }
    }

    /// The dims.
    pub fn dims(&self) -> (r: &[usize])
        ensures
            r@ == self.dims_of(),
    {
        self.layout.dims()
    }

    /// The strides.
    pub fn strides(&self) -> (r: &[isize])
        ensures
            r@ == self.strides_of(),
    {
        self.layout.strides()
    }

    /// A copy of the layout.
    pub fn get_layout(&self) -> (r: Layout)
        ensures
            r.dims_view() == self.dims_of(),
            r.strides_view() == self.strides_of(),
    {
        self.layout.clone()
    }

    /// The length of the buffer this view reaches into.
    pub fn get_len(&self) -> (r: usize)
        ensures
            r == self.buffer_view().len(),
    {
        self.buf().len()
    }

    /// Converts into a shared view of the same components.
    pub fn into_view_ref(self) -> (r: ViewRef<'a, E>)
        ensures
            r.layout_view() == self.layout_view(),
            r.buffer_view() == self.buffer_view(),
    {
        let ViewMut { layout, data } = self;
        match data {
            ShareMut::Borrowed(s) => {
                let t: &'a [E] = s;
                ViewRef { layout, data: Share::Borrowed(t) }
            },
            ShareMut::Owned(v) => {
                let n = v.len();
                let r = ViewRef { layout, data: Share::Shared(Rc::new(v), 0, n) };
                assert(r.buffer_view() =~= v@);
                r
            },
        }
    }

    /// References this view with a shorter lifetime.
    pub fn view_ref(&self) -> (r: ViewRef<'_, E>)
        ensures
            r.dims_of() == self.dims_of(),
            r.strides_of() == self.strides_of(),
            r.buffer_view() == self.buffer_view(),
    {
        ViewRef { layout: self.layout.clone(), data: Share::Borrowed(self.buf()) }
    }

    /// References this view mutably with a shorter lifetime.
    pub fn view_mut(&mut self) -> (r: ViewMut<'_, E>)
        ensures
            r.dims_of() == old(self).dims_of(),
            r.strides_of() == old(self).strides_of(),
            r.buffer_view() == old(self).buffer_view(),
    {
        let layout = self.layout.clone();
        ViewMut { layout, data: ShareMut::Borrowed(self.buf_mut()) }
    }

    /// Broadcasts the axis at `index` to `rhs`, giving a shared view; see
    /// `Layout::broadcast_dim`.
    pub fn broadcast_dim(self, index: isize, rhs: usize) -> (r: ViewRef<'a, E>)
        requires
            error::layout_ok(self.dims_of(), self.strides_of()),
            coord_in_bounds(self.dims_of().len() as int, index as int),
            broadcast_axis_ok(self.dims_of(), norm_coord(self.dims_of().len() as int, index as int), rhs),
        ensures
            ({
                let i = norm_coord(self.dims_of().len() as int, index as int);
                &&& r.dims_of() == broadcast_axis_dims(self.dims_of(), i, rhs)
                &&& r.strides_of() == broadcast_axis_strides(self.dims_of(), self.strides_of(), i, rhs)
            }),
            r.buffer_view() == self.buffer_view(),
    {
        let view = self.into_view_ref();
        let mut layout = view.get_layout();
        layout.broadcast_dim(index, rhs);
        view.relayout(layout)
    }

    /// Broadcasts to the dims `rhs`, giving a shared view; see `Layout::broadcast`.
    pub fn broadcast(self, rhs: &[usize]) -> (r: ViewRef<'a, E>)
        requires
            error::layout_ok(self.dims_of(), self.strides_of()),
            self.dims_of().len() == rhs@.len(),
            broadcast_fits(self.dims_of(), rhs@),
            error::layout_ok(
                broadcast_dims(self.dims_of(), rhs@),
                broadcast_strides(self.dims_of(), self.strides_of(), rhs@),
            ),
        ensures
            r.dims_of() == broadcast_dims(self.dims_of(), rhs@),
            r.strides_of() == broadcast_strides(self.dims_of(), self.strides_of(), rhs@),
            r.buffer_view() == self.buffer_view(),
    {
        let view = self.into_view_ref();
        let mut layout = view.get_layout();
        layout.broadcast(rhs);
        view.relayout(layout)
    }

    /// Reverses the order of components along every axis except the one at `index`.
    pub fn flip_around(self, index: isize) -> (r: Self)
        requires
            self.layout_view().ranks_match(),
            coord_in_bounds(self.dims_of().len() as int, index as int),
            negatable(self.strides_of()),
        ensures
            r.dims_of() == self.dims_of(),
            r.strides_of() == flipped_around(self.strides_of(), norm_coord(self.dims_of().len() as int, index as int)),
            r.buffer_view() == self.buffer_view(),
    {
        let mut view = self;
        view.layout.flip_around(index);
        assert(view.strides_of() =~= flipped_around(self.strides_of(), norm_coord(self.dims_of().len() as int, index as int)));
        view
    }

    /// Reverses the order of components along the axis at `index`.
    pub fn flip_dim(self, index: isize) -> (r: Self)
        requires
            self.layout_view().ranks_match(),
            coord_in_bounds(self.dims_of().len() as int, index as int),
            self.strides_of()[norm_coord(self.dims_of().len() as int, index as int)] != isize::MIN,
        ensures
            r.dims_of() == self.dims_of(),
            r.strides_of() == flipped_at(self.strides_of(), norm_coord(self.dims_of().len() as int, index as int)),
            r.buffer_view() == self.buffer_view(),
    {
        let mut view = self;
        view.layout.flip_dim(index);
        view
    }

    /// Reverses the order of components along every axis.
    pub fn flip(self) -> (r: Self)
        requires
            negatable(self.strides_of()),
        ensures
            r.dims_of() == self.dims_of(),
            r.strides_of() == flipped(self.strides_of()),
            r.buffer_view() == self.buffer_view(),
    {
        let mut view = self;
        view.layout.flip();
        assert(view.strides_of() =~= flipped(self.strides_of()));
        view
    }

    /// Removes an axis of dim 1.
    pub fn squeeze_dim(self, index: isize) -> (r: Self)
        requires
            error::layout_ok(self.dims_of(), self.strides_of()),
            coord_in_bounds(self.dims_of().len() as int, index as int),
            self.dims_of()[norm_coord(self.dims_of().len() as int, index as int)] == 1,
        ensures
            r.dims_of() == self.dims_of().remove(norm_coord(self.dims_of().len() as int, index as int)),
            r.strides_of() == self.strides_of().remove(norm_coord(self.dims_of().len() as int, index as int)),
            r.buffer_view() == self.buffer_view(),
    {
        let mut view = self;
        view.layout.squeeze_dim(index);
        view
    }

    /// Swaps two axes.
    pub fn swap_dims(self, a: isize, b: isize) -> (r: Self)
        requires
            self.layout_view().ranks_match(),
            coord_in_bounds(self.dims_of().len() as int, a as int),
            coord_in_bounds(self.dims_of().len() as int, b as int),
        ensures
            ({
                let i = norm_coord(self.dims_of().len() as int, a as int);
                let j = norm_coord(self.dims_of().len() as int, b as int);
                &&& r.dims_of() == swap_axes(self.dims_of(), i, j)
                &&& r.strides_of() == swap_axes(self.strides_of(), i, j)
            }),
            r.buffer_view() == self.buffer_view(),
    {
        let mut view = self;
        view.layout.swap_dims(a, b);
        view
    }

    /// Inserts an axis of dim 1 and stride 1 at `index` (of the new rank).
    pub fn unsqueeze_dim(self, index: isize) -> (r: Self)
        requires
            error::layout_ok(self.dims_of(), self.strides_of()),
            self.dims_of().len() < usize::MAX,
            coord_in_bounds(self.dims_of().len() + 1int, index as int),
        ensures
            r.dims_of() == self.dims_of().insert(norm_coord(self.dims_of().len() + 1int, index as int), 1),
            r.strides_of() == self.strides_of().insert(norm_coord(self.dims_of().len() + 1int, index as int), 1),
            r.buffer_view() == self.buffer_view(),
    {
        let mut view = self;
        view.layout.unsqueeze_dim(index);
        view
    }

    /// Splits in two along the axis at `index` before the coordinate `position`, keeping the
    /// strides; see `ViewRef::split_at`.
    pub fn split_at(self, index: isize, position: isize) -> (r: (Self, Self))
        requires
            self.layout_view().ranks_match(),
            coord_in_bounds(self.dims_of().len() as int, index as int),
            ({
                let i = norm_coord(self.dims_of().len() as int, index as int);
                &&& coord_in_bounds(self.dims_of()[i] as int, position as int)
                &&& axis_offset(self.dims_of()[i] as int, position as int, self.strides_of()[i] as int)
                    <= self.buffer_view().len()
            }),
        ensures
            ({
                let i = norm_coord(self.dims_of().len() as int, index as int);
                let d = self.dims_of()[i] as int;
                let p = norm_coord(d, position as int);
                let at = axis_offset(d, position as int, self.strides_of()[i] as int);
                &&& r.0.dims_of() == self.dims_of().update(i, p as usize)
                &&& r.1.dims_of() == self.dims_of().update(i, (d - p) as usize)
                &&& r.0.strides_of() == self.strides_of()
                &&& r.1.strides_of() == self.strides_of()
                &&& r.0.buffer_view() == self.buffer_view().subrange(0, at)
                &&& r.1.buffer_view() == self.buffer_view().subrange(at, self.buffer_view().len() as int)
            }),
    {
        let i = self.layout.normalize_index(index);
        let dim = self.layout.dims()[i];
        let p = position::unsign_position(dim, position).unwrap();
        let len = self.get_len();
        let at = split_point(dim, p, self.layout.strides()[i], len);
        let l0 = with_dim(&self.layout, i, p);
        let l1 = with_dim(&self.layout, i, dim - p);
        match self.data {
            ShareMut::Borrowed(s) => {
                let (a, b) = s.split_at_mut(at);
                (ViewMut { layout: l0, data: ShareMut::Borrowed(a) }, ViewMut { layout: l1, data: ShareMut::Borrowed(b) })
            },
            ShareMut::Owned(mut v) => {
                let w = v.split_off(at);
                (ViewMut { layout: l0, data: ShareMut::Owned(v) }, ViewMut { layout: l1, data: ShareMut::Owned(w) })
            },
        }
    }

    /// References the component at `position`; errors as `ViewRef::component` does.
    pub fn component(&self, position: &[isize]) -> (r: Result<&E, Error>)
        ensures
            r is Ok <==> position_in_bounds(self.dims_of(), position@) && self.layout_view().ranks_match()
                && offset_of(self.dims_of(), position@, self.strides_of()) < self.buffer_view().len(),
            r matches Ok(x) ==> *x == self.buffer_view()[offset_of(self.dims_of(), position@, self.strides_of())],
            r matches Err(e) ==> e.spec_op() == "index"@,
    {
        let b = self.buf();
        match crate::tensor::locate_in(&self.layout, b.len(), position) {
            Err(e) => Err(e),
            Ok(o) => Ok(&b[o]),
        }
    }

    /// References the component at `position` mutably; errors as `component` does.
    pub fn component_mut(&mut self, position: &[isize]) -> (r: Result<&mut E, Error>)
        ensures
            r is Ok <==> position_in_bounds(old(self).dims_of(), position@) && old(self).layout_view().ranks_match()
                && offset_of(old(self).dims_of(), position@, old(self).strides_of()) < old(self).buffer_view().len(),
            r matches Ok(x) ==> *x == old(self).buffer_view()[offset_of(old(self).dims_of(), position@, old(self).strides_of())]
                && final(self).buffer_view() == old(self).buffer_view().update(
                offset_of(old(self).dims_of(), position@, old(self).strides_of()),
                *final(x),
            ) && final(self).layout_view() == old(self).layout_view(),
            r matches Err(e) ==> e.spec_op() == "index"@,
    {
        let len = self.get_len();
        match crate::tensor::locate_in(&self.layout, len, position) {
            Err(e) => Err(e),
            Ok(o) => {
                let b = self.buf_mut();
                Ok(&mut b[o])
            },
        }
    }

    /// Copies the components, in last-axis-fastest order, after the contents of `mem`.
    pub fn flat_vec(&self, mem: Option<Vec<E>>) -> (r: Vec<E>) where E: Clone
        requires
            self.valid(),
        ensures
            ({
                let m = match mem {
                    Some(v) => v@,
                    None => Seq::<E>::empty(),
                };
                &&& r@.len() == m.len() + self.components().len()
                &&& r@.subrange(0, m.len() as int) == m
                &&& forall|k: int| 0 <= k < self.components().len() ==> cloned::<E>(#[trigger] self.components()[k], r@[m.len() + k])
            }),
    {
        crate::tensor::flat_vec_in(&self.layout, self.buf(), mem)
    }
}


/// An empty shared view of the given rank: every dim 0. The rank must be at least 1.
pub fn empty<'a, E>(rank: usize) -> (r: ViewRef<'a, E>)
    requires
        rank > 0,
    ensures
        r.dims_of() == Seq::new(rank as nat, |i: int| 0usize),
        r.strides_of() == row_major_strides(Seq::new(rank as nat, |i: int| 0usize)),
        r.buffer_view() == Seq::<E>::empty(),
{
    let (buffer, layout) = Tens::<E>::empty(rank).into_inner();
    share_vec(buffer, layout)
}

/// An empty mutable view of the given rank: every dim 0. The rank must be at least 1.
pub fn empty_mut<'a, E>(rank: usize) -> (r: ViewMut<'a, E>)
    requires
        rank > 0,
    ensures
        r.dims_of() == Seq::new(rank as nat, |i: int| 0usize),
        r.strides_of() == row_major_strides(Seq::new(rank as nat, |i: int| 0usize)),
        r.buffer_view() == Seq::<E>::empty(),
{
    let (buffer, layout) = Tens::<E>::empty(rank).into_inner();
    ViewMut { layout, data: ShareMut::Owned(buffer) }
}

/// A shared view over a vector it takes, without checking the layout.
fn share_vec<'a, E>(buffer: Vec<E>, layout: Layout) -> (r: ViewRef<'a, E>)
    ensures
        r.layout_view() == layout,
        r.buffer_view() == buffer@,
{
    let n = buffer.len();
    let r = ViewRef { layout, data: Share::Shared(Rc::new(buffer), 0, n) };
    assert(r.buffer_view() =~= buffer@);
    r
}

/// A shared view of a scalar: rank 0 over the one value.
pub fn scalar<E>(data: &E) -> (r: ViewRef<'_, E>)
    ensures
        r.dims_of() == Seq::<usize>::empty(),
        r.strides_of() == Seq::<isize>::empty(),
        r.buffer_view() == seq![*data],
{
    ViewRef { layout: Layout::scalar(), data: Share::Borrowed(one_slice(data)) }
}

/// A mutable view of a scalar: rank 0 over the one value.
pub fn scalar_mut<E>(data: &mut E) -> (r: ViewMut<'_, E>)
    ensures
        r.dims_of() == Seq::<usize>::empty(),
        r.strides_of() == Seq::<isize>::empty(),
        r.buffer_view() == seq![*old(data)],
{
    ViewMut { layout: Layout::scalar(), data: ShareMut::Borrowed(one_slice_mut(data)) }
}

/// A shared view that owns the buffer. The layout must be valid for it.
pub fn unique<'a, E>(buffer: Vec<E>, layout: Layout) -> (r: ViewRef<'a, E>)
    requires
        layout_fits(layout.dims_view(), layout.strides_view(), buffer@.len() as int),
    ensures
        r.layout_view() == layout,
        r.buffer_view() == buffer@,
{
    share_vec(buffer, layout)
}

/// A mutable view that owns the buffer. The layout must be valid for it without aliasing.
pub fn unique_mut<'a, E>(buffer: Vec<E>, layout: Layout) -> (r: ViewMut<'a, E>)
    requires
        layout_fits(layout.dims_view(), layout.strides_view(), buffer@.len() as int),
        !error::aliases(layout.dims_view(), layout.strides_view()),
    ensures
        r.layout_view() == layout,
        r.buffer_view() == buffer@,
{
    ViewMut { layout, data: ShareMut::Owned(buffer) }
}

/// A shared rank 1 view of a slice.
pub fn vector<E>(data: &[E]) -> (r: ViewRef<'_, E>)
    requires
        data@.len() <= isize::MAX,
    ensures
        r.dims_of() == seq![data@.len() as usize],
        r.strides_of() == seq![1isize],
        r.buffer_view() == data@,
{
    ViewRef { layout: Layout::vector(data.len()), data: Share::Borrowed(data) }
}

/// A mutable rank 1 view of a slice.
pub fn vector_mut<E>(data: &mut [E]) -> (r: ViewMut<'_, E>)
    requires
        old(data)@.len() <= isize::MAX,
    ensures
        r.dims_of() == seq![old(data)@.len() as usize],
        r.strides_of() == seq![1isize],
        r.buffer_view() == old(data)@,
{
    let layout = Layout::vector(data.len());
    ViewMut { layout, data: ShareMut::Borrowed(data) }
}

impl<'a, E> Default for ViewRef<'a, E> {
    fn default() -> (r: Self)
        ensures
            r.dims_of() == seq![0usize],
            r.buffer_view() == Seq::<E>::empty(),
    {
        let r = empty(1);
        assert(r.dims_of() =~= seq![0usize]);
        r
    }
}

impl<'a, E> Default for ViewMut<'a, E> {
    fn default() -> (r: Self)
        ensures
            r.dims_of() == seq![0usize],
            r.buffer_view() == Seq::<E>::empty(),
    {
        let r = empty_mut(1);
        assert(r.dims_of() =~= seq![0usize]);
        r
    }
}

impl<E> View<E> {
    /// A shared view of this tensor's components. The layout must be valid for the buffer.
    pub fn view_ref(&self) -> (r: ViewRef<'_, E>)
        requires
            self.valid(),
        ensures
            r.dims_of() == self.dims_of(),
            r.strides_of() == self.strides_of(),
            r.buffer_view() == self.buffer_view(),
    {
        ViewRef { layout: self.get_layout(), data: Share::Borrowed(self.buf()) }
    }

    /// A shared view of this tensor's components; errors (operation "view") as
    /// `Layout::validate` does.
    pub fn try_view_ref(&self) -> (r: Result<ViewRef<'_, E>, Error>)
        ensures
            r is Ok <==> self.valid(),
            r matches Ok(v) ==> v.dims_of() == self.dims_of() && v.strides_of() == self.strides_of()
                && v.buffer_view() == self.buffer_view(),
            r matches Err(e) ==> e.spec_op() == "view"@,
    {
        match self.validate() {
            Err(e) => Err(e.with_op("view")),
            Ok(()) => Ok(self.view_ref()),
        }
    }

    /// A mutable view of this tensor's components. The layout must be valid for the buffer
    /// without aliasing.
    pub fn view_mut(&mut self) -> (r: ViewMut<'_, E>)
        requires
            old(self).valid_mut(),
        ensures
            r.dims_of() == old(self).dims_of(),
            r.strides_of() == old(self).strides_of(),
            r.buffer_view() == old(self).buffer_view(),
    {
        let layout = self.get_layout();
        ViewMut { layout, data: ShareMut::Borrowed(self.buf_mut()) }
    }

    /// A mutable view of this tensor's components; errors (operation "view") as
    /// `Layout::validate_mut` does.
    pub fn try_view_mut(&mut self) -> (r: Result<ViewMut<'_, E>, Error>)
        ensures
            r is Ok <==> old(self).valid_mut(),
            r matches Ok(v) ==> v.dims_of() == old(self).dims_of() && v.strides_of() == old(self).strides_of()
                && v.buffer_view() == old(self).buffer_view(),
            r matches Err(e) ==> e.spec_op() == "view"@,
    {
        match self.validate_mut() {
            Err(e) => Err(e.with_op("view")),
            Ok(()) => Ok(self.view_mut()),
        }
    }

    /// A shared view with the axis at `index` broadcast to `rhs`.
    pub fn broadcast_dim(&self, index: isize, rhs: usize) -> (r: ViewRef<'_, E>)
        requires
            self.valid(),
            coord_in_bounds(self.dims_of().len() as int, index as int),
            broadcast_axis_ok(self.dims_of(), norm_coord(self.dims_of().len() as int, index as int), rhs),
        ensures
            ({
                let i = norm_coord(self.dims_of().len() as int, index as int);
                &&& r.dims_of() == broadcast_axis_dims(self.dims_of(), i, rhs)
                &&& r.strides_of() == broadcast_axis_strides(self.dims_of(), self.strides_of(), i, rhs)
            }),
            r.buffer_view() == self.buffer_view(),
    {
        self.view_ref().broadcast_dim(index, rhs)
    }

    /// A shared view broadcast to the dims `rhs`.
    pub fn broadcast(&self, rhs: &[usize]) -> (r: ViewRef<'_, E>)
        requires
            self.valid(),
            self.dims_of().len() == rhs@.len(),
            broadcast_fits(self.dims_of(), rhs@),
            error::layout_ok(
                broadcast_dims(self.dims_of(), rhs@),
                broadcast_strides(self.dims_of(), self.strides_of(), rhs@),
            ),
        ensures
            r.dims_of() == broadcast_dims(self.dims_of(), rhs@),
            r.strides_of() == broadcast_strides(self.dims_of(), self.strides_of(), rhs@),
            r.buffer_view() == self.buffer_view(),
    {
        let mut v = self.view_ref();
        v.broadcast(rhs)
    }

    /// A shared view with every axis but the one at `index` reversed.
    pub fn flip_around(&self, index: isize) -> (r: ViewRef<'_, E>)
        requires
            self.valid(),
            coord_in_bounds(self.dims_of().len() as int, index as int),
            negatable(self.strides_of()),
        ensures
            r.dims_of() == self.dims_of(),
            r.strides_of() == flipped_around(self.strides_of(), norm_coord(self.dims_of().len() as int, index as int)),
            r.buffer_view() == self.buffer_view(),
    {
        proof {
            error::lemma_layout_ok_bounds(self.dims_of(), self.strides_of());
        }
        self.view_ref().flip_around(index)
    }

    /// A shared view with the axis at `index` reversed.
    pub fn flip_dim(&self, index: isize) -> (r: ViewRef<'_, E>)
        requires
            self.valid(),
            coord_in_bounds(self.dims_of().len() as int, index as int),
            self.strides_of()[norm_coord(self.dims_of().len() as int, index as int)] != isize::MIN,
        ensures
            r.dims_of() == self.dims_of(),
            r.strides_of() == flipped_at(self.strides_of(), norm_coord(self.dims_of().len() as int, index as int)),
            r.buffer_view() == self.buffer_view(),
    {
        proof {
            error::lemma_layout_ok_bounds(self.dims_of(), self.strides_of());
        }
        self.view_ref().flip_dim(index)
    }

    /// A shared view with every axis reversed.
    pub fn flip(&self) -> (r: ViewRef<'_, E>)
        requires
            self.valid(),
            negatable(self.strides_of()),
        ensures
            r.dims_of() == self.dims_of(),
            r.strides_of() == flipped(self.strides_of()),
            r.buffer_view() == self.buffer_view(),
    {
        self.view_ref().flip()
    }

    /// A shared view with an axis of dim 1 removed.
    pub fn squeeze_dim(&self, index: isize) -> (r: ViewRef<'_, E>)
        requires
            self.valid(),
            coord_in_bounds(self.dims_of().len() as int, index as int),
            self.dims_of()[norm_coord(self.dims_of().len() as int, index as int)] == 1,
        ensures
            r.dims_of() == self.dims_of().remove(norm_coord(self.dims_of().len() as int, index as int)),
            r.strides_of() == self.strides_of().remove(norm_coord(self.dims_of().len() as int, index as int)),
            r.buffer_view() == self.buffer_view(),
    {
        self.view_ref().squeeze_dim(index)
    }

    /// A shared view with two axes swapped.
    pub fn swap_dims(&self, a: isize, b: isize) -> (r: ViewRef<'_, E>)
        requires
            self.valid(),
            coord_in_bounds(self.dims_of().len() as int, a as int),
            coord_in_bounds(self.dims_of().len() as int, b as int),
        ensures
            ({
                let i = norm_coord(self.dims_of().len() as int, a as int);
                let j = norm_coord(self.dims_of().len() as int, b as int);
                &&& r.dims_of() == swap_axes(self.dims_of(), i, j)
                &&& r.strides_of() == swap_axes(self.strides_of(), i, j)
            }),
            r.buffer_view() == self.buffer_view(),
    {
        proof {
            error::lemma_layout_ok_bounds(self.dims_of(), self.strides_of());
        }
        self.view_ref().swap_dims(a, b)
    }

    /// A shared view with an axis of dim 1 and stride 1 inserted at `index`.
    pub fn unsqueeze_dim(&self, index: isize) -> (r: ViewRef<'_, E>)
        requires
            self.valid(),
            self.dims_of().len() < usize::MAX,
            coord_in_bounds(self.dims_of().len() + 1int, index as int),
        ensures
            r.dims_of() == self.dims_of().insert(norm_coord(self.dims_of().len() + 1int, index as int), 1),
            r.strides_of() == self.strides_of().insert(norm_coord(self.dims_of().len() + 1int, index as int), 1),
            r.buffer_view() == self.buffer_view(),
    {
        self.view_ref().unsqueeze_dim(index)
    }

    /// Two shared views split along the axis at `index`; see `ViewRef::split_at`.
    pub fn split_at(&self, index: isize, position: isize) -> (r: (ViewRef<'_, E>, ViewRef<'_, E>))
        requires
            self.valid(),
            coord_in_bounds(self.dims_of().len() as int, index as int),
            ({
                let i = norm_coord(self.dims_of().len() as int, index as int);
                &&& coord_in_bounds(self.dims_of()[i] as int, position as int)
                &&& axis_offset(self.dims_of()[i] as int, position as int, self.strides_of()[i] as int)
                    <= self.buffer_view().len()
            }),
        ensures
            ({
                let i = norm_coord(self.dims_of().len() as int, index as int);
                let d = self.dims_of()[i] as int;
                let p = norm_coord(d, position as int);
                let at = axis_offset(d, position as int, self.strides_of()[i] as int);
                &&& r.0.dims_of() == self.dims_of().update(i, p as usize)
                &&& r.1.dims_of() == self.dims_of().update(i, (d - p) as usize)
                &&& r.0.strides_of() == self.strides_of()
                &&& r.1.strides_of() == self.strides_of()
                &&& r.0.buffer_view() == self.buffer_view().subrange(0, at)
                &&& r.1.buffer_view() == self.buffer_view().subrange(at, self.buffer_view().len() as int)
            }),
    {
        proof {
            error::lemma_layout_ok_bounds(self.dims_of(), self.strides_of());
        }
        self.view_ref().split_at(index, position)
    }

    /// Two mutable views split along the axis at `index`; see `ViewRef::split_at`.
    pub fn split_at_mut(&mut self, index: isize, position: isize) -> (r: (ViewMut<'_, E>, ViewMut<'_, E>))
        requires
            old(self).valid_mut(),
            coord_in_bounds(old(self).dims_of().len() as int, index as int),
            ({
                let i = norm_coord(old(self).dims_of().len() as int, index as int);
                &&& coord_in_bounds(old(self).dims_of()[i] as int, position as int)
                &&& axis_offset(old(self).dims_of()[i] as int, position as int, old(self).strides_of()[i] as int)
                    <= old(self).buffer_view().len()
            }),
        ensures
            ({
                let i = norm_coord(old(self).dims_of().len() as int, index as int);
                let d = old(self).dims_of()[i] as int;
                let p = norm_coord(d, position as int);
                let at = axis_offset(d, position as int, old(self).strides_of()[i] as int);
                &&& r.0.dims_of() == old(self).dims_of().update(i, p as usize)
                &&& r.1.dims_of() == old(self).dims_of().update(i, (d - p) as usize)
                &&& r.0.strides_of() == old(self).strides_of()
                &&& r.1.strides_of() == old(self).strides_of()
                &&& r.0.buffer_view() == old(self).buffer_view().subrange(0, at)
                &&& r.1.buffer_view() == old(self).buffer_view().subrange(at, old(self).buffer_view().len() as int)
            }),
    {
        proof {
            error::lemma_layout_ok_bounds(self.dims_of(), self.strides_of());
        }
        self.view_mut().split_at(index, position)
    }
}


impl<E> Tens<E> {
    /// Converts into a shared view that owns the buffer. The layout must be valid for it.
    pub fn into_unique_ref<'a>(self) -> (r: ViewRef<'a, E>)
        requires
            self.valid(),
        ensures
            r.layout_view() == self.layout_view(),
            r.buffer_view() == self.buffer_view(),
    {
        let (buffer, layout) = self.into_inner();
        unique(buffer, layout)
    }

    /// Converts into a mutable view that owns the buffer. The layout must be valid for it
    /// without aliasing.
    pub fn into_unique_mut<'a>(self) -> (r: ViewMut<'a, E>)
        requires
            self.valid_mut(),
        ensures
            r.layout_view() == self.layout_view(),
            r.buffer_view() == self.buffer_view(),
    {
        let (buffer, layout) = self.into_inner();
        unique_mut(buffer, layout)
    }
}

impl<E> Tensor<E> {
    /// Converts into a shared view that owns the buffer. The layout must be valid for it.
    pub fn into_unique<'a>(self) -> (r: ViewRef<'a, E>)
        requires
            self.inner().valid(),
        ensures
            r.layout_view() == self.layout_view(),
            r.buffer_view() == self.buffer_view(),
    {
        let (buffer, layout) = self.into_inner();
        unique(buffer, layout)
    }

    /// Converts into a mutable view that owns the buffer. The layout must be valid for it
    /// without aliasing.
    pub fn into_unique_mut<'a>(self) -> (r: ViewMut<'a, E>)
        requires
            self.valid_mut(),
        ensures
            r.layout_view() == self.layout_view(),
            r.buffer_view() == self.buffer_view(),
    {
        let (buffer, layout) = self.into_inner();
        unique_mut(buffer, layout)
    }
}

impl<'a, E> ViewRef<'a, E> {
    /// Copies the components into a `Tensor` with the row-major layout of the dims.
    pub fn to_tensor(&self) -> (r: Tensor<E>) where E: Clone
        requires
            self.valid(),
            suffix_counts_fit(self.dims_of()),
        ensures
            r.dims_of() == self.dims_of(),
            r.strides_of() == row_major_strides(self.dims_of()),
            r.buffer_view().len() == self.components().len(),
            forall|k: int| 0 <= k < self.components().len() ==> cloned::<E>(#[trigger] self.components()[k], r.buffer_view()[k]),
    {
        Tensor::wrap_row_major(self.to_tens())
    }
}

impl<'a, E> ViewMut<'a, E> {
    /// Copies the components into a `Tensor` with the row-major layout of the dims.
    pub fn to_tensor(&self) -> (r: Tensor<E>) where E: Clone
        requires
            self.valid(),
            suffix_counts_fit(self.dims_of()),
        ensures
            r.dims_of() == self.dims_of(),
            r.strides_of() == row_major_strides(self.dims_of()),
            r.buffer_view().len() == self.components().len(),
            forall|k: int| 0 <= k < self.components().len() ==> cloned::<E>(#[trigger] self.components()[k], r.buffer_view()[k]),
    {
        Tensor::wrap_row_major(self.view_ref().to_tens())
    }
}

impl<E> View<E> {
    /// Copies the components into a `Tensor` with the row-major layout of the dims.
    pub fn to_tensor(&self) -> (r: Tensor<E>) where E: Clone
        requires
            self.valid(),
            suffix_counts_fit(self.dims_of()),
        ensures
            r.dims_of() == self.dims_of(),
            r.strides_of() == row_major_strides(self.dims_of()),
            r.buffer_view().len() == self.components().len(),
            forall|k: int| 0 <= k < self.components().len() ==> cloned::<E>(#[trigger] self.components()[k], r.buffer_view()[k]),
    {
        Tensor::wrap_row_major(self.view_ref().to_tens())
    }
}


impl<'a, E> ViewRef<'a, E> {
    /// This view's components from `off` on, under another layout.
    fn tail(&self, off: usize, layout: Layout) -> (r: Self)
        requires
            off <= self.buffer_view().len(),
        ensures
            r.layout_view() == layout,
            r.buffer_view() == self.buffer_view().subrange(off as int, self.buffer_view().len() as int),
    {
        proof {
            use_type_invariant(self);
        }
        match &self.data {
            Share::Borrowed(s) => {
                let t = vstd::slice::slice_subrange(*s, off, s.len());
                ViewRef { layout, data: Share::Borrowed(t) }
            },
            Share::Shared(v, a, b) => {
                let r = ViewRef { layout, data: Share::Shared(share_rc(v), *a + off, *b) };
                assert(r.buffer_view() =~= self.buffer_view().subrange(off as int, self.buffer_view().len() as int));
                r
            },
        }
    }

    /// Slices the axis at `index` to a range: the view starts at the first component kept;
    /// see `Layout::slice_dim`.
    pub fn slice_dim(&self, index: isize, range: AxisRange) -> (r: Self)
        requires
            self.layout_view().ranks_match(),
            coord_in_bounds(self.dims_of().len() as int, index as int),
            ({
                let i = norm_coord(self.dims_of().len() as int, index as int);
                let d = self.dims_of()[i] as int;
                let s = self.strides_of()[i] as int;
                let start = slice_start(d, range.start);
                &&& end_ok(d, range.start)
                &&& end_ok(d, range.end)
                &&& start <= slice_stop(d, range.end)
                &&& s < 0 ==> slice_stop(d, range.end) <= d
                &&& slice_shift(d, start, slice_stop(d, range.end), s) <= self.buffer_view().len()
            }),
        ensures
            ({
                let i = norm_coord(self.dims_of().len() as int, index as int);
                let d = self.dims_of()[i] as int;
                let start = slice_start(d, range.start);
                let shift = slice_shift(d, start, slice_stop(d, range.end), self.strides_of()[i] as int);
                &&& r.dims_of() == self.dims_of().update(i, (slice_stop(d, range.end) - start) as usize)
                &&& r.strides_of() == self.strides_of()
                &&& r.buffer_view() == self.buffer_view().subrange(shift, self.buffer_view().len() as int)
            }),
    {
        let n = self.get_len();
        let mut layout = self.layout.clone();
        let mut off: usize = 0;
        layout.slice_dim(index, &mut off, range);
        assert(off <= n);
        self.tail(off, layout)
    }

    /// Slices every axis to a range: the view starts at the first component kept; see
    /// `Layout::slice`.
    pub fn slice(&self, ranges: &[AxisRange]) -> (r: Self)
        requires
            dims_fit_isize(self.dims_of()),
            forall|i: int| 0 <= i < ranges@.len() ==> #[trigger] range_fits(ranges@[i]),
            slice_checks_pass(self.dims_of(), self.strides_of(), ranges@),
            slice_computable(self.dims_of(), self.strides_of(), ranges@, 0),
            offset_of(self.dims_of(), slice_origin(self.dims_of(), ranges@), self.strides_of()) <= self.buffer_view().len(),
        ensures
            r.dims_of() == sliced_dims(self.dims_of(), ranges@),
            r.strides_of() == self.strides_of(),
            r.buffer_view() == self.buffer_view().subrange(
                slice_offset(self.dims_of(), self.strides_of(), ranges@),
                self.buffer_view().len() as int,
            ),
    {
        let mut layout = self.layout.clone();
        let mut off: usize = 0;
        layout.slice(&mut off, ranges);
        self.tail(off, layout)
    }
}

impl<'a, E> ViewMut<'a, E> {
    /// This view's components from `off` on, under another layout.
    fn tail(self, off: usize, layout: Layout) -> (r: Self)
        requires
            off <= self.buffer_view().len(),
        ensures
            r.layout_view() == layout,
            r.buffer_view() == self.buffer_view().subrange(off as int, self.buffer_view().len() as int),
    {
        match self.data {
            ShareMut::Borrowed(s) => {
                let (_, t) = s.split_at_mut(off);
                ViewMut { layout, data: ShareMut::Borrowed(t) }
            },
            ShareMut::Owned(mut v) => {
                let t = v.split_off(off);
                ViewMut { layout, data: ShareMut::Owned(t) }
            },
        }
    }

    /// Slices the axis at `index` to a range; see `ViewRef::slice_dim`.
    pub fn slice_dim(self, index: isize, range: AxisRange) -> (r: Self)
        requires
            self.layout_view().ranks_match(),
            coord_in_bounds(self.dims_of().len() as int, index as int),
            ({
                let i = norm_coord(self.dims_of().len() as int, index as int);
                let d = self.dims_of()[i] as int;
                let s = self.strides_of()[i] as int;
                let start = slice_start(d, range.start);
                &&& end_ok(d, range.start)
                &&& end_ok(d, range.end)
                &&& start <= slice_stop(d, range.end)
                &&& s < 0 ==> slice_stop(d, range.end) <= d
                &&& slice_shift(d, start, slice_stop(d, range.end), s) <= self.buffer_view().len()
            }),
        ensures
            ({
                let i = norm_coord(self.dims_of().len() as int, index as int);
                let d = self.dims_of()[i] as int;
                let start = slice_start(d, range.start);
                let shift = slice_shift(d, start, slice_stop(d, range.end), self.strides_of()[i] as int);
                &&& r.dims_of() == self.dims_of().update(i, (slice_stop(d, range.end) - start) as usize)
                &&& r.strides_of() == self.strides_of()
                &&& r.buffer_view() == self.buffer_view().subrange(shift, self.buffer_view().len() as int)
            }),
    {
        let n = self.get_len();
        let mut layout = self.layout.clone();
        let mut off: usize = 0;
        layout.slice_dim(index, &mut off, range);
        assert(off <= n);
        self.tail(off, layout)
    }

    /// Slices every axis to a range; see `ViewRef::slice`.
    pub fn slice(self, ranges: &[AxisRange]) -> (r: Self)
        requires
            dims_fit_isize(self.dims_of()),
            forall|i: int| 0 <= i < ranges@.len() ==> #[trigger] range_fits(ranges@[i]),
            slice_checks_pass(self.dims_of(), self.strides_of(), ranges@),
            slice_computable(self.dims_of(), self.strides_of(), ranges@, 0),
            offset_of(self.dims_of(), slice_origin(self.dims_of(), ranges@), self.strides_of()) <= self.buffer_view().len(),
        ensures
            r.dims_of() == sliced_dims(self.dims_of(), ranges@),
            r.strides_of() == self.strides_of(),
            r.buffer_view() == self.buffer_view().subrange(
                slice_offset(self.dims_of(), self.strides_of(), ranges@),
                self.buffer_view().len() as int,
            ),
    {
        let mut layout = self.layout.clone();
        let mut off: usize = 0;
        layout.slice(&mut off, ranges);
        self.tail(off, layout)
    }
}

impl<E> View<E> {
    /// A shared view of the axis at `index` sliced to a range; see `ViewRef::slice_dim`.
    pub fn slice_dim(&self, index: isize, range: AxisRange) -> (r: ViewRef<'_, E>)
        requires
            self.valid(),
            coord_in_bounds(self.dims_of().len() as int, index as int),
            ({
                let i = norm_coord(self.dims_of().len() as int, index as int);
                let d = self.dims_of()[i] as int;
                let s = self.strides_of()[i] as int;
                let start = slice_start(d, range.start);
                &&& end_ok(d, range.start)
                &&& end_ok(d, range.end)
                &&& start <= slice_stop(d, range.end)
                &&& s < 0 ==> slice_stop(d, range.end) <= d
                &&& slice_shift(d, start, slice_stop(d, range.end), s) <= self.buffer_view().len()
            }),
        ensures
            ({
                let i = norm_coord(self.dims_of().len() as int, index as int);
                let d = self.dims_of()[i] as int;
                let start = slice_start(d, range.start);
                let shift = slice_shift(d, start, slice_stop(d, range.end), self.strides_of()[i] as int);
                &&& r.dims_of() == self.dims_of().update(i, (slice_stop(d, range.end) - start) as usize)
                &&& r.strides_of() == self.strides_of()
                &&& r.buffer_view() == self.buffer_view().subrange(shift, self.buffer_view().len() as int)
            }),
    {
        proof {
            error::lemma_layout_ok_bounds(self.dims_of(), self.strides_of());
        }
        self.view_ref().slice_dim(index, range)
    }

    /// A shared view of every axis sliced to a range; see `ViewRef::slice`.
    pub fn slice(&self, ranges: &[AxisRange]) -> (r: ViewRef<'_, E>)
        requires
            self.valid(),
            forall|i: int| 0 <= i < ranges@.len() ==> #[trigger] range_fits(ranges@[i]),
            slice_checks_pass(self.dims_of(), self.strides_of(), ranges@),
            slice_computable(self.dims_of(), self.strides_of(), ranges@, 0),
            offset_of(self.dims_of(), slice_origin(self.dims_of(), ranges@), self.strides_of()) <= self.buffer_view().len(),
        ensures
            r.dims_of() == sliced_dims(self.dims_of(), ranges@),
            r.strides_of() == self.strides_of(),
            r.buffer_view() == self.buffer_view().subrange(
                slice_offset(self.dims_of(), self.strides_of(), ranges@),
                self.buffer_view().len() as int,
            ),
    {
        proof {
            error::lemma_layout_ok_bounds(self.dims_of(), self.strides_of());
        }
        self.view_ref().slice(ranges)
    }
}

} // verus!
