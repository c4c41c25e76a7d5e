//! Tensors that own their buffer: `View` (the shared core, whose layout validity is checked
//! lazily), `Tens` and `Tensor`.
use crate::error::{self, Error, KindView};
use crate::layout::{normalized_strides, row_major_strides, suffix_counts_fit, Layout};
use crate::position::{
    self, buffer_len_of, coord_in_bounds, count_of, dims_fit_isize, flat_offset, linear_index,
    norm_coord, offset_of, offsets_injective, position_in_bounds, Position, PositionIter,
};
use crate::equality::{equality_obeyed, same_value};
use vstd::prelude::*;
use vstd::view::View as _;

verus! {

/// A multidimensional array: a layout over a flat buffer. Producing a view whose layout is
/// invalid for its buffer is allowed; functions that need validity say so.
#[derive(Debug)]
pub struct View<E> {
    layout: Layout,
    buffer: Vec<E>,
}

impl<E> View<E> {
    /// The layout.
    pub closed spec fn layout_view(&self) -> Layout {
        self.layout
    }

    /// The buffer.
    pub closed spec fn buffer_view(&self) -> Seq<E> {
        self.buffer@
    }

    /// The dims.
    pub open spec fn dims_of(&self) -> Seq<usize> {
        self.layout_view().dims_view()
    }

    /// The strides.
    pub open spec fn strides_of(&self) -> Seq<isize> {
        self.layout_view().strides_view()
    }

    /// The layout is valid and fits in the buffer.
    pub open spec fn valid(&self) -> bool {
        layout_fits(self.dims_of(), self.strides_of(), self.buffer_view().len() as int)
    }

    /// The layout is valid, fits in the buffer, and no two positions share an offset.
    pub open spec fn valid_mut(&self) -> bool {
        &&& self.valid()
        &&& !error::aliases(self.dims_of(), self.strides_of())
    }

    /// The components in last-axis-fastest order.
    pub open spec fn components(&self) -> Seq<E> {
        components_in(self.dims_of(), self.strides_of(), self.buffer_view())
    }

    /// The component at position `q`: the buffer element at its offset.
    pub open spec fn at(&self, q: Seq<isize>) -> E {
        self.buffer_view()[offset_of(self.dims_of(), q, self.strides_of())]
    }

    /// The layout is normalized and exactly fills the buffer.
    pub open spec fn layout_normalized(&self) -> bool {
        &&& normalized_strides(self.dims_of(), self.strides_of())
        &&& count_of(self.dims_of()) == self.buffer_view().len()
    }
}

/// A valid layout's count, dims and buffer length fit their machine types.
pub proof fn lemma_valid_bounds<E>(v: &View<E>)
    requires
        v.valid(),
    ensures
        count_of(v.dims_of()) <= usize::MAX,
        dims_fit_isize(v.dims_of()),
        buffer_len_of(v.dims_of(), v.strides_of()) <= isize::MAX,
        v.dims_of().len() == v.strides_of().len(),
{
    error::lemma_layout_ok_bounds(v.dims_of(), v.strides_of());
}

impl<E> View<E> {
    /// Creates a view from a buffer and a layout without checking validity.
    pub fn from_parts(buffer: Vec<E>, layout: Layout) -> (r: Self)
        ensures
            r.layout_view() == layout,
            r.buffer_view() == buffer@,
    {
        View { layout, buffer }
    }

    /// Converts into the buffer and layout.
    pub fn into_parts(self) -> (r: (Vec<E>, Layout))
        ensures
            r.0@ == self.buffer_view(),
            r.1 == self.layout_view(),
    {
        (self.buffer, self.layout)
    }

    /// References this view.
    pub fn as_view(&self) -> (r: &View<E>)
        ensures
            r == self,
    {
        self
    }

    /// References this view mutably.
    pub fn as_mut_view(&mut self) -> (r: &mut View<E>)
        ensures
            *r == *old(self),
            *final(self) == *final(r),
    {
        self
    }

    /// The buffer.
    pub(crate) fn buf(&self) -> (r: &[E])
        ensures
            r@ == self.buffer_view(),
    {
        self.buffer.as_slice()
    }

    /// The buffer, mutably; the layout is left as it is.
    pub(crate) fn buf_mut(&mut self) -> (r: &mut [E])
        ensures
            r@ == old(self).buffer_view(),
            final(self).buffer_view() == final(r)@,
            final(self).layout_view() == old(self).layout_view(),
    {
        self.buffer.as_mut_slice()
    }

    /// References this view.
    pub fn view(&self) -> (r: &View<E>)
        ensures
            r == self,
    {
        self
    }

    /// The dims.
    pub fn dims(&self) -> (r: &[usize])
        ensures
            r@ == self.dims_of(),
    {
        self.layout.dims()
    }

    /// The strides.
    pub fn strides(&self) -> (r: &[isize])
        ensures
            r@ == self.strides_of(),
    {
        self.layout.strides()
    }

    /// The number of axes.
    pub fn rank(&self) -> (r: usize)
        ensures
            r == self.dims_of().len(),
    {
        self.layout.rank()
    }

    /// A copy of the layout.
    pub fn get_layout(&self) -> (r: Layout)
        ensures
            r.dims_view() == self.dims_of(),
            r.strides_view() == self.strides_of(),
    {
        self.layout.clone()
    }

    /// The length of the buffer.
    pub fn get_len(&self) -> (r: usize)
        ensures
            r == self.buffer_view().len(),
    {
        self.buffer.len()
    }

    /// The number of components.
    pub fn count(&self) -> (r: usize)
        requires
            count_of(self.dims_of()) <= usize::MAX,
        ensures
            r == count_of(self.dims_of()),
    {
        self.layout.count()
    }

    /// The buffer length the layout needs.
    pub fn len(&self) -> (r: usize)
        requires
            self.layout_view().ranks_match(),
            buffer_len_of(self.dims_of(), self.strides_of()) <= usize::MAX,
        ensures
            r == buffer_len_of(self.dims_of(), self.strides_of()),
    {
        self.layout.len()
    }

    /// Whether any dim is 0.
    pub fn is_empty(&self) -> (r: bool)
        ensures
            r == self.dims_of().contains(0),
    {
        self.layout.is_empty()
    }

    /// Whether this is a scalar: no axes.
    pub fn is_scalar(&self) -> (r: bool)
        ensures
            r == (self.dims_of().len() == 0),
    {
        self.layout.is_scalar()
    }

    /// Whether the layout is normalized and its count equals the buffer length.
    pub fn is_layout_normalized(&self) -> (r: bool)
        ensures
            r == self.layout_normalized(),
    {
        if !self.layout.is_normalized() {
            return false;
        }
        proof {
            let d = self.dims_of();
            if d.len() > 0 {
                crate::layout::lemma_normalized_at(d, self.strides_of(), d.len() - 1);
            }
        }
        self.layout.count() == self.buffer.len()
    }

    /// Checks that the layout is valid for the buffer; see `Layout::validate`.
    pub fn validate(&self) -> (r: Result<(), Error>)
        ensures
            r is Ok <==> self.valid(),
    {
        self.layout.validate(self.buffer.len())
    }

    /// Checks that the layout is valid without aliasing for the buffer; see
    /// `Layout::validate_mut`.
    pub fn validate_mut(&self) -> (r: Result<(), Error>)
        ensures
            r is Ok <==> self.valid_mut(),
    {
        self.layout.validate_mut(self.buffer.len())
    }

    /// Iterates over the positions of this tensor.
    pub fn positions(&self) -> (r: PositionIter)
        requires
            dims_fit_isize(self.dims_of()),
            count_of(self.dims_of()) <= usize::MAX,
        ensures
            r.dims_view() == self.dims_of(),
            r.remaining() == count_of(self.dims_of()),
    {
        self.layout.positions()
    }

    /// References the component at `position`. Errors (operation "index") when the position
    /// is out of bounds, and with `InvalidLayout` when the layout does not place it in the
    /// buffer.
    pub fn component(&self, position: &[isize]) -> (r: Result<&E, Error>)
        ensures
            r is Ok <==> position_in_bounds(self.dims_of(), position@)
                && self.layout_view().ranks_match() && offset_of(
                self.dims_of(),
                position@,
                self.strides_of(),
            ) < self.buffer_view().len(),
            r matches Ok(x) ==> *x == self.buffer_view()[offset_of(
                self.dims_of(),
                position@,
                self.strides_of(),
            )],
            r matches Err(e) ==> e.spec_op() == "index"@,
            !position_in_bounds(self.dims_of(), position@) ==> (r matches Err(e)
                && e.spec_kind() != KindView::InvalidLayout),
            position_in_bounds(self.dims_of(), position@) ==> (r matches Err(e) ==> e.spec_kind()
                == KindView::InvalidLayout),
            self.dims_of().len() != position@.len() ==> (r matches Err(e) && e.spec_kind()
                == KindView::SpecificRankMismatch(position@.len() as usize)),
            self.dims_of().len() == position@.len() && !position_in_bounds(self.dims_of(), position@)
                ==> (r matches Err(e) && e.spec_kind() == KindView::OutOfBounds(position@)),
    {
        let o = locate_in(&self.layout, self.buffer.len(), position);
        match o {
            Err(e) => Err(e),
            Ok(o) => Ok(&self.buffer[o]),
        }
    }

    /// References the component at `position` mutably; errors as `component` does.
    pub fn component_mut(&mut self, position: &[isize]) -> (r: Result<&mut E, Error>)
        ensures
            r is Ok <==> position_in_bounds(old(self).dims_of(), position@)
                && old(self).layout_view().ranks_match() && offset_of(
                old(self).dims_of(),
                position@,
                old(self).strides_of(),
            ) < old(self).buffer_view().len(),
            r matches Ok(x) ==> *x == old(self).buffer_view()[offset_of(
                old(self).dims_of(),
                position@,
                old(self).strides_of(),
            )] && final(self).buffer_view() == old(self).buffer_view().update(
                offset_of(old(self).dims_of(), position@, old(self).strides_of()),
                *final(x),
            ) && final(self).layout_view() == old(self).layout_view(),
            r is Err ==> *final(self) == *old(self),
            r matches Err(e) ==> e.spec_op() == "index"@,
            position_in_bounds(old(self).dims_of(), position@) ==> (r matches Err(e) ==> e.spec_kind()
                == KindView::InvalidLayout),
            old(self).dims_of().len() != position@.len() ==> (r matches Err(e) && e.spec_kind()
                == KindView::SpecificRankMismatch(position@.len() as usize)),
            old(self).dims_of().len() == position@.len() && !position_in_bounds(old(self).dims_of(), position@)
                ==> (r matches Err(e) && e.spec_kind() == KindView::OutOfBounds(position@)),
    {
        let o = locate_in(&self.layout, self.buffer.len(), position);
        match o {
            Err(e) => Err(e),
            Ok(o) => Ok(&mut self.buffer[o]),
        }
    }

}

/// The buffer offset of the component at `position` under `layout` over a buffer of `len`
/// components, or the error (operation "index") that indexing gives.
pub(crate) fn locate_in(layout: &Layout, len: usize, position: &[isize]) -> (r: Result<usize, Error>)
    ensures
        r is Ok <==> position_in_bounds(layout.dims_view(), position@) && layout.ranks_match()
            && offset_of(layout.dims_view(), position@, layout.strides_view()) < len,
        r matches Ok(o) ==> o == offset_of(layout.dims_view(), position@, layout.strides_view()),
        r matches Err(e) ==> e.spec_op() == "index"@,
        !position_in_bounds(layout.dims_view(), position@) ==> (r matches Err(e) && e.spec_kind()
            != KindView::InvalidLayout),
        position_in_bounds(layout.dims_view(), position@) ==> (r matches Err(e) ==> e.spec_kind()
            == KindView::InvalidLayout),
        layout.dims_view().len() != position@.len() ==> (r matches Err(e) && e.spec_kind()
            == KindView::SpecificRankMismatch(position@.len() as usize)),
        layout.dims_view().len() == position@.len() && !position_in_bounds(layout.dims_view(), position@)
            ==> (r matches Err(e) && e.spec_kind() == KindView::OutOfBounds(position@)),
{
    match error::check_bounds(layout.dims(), position) {
        Err(e) => {
            return Err(e.with_op("index"));
        },
        Ok(()) => {},
    }
    if layout.dims().len() != layout.strides().len() {
        return Err(Error::invalid_layout(layout.clone(), "index"));
    }
    match position::checked_offset(layout.dims(), position, layout.strides()) {
        None => Err(Error::invalid_layout(layout.clone(), "index")),
        Some(o) => {
            if o >= len {
                Err(Error::invalid_layout(layout.clone(), "index"))
            } else {
                Ok(o)
            }
        },
    }
}

/// The layout is valid and fits in a buffer of `len` components.
pub open spec fn layout_fits(dims: Seq<usize>, strides: Seq<isize>, len: int) -> bool {
    &&& error::layout_ok(dims, strides)
    &&& buffer_len_of(dims, strides) <= len
}

/// Copies the components of `layout` over `buffer`, in last-axis-fastest order, after the
/// contents of `mem`.
pub(crate) fn flat_vec_in<E: Clone>(layout: &Layout, buffer: &[E], mem: Option<Vec<E>>) -> (r: Vec<E>)
    requires
        layout_fits(layout.dims_view(), layout.strides_view(), buffer@.len() as int),
    ensures
        ({
            let m = match mem {
                Some(v) => v@,
                None => Seq::<E>::empty(),
            };
            let c = components_in(layout.dims_view(), layout.strides_view(), buffer@);
            &&& r@.len() == m.len() + c.len()
            &&& r@.subrange(0, m.len() as int) == m
            &&& forall|k: int| 0 <= k < c.len() ==> cloned::<E>(#[trigger] c[k], r@[m.len() + k])
        }),
{
    proof {
        error::lemma_layout_ok_bounds(layout.dims_view(), layout.strides_view());
    }
    let ghost comps = components_in(layout.dims_view(), layout.strides_view(), buffer@);
    let mut r: Vec<E> = match mem {
        Some(v) => v,
        None => Vec::new(),
    };
    let ghost m = r@;
    let count = layout.count();
    if count == 0 {
        assert(r@.subrange(0, m.len() as int) =~= m);
        return r;
    }
    let dims = layout.dims();
    let strides = layout.strides();
    let blen = buffer.len();
    let mut p = Position::new(dims.len());
    proof {
        position::lemma_zeros_in_bounds(dims@, p@);
    }
    let mut k: usize = 0;
    while k < count
        invariant
            layout_fits(dims@, strides@, buffer@.len() as int),
            blen == buffer@.len(),
            comps == components_in(dims@, strides@, buffer@),
            count == count_of(dims@),
            dims_fit_isize(dims@),
            dims@.len() == strides@.len(),
            k <= count,
            r@.len() == m.len() + k,
            r@.subrange(0, m.len() as int) == m,
            forall|j: int| 0 <= j < k ==> cloned::<E>(#[trigger] comps[j], r@[m.len() + j]),
            position_in_bounds(dims@, p@),
            k < count ==> linear_index(dims@, p@) == k,
        decreases count - k,
    {
        proof {
            position::lemma_offset_below_len(dims@, p@, strides@);
            position::lemma_flat_offset(dims@, strides@, p@);
        }
        let o = position::compute_offset(dims, p.as_slice(), strides);
        let x = buffer[o].clone();
        let ghost before = r@;
        r.push(x);
        proof {
            assert(r@.subrange(0, m.len() as int) =~= before.subrange(0, m.len() as int));
            assert(comps[k as int] == buffer@[o as int]);
        }
        if k + 1 < count {
            let c = p.increment(dims);
            proof {
                position::lemma_suffix_value_bounds(dims@, p@, dims@.len());
                position::lemma_no_wrap_up(linear_index(dims@, p@), k as int, count as int, c as int, 1);
            }
        }
        k = k + 1;
    }
    r
}

/// Applies `f` to every component of `layout` over `buffer`, in last-axis-fastest order,
/// giving a tensor of the results with the same dims and the row-major layout.
pub(crate) fn map_in<E, Y, F: Fn(&E) -> Y>(layout: &Layout, buffer: &[E], f: F) -> (r: Tens<Y>)
    requires
        layout_fits(layout.dims_view(), layout.strides_view(), buffer@.len() as int),
        suffix_counts_fit(layout.dims_view()),
        forall|k: int| 0 <= k < count_of(layout.dims_view()) ==> call_requires(f, (&#[trigger] components_in(layout.dims_view(), layout.strides_view(), buffer@)[k],)),
    ensures
        r.dims_of() == layout.dims_view(),
        r.strides_of() == row_major_strides(layout.dims_view()),
        r.buffer_view().len() == count_of(layout.dims_view()),
        forall|k: int| 0 <= k < count_of(layout.dims_view()) ==> call_ensures(f, (&#[trigger] components_in(layout.dims_view(), layout.strides_view(), buffer@)[k],), r.buffer_view()[k]),
{
    proof {
        error::lemma_layout_ok_bounds(layout.dims_view(), layout.strides_view());
    }
    let ghost comps = components_in(layout.dims_view(), layout.strides_view(), buffer@);
    let mut r: Vec<Y> = Vec::new();
    let count = layout.count();
    let dims = layout.dims();
    let strides = layout.strides();
    if count > 0 {
        let blen = buffer.len();
        let mut p = Position::new(dims.len());
        proof {
            position::lemma_zeros_in_bounds(dims@, p@);
        }
        let mut k: usize = 0;
        while k < count
            invariant
                layout_fits(dims@, strides@, buffer@.len() as int),
                blen == buffer@.len(),
                comps == components_in(dims@, strides@, buffer@),
                count == count_of(dims@),
                dims_fit_isize(dims@),
                dims@.len() == strides@.len(),
                k <= count,
                r@.len() == k,
                forall|j: int| 0 <= j < count ==> call_requires(f, (&#[trigger] comps[j],)),
                forall|j: int| 0 <= j < k ==> call_ensures(f, (&#[trigger] comps[j],), r@[j]),
                position_in_bounds(dims@, p@),
                k < count ==> linear_index(dims@, p@) == k,
            decreases count - k,
        {
            proof {
                position::lemma_offset_below_len(dims@, p@, strides@);
                position::lemma_flat_offset(dims@, strides@, p@);
                assert(comps[k as int] == buffer@[offset_of(dims@, p@, strides@)]);
            }
            let o = position::compute_offset(dims, p.as_slice(), strides);
            let y = f(&buffer[o]);
            r.push(y);
            if k + 1 < count {
                let c = p.increment(dims);
                proof {
                    position::lemma_suffix_value_bounds(dims@, p@, dims@.len());
                    position::lemma_no_wrap_up(linear_index(dims@, p@), k as int, count as int, c as int, 1);
                }
            }
            k = k + 1;
        }
    }
    let newlayout = Layout::new(dims);
    Tens::from_inner(r, newlayout)
}

impl<E> View<E> {
    /// Copies the components, in last-axis-fastest order, after the contents of `mem`.
    pub fn flat_vec(&self, mem: Option<Vec<E>>) -> (r: Vec<E>) where E: Clone
        requires
            self.valid(),
        ensures
            ({
                let m = match mem {
                    Some(v) => v@,
                    None => Seq::<E>::empty(),
                };
                &&& r@.len() == m.len() + count_of(self.dims_of())
                &&& r@.subrange(0, m.len() as int) == m
                &&& forall|k: int|
                    0 <= k < count_of(self.dims_of()) ==> cloned::<E>(
                        #[trigger] self.components()[k],
                        r@[m.len() + k],
                    )
            }),
    {
        proof {
            position::lemma_suffix_count_pos_any(self.dims_of(), self.dims_of().len());
        }
        flat_vec_in(&self.layout, self.buffer.as_slice(), mem)
    }

    /// Applies `f` to every component, in last-axis-fastest order, giving a tensor of the
    /// results with the same dims and the row-major layout.
    pub fn map<Y, F: Fn(&E) -> Y>(&self, f: F) -> (r: Tens<Y>)
        requires
            self.valid(),
            suffix_counts_fit(self.dims_of()),
            forall|k: int| 0 <= k < count_of(self.dims_of()) ==> call_requires(f, (&#[trigger] self.components()[k],)),
        ensures
            r.dims_of() == self.dims_of(),
            r.strides_of() == row_major_strides(self.dims_of()),
            r.buffer_view().len() == count_of(self.dims_of()),
            forall|k: int| 0 <= k < count_of(self.dims_of()) ==> call_ensures(f, (&#[trigger] self.components()[k],), r.buffer_view()[k]),
    {
        let ghost c = components_in(self.dims_of(), self.strides_of(), self.buffer@);
        assert forall|k: int| 0 <= k < count_of(self.dims_of()) implies call_requires(f, (&#[trigger] c[k],)) by {
            assert(c[k] == self.components()[k]);
        }
        map_in(&self.layout, self.buffer.as_slice(), f)
    }

    /// Copies this view into an owned tensor with the same layout and buffer.
    pub fn to_tens(&self) -> (r: Tens<E>) where E: Clone
        ensures
            r.layout_view().dims_view() == self.dims_of(),
            r.layout_view().strides_view() == self.strides_of(),
            r.buffer_view().len() == self.buffer_view().len(),
            forall|i: int| 0 <= i < self.buffer_view().len() ==> cloned::<E>(#[trigger] self.buffer_view()[i], r.buffer_view()[i]),
    {
        let mut b: Vec<E> = Vec::new();
        let mut i: usize = 0;
        while i < self.buffer.len()
            invariant
                i <= self.buffer@.len(),
                b@.len() == i,
                forall|j: int| 0 <= j < i ==> cloned::<E>(#[trigger] self.buffer@[j], b@[j]),
            decreases self.buffer@.len() - i,
        {
            b.push(self.buffer[i].clone());
            i = i + 1;
        }
        Tens::from_inner(b, self.layout.clone())
    }
}

/// A growable multidimensional array that owns its buffer. Producing a `Tens` whose layout is
/// invalid for its buffer is allowed; functions that need validity say so.
#[derive(Debug)]
pub struct Tens<E>(View<E>);

impl<E> core::ops::Deref for Tens<E> {
    type Target = View<E>;

    fn deref(&self) -> (r: &View<E>)
        ensures
            *r == self.inner(),
    {
        &self.0
    }
}

impl<E> Tens<E> {
    /// The view this tensor owns.
    pub closed spec fn inner(&self) -> View<E> {
        self.0
    }

    pub open spec fn layout_view(&self) -> Layout {
        self.inner().layout_view()
    }

    pub open spec fn buffer_view(&self) -> Seq<E> {
        self.inner().buffer_view()
    }

    pub open spec fn dims_of(&self) -> Seq<usize> {
        self.inner().dims_of()
    }

    pub open spec fn strides_of(&self) -> Seq<isize> {
        self.inner().strides_of()
    }

    pub open spec fn valid(&self) -> bool {
        self.inner().valid()
    }

    pub open spec fn valid_mut(&self) -> bool {
        self.inner().valid_mut()
    }

    pub open spec fn components(&self) -> Seq<E> {
        self.inner().components()
    }

    pub open spec fn at(&self, q: Seq<isize>) -> E {
        self.inner().at(q)
    }

    pub open spec fn layout_normalized(&self) -> bool {
        self.inner().layout_normalized()
    }

    /// Creates a tensor from a buffer and a layout without checking validity.
    pub fn from_inner(buffer: Vec<E>, layout: Layout) -> (r: Self)
        ensures
            r.layout_view() == layout,
            r.buffer_view() == buffer@,
    {
        Tens(View::from_parts(buffer, layout))
    }
}

/// The capacity of a vector, by `Vec::capacity`; the contract claims only that it is at least
/// the length, as the documentation of `Vec` guarantees.
#[verifier::external_body]
fn vec_capacity<E>(v: &Vec<E>) -> (r: usize)
    ensures
        r >= v@.len(),
{
    v.capacity()
}

impl<E> Tens<E> {
    /// References this tensor as a view.
    pub fn as_view(&self) -> (r: &View<E>)
        ensures
            *r == self.inner(),
    {
        &self.0
    }

    /// References this tensor mutably as a view.
    pub fn as_mut_view(&mut self) -> (r: &mut View<E>)
        ensures
            *r == old(self).inner(),
            final(self).inner() == *final(r),
    {
        &mut self.0
    }

    /// References the buffer.
    pub fn buffer(&self) -> (r: &[E])
        ensures
            r@ == self.buffer_view(),
    {
        self.0.buffer.as_slice()
    }

    /// References the buffer mutably; the layout is left as it is.
    pub fn buffer_mut(&mut self) -> (r: &mut [E])
        ensures
            r@ == old(self).buffer_view(),
            final(self).buffer_view() == final(r)@,
            final(self).layout_view() == old(self).layout_view(),
    {
        self.0.buffer.as_mut_slice()
    }

    /// The length of the buffer.
    pub fn buffer_len(&self) -> (r: usize)
        ensures
            r == self.buffer_view().len(),
    {
        self.0.buffer.len()
    }

    /// The capacity of the buffer: at least its length.
    pub fn buffer_cap(&self) -> (r: usize)
        ensures
            r >= self.buffer_view().len(),
    {
        vec_capacity(&self.0.buffer)
    }

    /// References the layout.
    pub fn layout(&self) -> (r: &Layout)
        ensures
            *r == self.layout_view(),
    {
        &self.0.layout
    }

    /// References the layout mutably; the buffer is left as it is. Producing a layout that is
    /// invalid for the buffer is allowed.
    pub fn layout_mut(&mut self) -> (r: &mut Layout)
        ensures
            *r == old(self).layout_view(),
            final(self).layout_view() == *final(r),
            final(self).buffer_view() == old(self).buffer_view(),
    {
        &mut self.0.layout
    }

    /// References the dims mutably.
    pub fn dims_mut(&mut self) -> (r: &mut [usize])
        ensures
            r@ == old(self).dims_of(),
            final(self).dims_of() == final(r)@,
            final(self).strides_of() == old(self).strides_of(),
            final(self).buffer_view() == old(self).buffer_view(),
    {
        self.0.layout.dims_mut()
    }

    /// References the strides mutably.
    pub fn strides_mut(&mut self) -> (r: &mut [isize])
        ensures
            r@ == old(self).strides_of(),
            final(self).strides_of() == final(r)@,
            final(self).dims_of() == old(self).dims_of(),
            final(self).buffer_view() == old(self).buffer_view(),
    {
        self.0.layout.strides_mut()
    }
}


impl<E> Tens<E> {
    /// A tensor of the given rank with every dim 0 and an empty buffer. The rank must be at
    /// least 1: a scalar has one component.
    pub fn empty(rank: usize) -> (r: Self)
        requires
            rank > 0,
        ensures
            r.dims_of() == Seq::new(rank as nat, |i: int| 0usize),
            r.strides_of() == row_major_strides(Seq::new(rank as nat, |i: int| 0usize)),
            r.buffer_view() == Seq::<E>::empty(),
    {
        let mut dims: Vec<usize> = Vec::new();
        let mut i: usize = 0;
        while i < rank
            invariant
                i <= rank,
                dims@ == Seq::new(i as nat, |j: int| 0usize),
            decreases rank - i,
        {
            dims.push(0);
            i = i + 1;
            assert(dims@ =~= Seq::new(i as nat, |j: int| 0usize));
        }
        proof {
            assert forall|k: int| 0 <= k <= dims@.len() implies #[trigger] position::suffix_count(dims@, k as nat) <= usize::MAX by {
                if k > 0 {
                    position::lemma_suffix_count_zero(dims@, dims@.len() - k, k as nat);
                }
            }
        }
        let layout = Layout::new(dims.as_slice());
        Tens::from_inner(Vec::new(), layout)
    }

    /// A scalar: rank 0, one component.
    pub fn scalar(data: E) -> (r: Self)
        ensures
            r.dims_of() == Seq::<usize>::empty(),
            r.strides_of() == Seq::<isize>::empty(),
            r.buffer_view() == seq![data],
    {
        let mut buffer: Vec<E> = Vec::new();
        buffer.push(data);
        assert(buffer@ =~= seq![data]);
        Tens::from_inner(buffer, Layout::scalar())
    }

    /// A rank 1 tensor over the vector.
    pub fn vector(data: Vec<E>) -> (r: Self)
        requires
            data@.len() <= isize::MAX,
        ensures
            r.dims_of() == seq![data@.len() as usize],
            r.strides_of() == seq![1isize],
            r.buffer_view() == data@,
    {
        let layout = Layout::vector(data.len());
        Tens::from_inner(data, layout)
    }

    /// Creates a tensor with the row-major layout of `dims` over `data`. Errors (operation
    /// "new") when a dim exceeds `isize::MAX` or the layout is invalid for the buffer.
    pub fn try_new(data: Vec<E>, dims: &[usize]) -> (r: Result<Self, Error>)
        requires
            suffix_counts_fit(dims@),
        ensures
            r is Ok <==> dims_fit_isize(dims@) && error::layout_ok(dims@, row_major_strides(dims@))
                && buffer_len_of(dims@, row_major_strides(dims@)) <= data@.len(),
            r matches Ok(t) ==> t.dims_of() == dims@ && t.strides_of() == row_major_strides(dims@)
                && t.buffer_view() == data@,
            r matches Err(e) ==> e.spec_op() == "new"@,
            !dims_fit_isize(dims@) ==> (r matches Err(e) && e.spec_kind() == KindView::DimOverflow),
            dims_fit_isize(dims@) && error::layout_ok(dims@, row_major_strides(dims@))
                && buffer_len_of(dims@, row_major_strides(dims@)) > data@.len() ==> (r matches Err(e)
                && e.spec_kind() == (KindView::BufferTooSmall {
                available: data@.len() as usize,
                required: buffer_len_of(dims@, row_major_strides(dims@)) as usize,
            })),
    {
        let layout = match Layout::try_new(dims) {
            Ok(l) => l,
            Err(e) => {
                return Err(e);
            },
        };
        match layout.validate(data.len()) {
            Err(e) => Err(e.with_op("new")),
            Ok(()) => Ok(Tens::from_inner(data, layout)),
        }
    }

    /// Creates a tensor with the row-major layout of `dims` over `data`, which must be valid.
    pub fn new(data: Vec<E>, dims: &[usize]) -> (r: Self)
        requires
            suffix_counts_fit(dims@),
            dims_fit_isize(dims@),
            error::layout_ok(dims@, row_major_strides(dims@)),
            buffer_len_of(dims@, row_major_strides(dims@)) <= data@.len(),
        ensures
            r.dims_of() == dims@,
            r.strides_of() == row_major_strides(dims@),
            r.buffer_view() == data@,
    {
        match Self::try_new(data, dims) {
            Ok(t) => t,
            Err(_) => {
                proof {
                    assert(false);
                }
                Tens::from_inner(Vec::new(), Layout::scalar())
            },
        }
    }
}

impl<E> Tens<E> {
    /// Converts into the buffer.
    pub fn into_buffer(self) -> (r: Vec<E>)
        ensures
            r@ == self.buffer_view(),
    {
        self.0.buffer
    }

    /// Converts into the buffer and the layout.
    pub fn into_inner(self) -> (r: (Vec<E>, Layout))
        ensures
            r.0@ == self.buffer_view(),
            r.1 == self.layout_view(),
    {
        self.0.into_parts()
    }

    /// Swaps in a new buffer, returning the old one. The layout is left as it is.
    pub fn replace_buffer(&mut self, replacement: Vec<E>) -> (r: Vec<E>)
        ensures
            r@ == old(self).buffer_view(),
            final(self).buffer_view() == replacement@,
            final(self).layout_view() == old(self).layout_view(),
    {
        let mut b = replacement;
        std::mem::swap(&mut b, &mut self.0.buffer);
        b
    }

    /// Sets the buffer. The layout is left as it is.
    pub fn set_buffer(&mut self, buffer: Vec<E>)
        ensures
            final(self).buffer_view() == buffer@,
            final(self).layout_view() == old(self).layout_view(),
    {
        self.replace_buffer(buffer);
    }

    /// Takes the buffer, leaving an empty one.
    pub fn take_buffer(&mut self) -> (r: Vec<E>)
        ensures
            r@ == old(self).buffer_view(),
            final(self).buffer_view() == Seq::<E>::empty(),
            final(self).layout_view() == old(self).layout_view(),
    {
        self.replace_buffer(Vec::new())
    }

    /// Reverses the order of components along every axis.
    pub fn flip(&mut self) -> (r: &mut Self)
        requires
            forall|i: int| 0 <= i < old(self).strides_of().len() ==> #[trigger] old(self).strides_of()[i] != isize::MIN,
        ensures
            r.dims_of() == old(self).dims_of(),
            r.strides_of() == Seq::new(old(self).strides_of().len(), |i: int| -old(self).strides_of()[i] as isize),
            r.buffer_view() == old(self).buffer_view(),
            *final(self) == *final(r),
    {
        self.0.layout.flip();
        assert(self.strides_of() =~= Seq::new(old(self).strides_of().len(), |i: int| -old(self).strides_of()[i] as isize));
        self
    }

    /// Reverses the order of components along the axis at `index`.
    pub fn flip_dim(&mut self, index: isize) -> (r: &mut Self)
        requires
            old(self).layout_view().ranks_match(),
            coord_in_bounds(old(self).dims_of().len() as int, index as int),
            old(self).strides_of()[norm_coord(old(self).dims_of().len() as int, index as int)] != isize::MIN,
        ensures
            ({
                let i = norm_coord(old(self).dims_of().len() as int, index as int);
                &&& r.dims_of() == old(self).dims_of()
                &&& r.strides_of() == old(self).strides_of().update(i, -old(self).strides_of()[i] as isize)
            }),
            r.buffer_view() == old(self).buffer_view(),
            *final(self) == *final(r),
    {
        self.0.layout.flip_dim(index);
        self
    }

    /// Reverses the order of components along every axis except the one at `index`.
    pub fn flip_around(&mut self, index: isize) -> (r: &mut Self)
        requires
            old(self).layout_view().ranks_match(),
            coord_in_bounds(old(self).dims_of().len() as int, index as int),
            forall|i: int| 0 <= i < old(self).strides_of().len() ==> #[trigger] old(self).strides_of()[i] != isize::MIN,
        ensures
            ({
                let k = norm_coord(old(self).dims_of().len() as int, index as int);
                &&& r.dims_of() == old(self).dims_of()
                &&& r.strides_of() == Seq::new(old(self).strides_of().len(), |i: int| if i == k { old(self).strides_of()[i] } else { -old(self).strides_of()[i] as isize })
            }),
            r.buffer_view() == old(self).buffer_view(),
            *final(self) == *final(r),
    {
        let ghost k = norm_coord(old(self).dims_of().len() as int, index as int);
        self.0.layout.flip_around(index);
        assert(self.strides_of() =~= Seq::new(old(self).strides_of().len(), |i: int| if i == k { old(self).strides_of()[i] } else { -old(self).strides_of()[i] as isize }));
        self
    }

    /// Swaps two axes.
    pub fn swap_dims(&mut self, a: isize, b: isize) -> (r: &mut Self)
        requires
            old(self).layout_view().ranks_match(),
            coord_in_bounds(old(self).dims_of().len() as int, a as int),
            coord_in_bounds(old(self).dims_of().len() as int, b as int),
        ensures
            ({
                let i = norm_coord(old(self).dims_of().len() as int, a as int);
                let j = norm_coord(old(self).dims_of().len() as int, b as int);
                &&& r.dims_of() == old(self).dims_of().update(i, old(self).dims_of()[j]).update(j, old(self).dims_of()[i])
                &&& r.strides_of() == old(self).strides_of().update(i, old(self).strides_of()[j]).update(j, old(self).strides_of()[i])
            }),
            r.buffer_view() == old(self).buffer_view(),
            *final(self) == *final(r),
    {
        self.0.layout.swap_dims(a, b);
        self
    }

    /// Removes an axis of dim 1.
    pub fn squeeze_dim(&mut self, index: isize) -> (r: &mut Self)
        requires
            error::layout_ok(old(self).dims_of(), old(self).strides_of()),
            coord_in_bounds(old(self).dims_of().len() as int, index as int),
            old(self).dims_of()[norm_coord(old(self).dims_of().len() as int, index as int)] == 1,
        ensures
            ({
                let i = norm_coord(old(self).dims_of().len() as int, index as int);
                &&& r.dims_of() == old(self).dims_of().remove(i)
                &&& r.strides_of() == old(self).strides_of().remove(i)
            }),
            r.buffer_view() == old(self).buffer_view(),
            *final(self) == *final(r),
    {
        self.0.layout.squeeze_dim(index);
        self
    }

    /// Inserts an axis of dim 1 and stride 1 at `index` (of the new rank).
    pub fn unsqueeze_dim(&mut self, index: isize) -> (r: &mut Self)
        requires
            error::layout_ok(old(self).dims_of(), old(self).strides_of()),
            old(self).dims_of().len() < usize::MAX,
            coord_in_bounds(old(self).dims_of().len() + 1int, index as int),
        ensures
            ({
                let i = norm_coord(old(self).dims_of().len() + 1int, index as int);
                &&& r.dims_of() == old(self).dims_of().insert(i, 1)
                &&& r.strides_of() == old(self).strides_of().insert(i, 1)
            }),
            r.buffer_view() == old(self).buffer_view(),
            *final(self) == *final(r),
    {
        self.0.layout.unsqueeze_dim(index);
        self
    }
}


/// Some place before `k` of a full iteration sits at offset `o`.
pub open spec fn taken_before(dims: Seq<usize>, strides: Seq<isize>, k: int, o: int) -> bool {
    exists|i: int| 0 <= i < k && flat_offset(dims, strides, i) == o
}

/// Under a normalized layout that fills its buffer, the components are the buffer.
pub proof fn lemma_normalized_components<E>(v: &View<E>)
    requires
        v.layout_normalized(),
    ensures
        v.components() == v.buffer_view(),
        v.strides_of() == row_major_strides(v.dims_of()),
{
    let d = v.dims_of();
    let s = v.strides_of();
    assert(normalized_strides(d, s));
    lemma_normalized_row_major(d, s);
    if count_of(d) > 0 {
        position::lemma_count_pos_no_zero(d);
        assert forall|i: int| 0 <= i < d.len() implies #[trigger] d[i] <= isize::MAX by {
            let k = d.len() - 1 - i;
            let a = d[i] as int;
            let b = position::suffix_count(d, k as nat);
            position::lemma_suffix_count_pos(d, k as nat);
            lemma_normalized_axis(d, s, k);
            assert(position::suffix_count(d, (k + 1) as nat) == a * b);
            assert(a <= a * b) by (nonlinear_arith)
                requires
                    a >= 0,
                    b >= 1,
            ;
        }
    }
    assert forall|k: int| 0 <= k < count_of(d) implies #[trigger] v.components()[k] == v.buffer_view()[k] by {
        position::lemma_flat_offset_row_major(d, s, k);
    }
    assert(v.components() =~= v.buffer_view());
}

/// One axis of normalized strides, counted from the last.
proof fn lemma_normalized_axis(dims: Seq<usize>, strides: Seq<isize>, k: int)
    requires
        normalized_strides(dims, strides),
        0 <= k < dims.len(),
    ensures
        strides[dims.len() - 1 - k] == position::suffix_count(dims, k as nat),
        position::suffix_count(dims, (k + 1) as nat) <= isize::MAX,
{
    assert(strides[dims.len() - 1 - k] == position::suffix_count(dims, k as nat));
}

/// Normalized strides are the row-major strides.
pub proof fn lemma_normalized_row_major(dims: Seq<usize>, strides: Seq<isize>)
    requires
        normalized_strides(dims, strides),
    ensures
        strides == row_major_strides(dims),
{
    assert forall|i: int| 0 <= i < dims.len() implies #[trigger] strides[i] == row_major_strides(dims)[i] by {
        let k = dims.len() - 1 - i;
        assert(strides[dims.len() - 1 - k] == position::suffix_count(dims, k as nat));
    }
    assert(strides =~= row_major_strides(dims));
}

/// Row-major strides of dims without a zero, whose count fits in `isize`, are normalized.
pub proof fn lemma_row_major_normalized(dims: Seq<usize>)
    requires
        count_of(dims) <= isize::MAX,
        forall|i: int| 0 <= i < dims.len() ==> #[trigger] dims[i] >= 1,
    ensures
        normalized_strides(dims, row_major_strides(dims)),
{
    let s = row_major_strides(dims);
    assert forall|k: int| 0 <= k < dims.len() implies #[trigger] s[dims.len() - 1 - k] == position::suffix_count(dims, k as nat)
        && position::suffix_count(dims, (k + 1) as nat) <= isize::MAX by {
        position::lemma_suffix_count_mono(dims, (k + 1) as nat, dims.len());
        position::lemma_suffix_count_mono(dims, k as nat, dims.len());
    }
}

/// Every product of the last dims fits in `isize`: the row-major strides are exact.
pub open spec fn suffix_counts_fit_isize(dims: Seq<usize>) -> bool {
    forall|k: int| 0 <= k <= dims.len() ==> #[trigger] position::suffix_count(dims, k as nat) <= isize::MAX
}

/// When every product of the last dims fits in `isize`, the row-major strides are normalized.
pub proof fn lemma_row_major_normalized_fit(dims: Seq<usize>)
    requires
        suffix_counts_fit_isize(dims),
    ensures
        normalized_strides(dims, row_major_strides(dims)),
{
    let s = row_major_strides(dims);
    assert forall|k: int| 0 <= k < dims.len() implies #[trigger] s[dims.len() - 1 - k] == position::suffix_count(dims, k as nat)
        && position::suffix_count(dims, (k + 1) as nat) <= isize::MAX by {
        position::lemma_suffix_count_pos_any(dims, k as nat);
        assert(position::suffix_count(dims, k as nat) <= isize::MAX);
        assert(position::suffix_count(dims, (k + 1) as nat) <= isize::MAX);
    }
}

impl<E> Tens<E> {
    /// Rearranges the buffer into the row-major order of the dims, so that the layout is
    /// normalized, keeping the component at every position. A layout that is not valid
    /// without aliasing is replaced by the rank 1 layout of the buffer, which stays as it is.
    /// An already normalized tensor is left as it is.
    pub fn normalize_layout(&mut self) -> (r: &mut Self)
        requires
            old(self).valid_mut() ==> suffix_counts_fit(old(self).dims_of()),
            old(self).layout_normalized() || old(self).valid_mut() || old(self).buffer_view().len()
                <= isize::MAX,
        ensures
            *final(self) == *final(r),
            old(self).layout_normalized() ==> *r == *old(self),
            !old(self).layout_normalized() && old(self).valid_mut() ==> r.dims_of() == old(self).dims_of()
                && r.strides_of() == row_major_strides(old(self).dims_of())
                && r.buffer_view() == old(self).components(),
            !old(self).layout_normalized() && !old(self).valid_mut() ==> r.dims_of() == seq![
                old(self).buffer_view().len() as usize,
            ] && r.strides_of() == seq![1isize] && r.buffer_view() == old(self).buffer_view(),
            !old(self).valid_mut() || !old(self).dims_of().contains(0) || suffix_counts_fit_isize(
                old(self).dims_of(),
            ) ==> r.layout_normalized(),
            old(self).valid_mut() ==> forall|q: Seq<isize>| position_in_bounds(old(self).dims_of(), q)
                ==> #[trigger] r.at(q) == old(self).at(q),
    {
        if self.0.is_layout_normalized() {
            return self;
        }
        if self.0.validate_mut().is_err() {
            let len = self.0.buffer.len();
            self.0.layout = Layout::vector(len);
            proof {
                let d = seq![len];
                assert(position::suffix_count(d, 1) == len * position::suffix_count(d, 0));
            }
            return self;
        }
        proof {
            lemma_valid_bounds(&self.0);
            position::lemma_injective_count(self.dims_of(), self.strides_of());
        }
        let ghost od = self.dims_of();
        let ghost os = self.strides_of();
        let ghost ob = self.buffer_view();
        let ghost oc = self.components();
        let newlayout = Layout::new(self.0.layout.dims());
        let mut buffer = self.take_buffer();
        let n = buffer.len();
        let mut temp: Vec<Option<E>> = Vec::new();
        while buffer.len() > 0
            invariant
                n == ob.len(),
                temp@.len() + buffer@.len() == n,
                buffer@ == ob.subrange(0, n - temp@.len()),
                forall|j: int| 0 <= j < temp@.len() ==> #[trigger] temp@[j] == Some(ob[n - 1 - j]),
            decreases buffer@.len(),
        {
            let ghost b0 = buffer@;
            match buffer.pop() {
                Some(x) => {
                    temp.push(Some(x));
                },
                None => {},
            }
            assert(buffer@ =~= ob.subrange(0, n - temp@.len()));
        }
        let dims = self.0.layout.dims();
        let strides = self.0.layout.strides();
        let count = self.0.layout.count();
        let mut out: Vec<E> = Vec::new();
        if count > 0 {
            let mut p = Position::new(dims.len());
            proof {
                position::lemma_zeros_in_bounds(dims@, p@);
            }
            let mut k: usize = 0;
            while k < count
                invariant
                    dims@ == od,
                    strides@ == os,
                    dims@.len() == strides@.len(),
                    dims_fit_isize(od),
                    count == count_of(od),
                    offsets_injective(od, os),
                    buffer_len_of(od, os) <= n == ob.len(),
                    oc == Seq::new(count_of(od) as nat, |i: int| ob[flat_offset(od, os, i)]),
                    k <= count,
                    temp@.len() == n,
                    out@.len() == k,
                    forall|j: int| 0 <= j < k ==> #[trigger] out@[j] == oc[j],
                    forall|j: int| 0 <= j < n ==> (#[trigger] temp@[j] is Some <==> !taken_before(od, os, k as int, n - 1 - j)),
                    forall|j: int| 0 <= j < n && temp@[j] is Some ==> #[trigger] temp@[j] == Some(ob[n - 1 - j]),
                    position_in_bounds(dims@, p@),
                    k < count ==> linear_index(dims@, p@) == k,
                decreases count - k,
            {
                proof {
                    position::lemma_offset_below_len(dims@, p@, strides@);
                    position::lemma_flat_offset(dims@, strides@, p@);
                }
                let o = position::compute_offset(dims, p.as_slice(), strides);
                let idx = n - 1 - o;
                proof {
                    if taken_before(od, os, k as int, o as int) {
                        let i = choose|i: int| 0 <= i < k && flat_offset(od, os, i) == o;
                        assert(flat_offset(od, os, i) != flat_offset(od, os, k as int));
                    }
                    assert(temp@[idx as int] is Some);
                }
                let mut x: Option<E> = None;
                temp.set_and_swap(idx, &mut x);
                match x {
                    Some(e) => {
                        out.push(e);
                    },
                    None => {},
                }
                proof {
                    assert(out@[k as int] == oc[k as int]);
                    assert forall|j: int| 0 <= j < n implies (#[trigger] temp@[j] is Some <==> !taken_before(od, os, k + 1, n - 1 - j)) by {
                        if j == idx {
                            assert(flat_offset(od, os, k as int) == n - 1 - j);
                        } else {
                            if taken_before(od, os, k + 1, n - 1 - j) {
                                let i = choose|i: int| 0 <= i < k + 1 && flat_offset(od, os, i) == n - 1 - j;
                                assert(i != k);
                                assert(taken_before(od, os, k as int, n - 1 - j));
                            }
                            if taken_before(od, os, k as int, n - 1 - j) {
                                let i = choose|i: int| 0 <= i < k && flat_offset(od, os, i) == n - 1 - j;
                                assert(taken_before(od, os, k + 1, n - 1 - j));
                            }
                        }
                    }
                }
                if k + 1 < count {
                    let c = p.increment(dims);
                    proof {
                        position::lemma_suffix_value_bounds(dims@, p@, dims@.len());
                        position::lemma_no_wrap_up(linear_index(dims@, p@), k as int, count as int, c as int, 1);
                    }
                }
                k = k + 1;
            }
        }
        assert(out@ =~= oc);
        self.0.buffer = out;
        self.0.layout = newlayout;
        proof {
            let d = self.dims_of();
            if !d.contains(0) {
                assert forall|i: int| 0 <= i < d.len() implies #[trigger] d[i] >= 1 by {
                    if d[i] == 0 {
                        assert(d.contains(0));
                    }
                }
                lemma_row_major_normalized(d);
            } else if suffix_counts_fit_isize(d) {
                lemma_row_major_normalized_fit(d);
            }
            assert forall|q: Seq<isize>| position_in_bounds(od, q) implies #[trigger] self.at(q) == ob[offset_of(od, q, os)] by {
                position::lemma_flat_offset(od, os, q);
                position::lemma_suffix_value_bounds(od, q, od.len());
                position::lemma_normalized_offset(od, q, self.strides_of(), od.len());
            }
        }
        self
    }
}


/// The components of a tensor with the given layout over `buffer`, in last-axis-fastest order.
pub open spec fn components_in<E>(dims: Seq<usize>, strides: Seq<isize>, buffer: Seq<E>) -> Seq<E> {
    Seq::new(count_of(dims) as nat, |k: int| buffer[flat_offset(dims, strides, k)])
}

/// The sequence with the elements at `i` and `j` exchanged.
pub open spec fn swap_axes<T>(s: Seq<T>, i: int, j: int) -> Seq<T> {
    s.update(i, s[j]).update(j, s[i])
}

impl<E> Tens<E> {
    /// Normalizes the layout as `normalize_layout` does, after checking that the layout is
    /// valid without aliasing; otherwise errors (operation "rearrange") and changes nothing.
    pub fn checked_normalize_layout(&mut self) -> (r: Result<&mut Self, Error>)
        requires
            old(self).valid_mut() ==> suffix_counts_fit(old(self).dims_of()),
        ensures
            r is Ok <==> old(self).valid_mut(),
            r matches Err(e) ==> e.spec_op() == "rearrange"@ && *final(self) == *old(self),
            r matches Ok(t) ==> *final(self) == *final(t) && t.dims_of() == old(self).dims_of()
                && t.strides_of() == row_major_strides(old(self).dims_of())
                && t.buffer_view() == old(self).components(),
            r matches Ok(t) ==> (!old(self).dims_of().contains(0) || suffix_counts_fit_isize(old(self).dims_of())
                ==> t.layout_normalized()),
    {
        match self.0.validate_mut() {
            Err(e) => {
                return Err(e.with_op("rearrange"));
            },
            Ok(()) => {},
        }
        proof {
            if self.layout_normalized() {
                lemma_normalized_components(&self.0);
            }
        }
        Ok(self.normalize_layout())
    }

    /// Converts into the components in last-axis-fastest order, normalizing the layout first;
    /// a layout that is neither normalized nor valid without aliasing gives the buffer as it is.
    pub fn into_flat_vec(self) -> (r: Vec<E>)
        requires
            self.valid_mut() ==> suffix_counts_fit(self.dims_of()),
            self.layout_normalized() || self.valid_mut() || self.buffer_view().len() <= isize::MAX,
        ensures
            self.valid_mut() || self.layout_normalized() ==> r@ == self.components(),
            !self.valid_mut() && !self.layout_normalized() ==> r@ == self.buffer_view(),
    {
        let mut t = self;
        proof {
            if t.layout_normalized() {
                lemma_normalized_components(&t.0);
            }
        }
        t.normalize_layout();
        t.into_buffer()
    }

    /// Applies `f` to every component in place, in last-axis-fastest order. The layout must be
    /// valid without aliasing; buffer elements at no position are left as they are.
    pub fn map<F: Fn(&E) -> E>(&mut self, f: F) -> (r: &mut Self)
        requires
            old(self).valid_mut(),
            forall|k: int| 0 <= k < count_of(old(self).dims_of()) ==> call_requires(f, (&#[trigger] old(self).components()[k],)),
        ensures
            *final(self) == *final(r),
            r.layout_view() == old(self).layout_view(),
            r.buffer_view().len() == old(self).buffer_view().len(),
            forall|k: int| 0 <= k < count_of(old(self).dims_of()) ==> call_ensures(f, (&#[trigger] old(self).components()[k],), r.components()[k]),
            forall|j: int| 0 <= j < old(self).buffer_view().len() && !taken_before(old(self).dims_of(), old(self).strides_of(), count_of(old(self).dims_of()), j)
                ==> #[trigger] r.buffer_view()[j] == old(self).buffer_view()[j],
    {
        proof {
            lemma_valid_bounds(&self.0);
        }
        let ghost od = self.dims_of();
        let ghost os = self.strides_of();
        let ghost ob = self.buffer_view();
        let ghost oc = self.components();
        let count = self.0.layout.count();
        let n = self.0.buffer.len();
        if count > 0 {
            let mut p = Position::new(self.0.layout.dims().len());
            proof {
                position::lemma_zeros_in_bounds(od, p@);
            }
            let mut k: usize = 0;
            while k < count
                invariant
                    self.dims_of() == od,
                    self.strides_of() == os,
                    self.layout_view() == old(self).layout_view(),
                    od.len() == os.len(),
                    dims_fit_isize(od),
                    count == count_of(od),
                    offsets_injective(od, os),
                    buffer_len_of(od, os) <= n == ob.len() == self.buffer_view().len(),
                    oc == Seq::new(count_of(od) as nat, |i: int| ob[flat_offset(od, os, i)]),
                    forall|i: int| 0 <= i < count ==> call_requires(f, (&#[trigger] oc[i],)),
                    k <= count,
                    forall|i: int| 0 <= i < k ==> call_ensures(f, (&#[trigger] oc[i],), self.buffer_view()[flat_offset(od, os, i)]),
                    forall|j: int| 0 <= j < n && !taken_before(od, os, k as int, j) ==> #[trigger] self.buffer_view()[j] == ob[j],
                    position_in_bounds(od, p@),
                    k < count ==> linear_index(od, p@) == k,
                decreases count - k,
            {
                proof {
                    position::lemma_offset_below_len(od, p@, os);
                    position::lemma_flat_offset(od, os, p@);
                }
                let o = position::compute_offset(self.0.layout.dims(), p.as_slice(), self.0.layout.strides());
                proof {
                    if taken_before(od, os, k as int, o as int) {
                        let i = choose|i: int| 0 <= i < k && flat_offset(od, os, i) == o;
                        assert(flat_offset(od, os, i) != flat_offset(od, os, k as int));
                    }
                    assert(self.buffer_view()[o as int] == ob[o as int]);
                    assert(oc[k as int] == ob[o as int]);
                }
                let y = f(&self.0.buffer[o]);
                proof {
                    assert(flat_offset(od, os, k as int) == o);
                    assert(call_ensures(f, (&oc[k as int],), y));
                }
                self.0.buffer.set(o, y);
                proof {
                    assert forall|i: int| 0 <= i < k + 1 implies call_ensures(f, (&#[trigger] oc[i],), self.buffer_view()[flat_offset(od, os, i)]) by {
                        if i < k {
                            assert(flat_offset(od, os, i) != flat_offset(od, os, k as int));
                            position::lemma_flat_offset_below_len(od, os, i);
                        }
                    }
                    assert forall|j: int| 0 <= j < n && !taken_before(od, os, k + 1, j) implies #[trigger] self.buffer_view()[j] == ob[j] by {
                        assert(flat_offset(od, os, k as int) != j);
                        if taken_before(od, os, k as int, j) {
                            let i = choose|i: int| 0 <= i < k && flat_offset(od, os, i) == j;
                            assert(taken_before(od, os, k + 1, j));
                        }
                    }
                }
                if k + 1 < count {
                    let c = p.increment(self.0.layout.dims());
                    proof {
                        position::lemma_suffix_value_bounds(od, p@, od.len());
                        position::lemma_no_wrap_up(linear_index(od, p@), k as int, count as int, c as int, 1);
                    }
                }
                k = k + 1;
            }
        }
        self
    }
}


impl<E> Tens<E> {
    /// Splits along the axis at `index` before the coordinate `position`: this tensor keeps
    /// the part before it and the rest is returned. Both parts get the layout that is
    /// row-major with that axis moved to the front; the buffers hold the components in that
    /// order.
    pub fn split_off(&mut self, index: isize, position: isize) -> (r: Self)
        requires
            old(self).valid(),
            coord_in_bounds(old(self).dims_of().len() as int, index as int),
            ({
                let i = norm_coord(old(self).dims_of().len() as int, index as int);
                let sd = swap_axes(old(self).dims_of(), 0, i);
                let ss = swap_axes(old(self).strides_of(), 0, i);
                &&& error::layout_ok(sd, ss)
                &&& !error::aliases(sd, ss)
                &&& buffer_len_of(sd, ss) <= old(self).buffer_view().len()
                &&& suffix_counts_fit(sd)
                &&& coord_in_bounds(old(self).dims_of()[i] as int, position as int)
            }),
        ensures
            ({
                let i = norm_coord(old(self).dims_of().len() as int, index as int);
                let od = old(self).dims_of();
                let sd = swap_axes(od, 0, i);
                let ss = swap_axes(old(self).strides_of(), 0, i);
                let p = norm_coord(od[i] as int, position as int);
                let c = position::suffix_count(sd, (sd.len() - 1) as nat);
                let tc = components_in(sd, ss, old(self).buffer_view());
                &&& final(self).dims_of() == od.update(i, p as usize)
                &&& r.dims_of() == od.update(i, (od[i] - p) as usize)
                &&& final(self).strides_of() == swap_axes(row_major_strides(sd), 0, i)
                &&& r.strides_of() == swap_axes(row_major_strides(sd), 0, i)
                &&& final(self).buffer_view() == tc.subrange(0, p * c)
                &&& r.buffer_view() == tc.subrange(p * c, tc.len() as int)
            }),
    {
        let ghost od = self.dims_of();
        let ghost ob = self.buffer_view();
        let ghost i = norm_coord(od.len() as int, index as int);
        let ghost sd = swap_axes(od, 0, i);
        let ghost ss = swap_axes(self.strides_of(), 0, i);
        self.swap_dims(0, index);
        assert(self.dims_of() =~= sd);
        assert(self.strides_of() =~= ss);
        proof {
            error::lemma_layout_ok_bounds(sd, ss);
            if self.layout_normalized() {
                lemma_normalized_components(&self.0);
            }
        }
        self.normalize_layout();
        let dim = self.0.layout.dims()[0];
        let p = position::unsign_position(dim, position).unwrap();
        let stride0 = self.0.layout.strides()[0];
        let ghost c = position::suffix_count(sd, (sd.len() - 1) as nat);
        proof {
            position::lemma_suffix_count_pos_any(sd, (sd.len() - 1) as nat);
            position::lemma_injective_count(sd, ss);
            assert(count_of(sd) == dim * c);
            assert(c <= dim * c) by (nonlinear_arith)
                requires
                    dim >= 1,
                    c >= 0,
            ;
            assert(stride0 == c);
            assert(count_of(sd) == dim * c);
            assert(p * c <= dim * c) by (nonlinear_arith)
                requires
                    0 <= p < dim,
                    c >= 0,
            ;
        }
        let at = p * (stride0 as usize);
        let mut rr = self.0.layout.clone();
        self.0.layout.set_dim(0, p);
        rr.set_dim(0, dim - p);
        let mut buffer = self.take_buffer();
        let newbuffer = buffer.split_off(at);
        self.set_buffer(buffer);
        self.swap_dims(0, index);
        let mut result = Tens::from_inner(newbuffer, rr);
        result.swap_dims(0, index);
        proof {
            assert(self.dims_of() =~= od.update(i, p as usize));
            assert(result.dims_of() =~= od.update(i, (od[i] - p) as usize));
        }
        result
    }
}


impl<E> Tens<E> {
    /// Converts into a `Tensor`. The layout must be valid for the buffer without aliasing.
    pub fn tensor(self) -> (r: Tensor<E>)
        requires
            self.valid_mut(),
        ensures
            r.inner() == self,
    {
        Tensor(self)
    }

    /// Broadcasts the axis at `index` to `rhs`, copying the broadcast components into a
    /// buffer with the row-major layout of the new dims.
    pub fn broadcast_dim(&mut self, index: isize, rhs: usize) -> (r: &mut Self) where E: Clone
        requires
            old(self).valid(),
            coord_in_bounds(old(self).dims_of().len() as int, index as int),
            ({
                let i = norm_coord(old(self).dims_of().len() as int, index as int);
                let bd = crate::layout::broadcast_axis_dims(old(self).dims_of(), i, rhs);
                let bs = crate::layout::broadcast_axis_strides(old(self).dims_of(), old(self).strides_of(), i, rhs);
                &&& crate::layout::broadcast_axis_ok(old(self).dims_of(), i, rhs)
                &&& layout_fits(bd, bs, old(self).buffer_view().len() as int)
                &&& suffix_counts_fit(bd)
            }),
        ensures
            ({
                let i = norm_coord(old(self).dims_of().len() as int, index as int);
                let bd = crate::layout::broadcast_axis_dims(old(self).dims_of(), i, rhs);
                let bs = crate::layout::broadcast_axis_strides(old(self).dims_of(), old(self).strides_of(), i, rhs);
                let c = components_in(bd, bs, old(self).buffer_view());
                &&& r.dims_of() == bd
                &&& r.strides_of() == row_major_strides(bd)
                &&& r.buffer_view().len() == c.len()
                &&& forall|k: int| 0 <= k < c.len() ==> cloned::<E>(#[trigger] c[k], r.buffer_view()[k])
            }),
            *final(self) == *final(r),
    {
        let t = self.0.view_ref().broadcast_dim(index, rhs).to_tens();
        *self = t;
        self
    }

    /// Broadcasts to the dims `rhs`, copying the broadcast components into a buffer with the
    /// row-major layout of the new dims.
    pub fn broadcast(&mut self, rhs: &[usize]) -> (r: &mut Self) where E: Clone
        requires
            old(self).valid(),
            old(self).dims_of().len() == rhs@.len(),
            crate::layout::broadcast_fits(old(self).dims_of(), rhs@),
            layout_fits(
                crate::layout::broadcast_dims(old(self).dims_of(), rhs@),
                crate::layout::broadcast_strides(old(self).dims_of(), old(self).strides_of(), rhs@),
                old(self).buffer_view().len() as int,
            ),
            suffix_counts_fit(crate::layout::broadcast_dims(old(self).dims_of(), rhs@)),
        ensures
            ({
                let bd = crate::layout::broadcast_dims(old(self).dims_of(), rhs@);
                let bs = crate::layout::broadcast_strides(old(self).dims_of(), old(self).strides_of(), rhs@);
                let c = components_in(bd, bs, old(self).buffer_view());
                &&& r.dims_of() == bd
                &&& r.strides_of() == row_major_strides(bd)
                &&& r.buffer_view().len() == c.len()
                &&& forall|k: int| 0 <= k < c.len() ==> cloned::<E>(#[trigger] c[k], r.buffer_view()[k])
            }),
            *final(self) == *final(r),
    {
        let t = self.0.broadcast(rhs).to_tens();
        *self = t;
        self
    }
}

/// Two views hold equal tensors: when both layouts are valid, the same dims and pairwise equal
/// components (by the components' `==`); otherwise the same dims and strides and pairwise
/// equal buffers.
pub open spec fn views_equal<E: PartialEq>(a: View<E>, b: View<E>) -> bool {
    if a.valid() && b.valid() {
        &&& a.dims_of() == b.dims_of()
        &&& forall|k: int| 0 <= k < a.components().len() ==> same_value(#[trigger] a.components()[k], b.components()[k])
    } else {
        &&& a.dims_of() == b.dims_of()
        &&& a.strides_of() == b.strides_of()
        &&& a.buffer_view().len() == b.buffer_view().len()
        &&& forall|i: int| 0 <= i < a.buffer_view().len() ==> same_value(#[trigger] a.buffer_view()[i], b.buffer_view()[i])
    }
}

impl<E: PartialEq> PartialEq for View<E> {
    fn eq(&self, other: &Self) -> (r: bool) {
        let valid = self.validate().is_ok() && other.validate().is_ok();
        if !crate::layout::same_dims(self.layout.dims(), other.layout.dims()) {
            return false;
        }
        if valid {
            self.same_components(other)
        } else {
            if !crate::layout::same_strides(self.layout.strides(), other.layout.strides()) {
                return false;
            }
            if self.buffer.len() != other.buffer.len() {
                return false;
            }
            let n = self.buffer.len();
            let mut i: usize = 0;
            while i < n
                invariant
                    n == self.buffer@.len() == other.buffer@.len(),
                    !(self.valid() && other.valid()),
                    self.dims_of() == other.dims_of(),
                    self.strides_of() == other.strides_of(),
                    i <= n,
                    equality_obeyed::<E>() ==> forall|j: int| 0 <= j < i ==> same_value(#[trigger] self.buffer@[j], other.buffer@[j]),
                decreases n - i,
            {
                if !self.buffer[i].eq(&other.buffer[i]) {
                    assert(equality_obeyed::<E>() ==> !same_value(self.buffer_view()[i as int], other.buffer_view()[i as int]));
                    return false;
                }
                i = i + 1;
            }
            true
        }
    }
}

impl<E: PartialEq> vstd::std_specs::cmp::PartialEqSpecImpl for View<E> {
    open spec fn obeys_eq_spec() -> bool {
        equality_obeyed::<E>()
    }

    open spec fn eq_spec(&self, other: &Self) -> bool {
        views_equal(*self, *other)
    }
}

impl<E: PartialEq> PartialEq for Tens<E> {
    fn eq(&self, other: &Self) -> (r: bool) {
        self.0.eq(&other.0)
    }
}

impl<E: PartialEq> vstd::std_specs::cmp::PartialEqSpecImpl for Tens<E> {
    open spec fn obeys_eq_spec() -> bool {
        equality_obeyed::<E>()
    }

    open spec fn eq_spec(&self, other: &Self) -> bool {
        views_equal(self.inner(), other.inner())
    }
}

impl<E: PartialEq> View<E> {
    /// Whether two valid views of the same dims hold pairwise equal components.
    fn same_components(&self, other: &Self) -> (r: bool)
        requires
            self.valid(),
            other.valid(),
            self.dims_of() == other.dims_of(),
        ensures
            equality_obeyed::<E>() ==> (r <==> forall|k: int| 0 <= k < self.components().len() ==> same_value(#[trigger] self.components()[k], other.components()[k])),
    {
        proof {
            lemma_valid_bounds(self);
            lemma_valid_bounds(other);
        }
        let ghost d = self.dims_of();
        let ghost sa = self.strides_of();
        let ghost sb = other.strides_of();
        let ghost ca = self.components();
        let ghost cb = other.components();
        let dims = self.layout.dims();
        let count = self.layout.count();
        let la = self.buffer.len();
        let lb = other.buffer.len();
        if count == 0 {
            return true;
        }
        let mut p = Position::new(dims.len());
        proof {
            position::lemma_zeros_in_bounds(d, p@);
        }
        let mut k: usize = 0;
        while k < count
            invariant
                dims@ == d,
                self.layout.strides_view() == sa,
                other.layout.strides_view() == sb,
                d == other.layout.dims_view(),
                d.len() == sa.len() == sb.len(),
                dims_fit_isize(d),
                count == count_of(d),
                buffer_len_of(d, sa) <= self.buffer@.len() == la,
                buffer_len_of(d, sb) <= other.buffer@.len() == lb,
                ca == components_in(d, sa, self.buffer@),
                cb == components_in(d, sb, other.buffer@),
                ca == self.components(),
                cb == other.components(),
                k <= count,
                position_in_bounds(d, p@),
                k < count ==> linear_index(d, p@) == k,
                equality_obeyed::<E>() ==> forall|j: int| 0 <= j < k ==> same_value(#[trigger] ca[j], cb[j]),
            decreases count - k,
        {
            proof {
                position::lemma_offset_below_len(d, p@, sa);
                position::lemma_offset_below_len(d, p@, sb);
                position::lemma_flat_offset(d, sa, p@);
                position::lemma_flat_offset(d, sb, p@);
            }
            let oa = position::compute_offset(dims, p.as_slice(), self.layout.strides());
            let ob = position::compute_offset(dims, p.as_slice(), other.layout.strides());
            assert(ca[k as int] == self.buffer@[oa as int]);
            assert(cb[k as int] == other.buffer@[ob as int]);
            if !self.buffer[oa].eq(&other.buffer[ob]) {
                return false;
            }
            if k + 1 < count {
                let c = p.increment(dims);
                proof {
                    position::lemma_suffix_value_bounds(d, p@, d.len());
                    position::lemma_no_wrap_up(linear_index(d, p@), k as int, count as int, c as int, 1);
                }
            }
            k = k + 1;
        }
        true
    }
}

impl<E: Clone> Clone for Tens<E> {
    fn clone(&self) -> (r: Self)
        ensures
            r.dims_of() == self.dims_of(),
            r.strides_of() == self.strides_of(),
            r.buffer_view().len() == self.buffer_view().len(),
            forall|i: int| 0 <= i < self.buffer_view().len() ==> cloned::<E>(#[trigger] self.buffer_view()[i], r.buffer_view()[i]),
    {
        self.0.to_tens()
    }
}

impl<E> Default for Tens<E> {
    fn default() -> (r: Self)
        ensures
            r.dims_of() == seq![0usize],
            r.strides_of() == seq![1isize],
            r.buffer_view() == Seq::<E>::empty(),
    {
        let r = Tens::empty(1);
        assert(r.dims_of() =~= seq![0usize]);
        assert(r.strides_of() =~= seq![1isize]);
        r
    }
}

/// A tensor in a functional style: most operations consume it and give the result. Its
/// constructors check that the layout is valid for the buffer without aliasing.
#[derive(Debug)]
pub struct Tensor<E>(Tens<E>);

impl<E: Clone> Clone for Tensor<E> {
    fn clone(&self) -> (r: Self)
        ensures
            r.dims_of() == self.dims_of(),
            r.strides_of() == self.strides_of(),
            r.buffer_view().len() == self.buffer_view().len(),
            forall|i: int| 0 <= i < self.buffer_view().len() ==> cloned::<E>(#[trigger] self.buffer_view()[i], r.buffer_view()[i]),
    {
        Tensor(self.0.clone())
    }
}

impl<E: PartialEq> PartialEq for Tensor<E> {
    fn eq(&self, other: &Self) -> (r: bool) {
        self.0.eq(&other.0)
    }
}

impl<E: PartialEq> vstd::std_specs::cmp::PartialEqSpecImpl for Tensor<E> {
    open spec fn obeys_eq_spec() -> bool {
        equality_obeyed::<E>()
    }

    open spec fn eq_spec(&self, other: &Self) -> bool {
        views_equal(self.inner().inner(), other.inner().inner())
    }
}

impl<E> Default for Tensor<E> {
    /// An empty vector: dims `[0]`, stride 1, no components.
    fn default() -> (r: Self)
        ensures
            r.dims_of() == seq![0usize],
            r.strides_of() == seq![1isize],
            r.buffer_view() == Seq::<E>::empty(),
    {
        let t = Tens::<E>::default();
        proof {
            assert(row_major_strides(t.dims_of()) =~= seq![1isize]);
        }
        Tensor::wrap_row_major(t)
    }
}

impl<E> core::ops::Deref for Tensor<E> {
    type Target = View<E>;

    fn deref(&self) -> (r: &View<E>)
        ensures
            *r == self.inner().inner(),
    {
        &(self.0).0
    }
}

impl<E> Tensor<E> {
    /// The tensor this wraps.
    pub closed spec fn inner(&self) -> Tens<E> {
        self.0
    }

    pub open spec fn layout_view(&self) -> Layout {
        self.inner().layout_view()
    }

    pub open spec fn buffer_view(&self) -> Seq<E> {
        self.inner().buffer_view()
    }

    pub open spec fn dims_of(&self) -> Seq<usize> {
        self.inner().dims_of()
    }

    pub open spec fn strides_of(&self) -> Seq<isize> {
        self.inner().strides_of()
    }

    pub open spec fn valid_mut(&self) -> bool {
        self.inner().valid_mut()
    }

    pub open spec fn components(&self) -> Seq<E> {
        self.inner().components()
    }

    /// Wraps a tensor whose layout is row-major for its dims.
    pub(crate) fn wrap_row_major(t: Tens<E>) -> (r: Self)
        requires
            t.strides_of() == row_major_strides(t.dims_of()),
        ensures
            r.inner() == t,
    {
        Tensor(t)
    }

    /// Converts back into a `Tens`.
    pub fn tens(self) -> (r: Tens<E>)
        ensures
            r == self.inner(),
    {
        self.0
    }

    /// The capacity of the buffer: at least its length.
    pub fn buffer_cap(&self) -> (r: usize)
        ensures
            r >= self.buffer_view().len(),
    {
        self.0.buffer_cap()
    }

    /// The length of the buffer.
    pub fn buffer_len(&self) -> (r: usize)
        ensures
            r == self.buffer_view().len(),
    {
        self.0.buffer_len()
    }

    /// References the buffer.
    pub fn buffer(&self) -> (r: &[E])
        ensures
            r@ == self.buffer_view(),
    {
        self.0.buffer()
    }

    /// References the buffer mutably; the layout is left as it is.
    pub fn buffer_mut(&mut self) -> (r: &mut [E])
        ensures
            r@ == old(self).buffer_view(),
            final(self).buffer_view() == final(r)@,
            final(self).layout_view() == old(self).layout_view(),
    {
        self.0.buffer_mut()
    }

    /// Converts into the buffer.
    pub fn into_buffer(self) -> (r: Vec<E>)
        ensures
            r@ == self.buffer_view(),
    {
        self.0.into_buffer()
    }

    /// Converts into the buffer and the layout.
    pub fn into_inner(self) -> (r: (Vec<E>, Layout))
        ensures
            r.0@ == self.buffer_view(),
            r.1 == self.layout_view(),
    {
        self.0.into_inner()
    }

    /// A tensor of the given rank with every dim 0. The rank must be at least 1.
    pub fn empty(rank: usize) -> (r: Self)
        requires
            rank > 0,
        ensures
            r.dims_of() == Seq::new(rank as nat, |i: int| 0usize),
            r.strides_of() == row_major_strides(Seq::new(rank as nat, |i: int| 0usize)),
            r.buffer_view() == Seq::<E>::empty(),
    {
        Tensor(Tens::empty(rank))
    }

    /// A scalar: rank 0, one component.
    pub fn scalar(data: E) -> (r: Self)
        ensures
            r.dims_of() == Seq::<usize>::empty(),
            r.strides_of() == Seq::<isize>::empty(),
            r.buffer_view() == seq![data],
    {
        Tensor(Tens::scalar(data))
    }

    /// A rank 1 tensor over the vector.
    pub fn vector(data: Vec<E>) -> (r: Self)
        requires
            data@.len() <= isize::MAX,
        ensures
            r.dims_of() == seq![data@.len() as usize],
            r.strides_of() == seq![1isize],
            r.buffer_view() == data@,
    {
        Tensor(Tens::vector(data))
    }

    /// Creates a tensor with the row-major layout of `dims` over `data`; errors as
    /// `Tens::try_new` does. The layout is checked for aliasing too, which a valid row-major
    /// layout always passes.
    pub fn try_new(data: Vec<E>, dims: &[usize]) -> (r: Result<Self, Error>)
        requires
            suffix_counts_fit(dims@),
        ensures
            r is Ok <==> dims_fit_isize(dims@) && layout_fits(dims@, row_major_strides(dims@), data@.len() as int),
            r matches Ok(t) ==> t.dims_of() == dims@ && t.strides_of() == row_major_strides(dims@)
                && t.buffer_view() == data@,
    {
        let t = match Tens::try_new(data, dims) {
            Ok(t) => t,
            Err(e) => {
                return Err(e);
            },
        };
        proof {
            error::law_row_major_never_aliases(dims@);
        }
        match t.validate_mut() {
            Err(e) => Err(e.with_op("tensor")),
            Ok(()) => Ok(Tensor(t)),
        }
    }

    /// Creates a tensor with the row-major layout of `dims` over `data`, which must succeed.
    pub fn new(data: Vec<E>, dims: &[usize]) -> (r: Self)
        requires
            suffix_counts_fit(dims@),
            dims_fit_isize(dims@),
            layout_fits(dims@, row_major_strides(dims@), data@.len() as int),
        ensures
            r.dims_of() == dims@,
            r.strides_of() == row_major_strides(dims@),
            r.buffer_view() == data@,
    {
        match Self::try_new(data, dims) {
            Ok(t) => t,
            Err(_) => {
                proof {
                    assert(false);
                }
                Tensor(Tens::from_inner(Vec::new(), Layout::scalar()))
            },
        }
    }

    /// Sets the layout; errors (operation "reshape") as `Layout::validate_mut` does, leaving
    /// the tensor as it was.
    pub fn try_set_layout(&mut self, layout: Layout) -> (r: Result<(), Error>)
        ensures
            r is Ok <==> layout_fits(layout.dims_view(), layout.strides_view(), old(self).buffer_view().len() as int)
                && !error::aliases(layout.dims_view(), layout.strides_view()),
            r is Ok ==> final(self).layout_view() == layout && final(self).buffer_view() == old(self).buffer_view(),
            r matches Err(e) ==> e.spec_op() == "reshape"@ && *final(self) == *old(self),
    {
        match layout.validate_mut(self.0.buffer_len()) {
            Err(e) => Err(e.with_op("reshape")),
            Ok(()) => {
                *self.0.layout_mut() = layout;
                Ok(())
            },
        }
    }

    /// Sets the layout, which must be valid for the buffer without aliasing.
    pub fn set_layout(&mut self, layout: Layout)
        requires
            layout_fits(layout.dims_view(), layout.strides_view(), old(self).buffer_view().len() as int),
            !error::aliases(layout.dims_view(), layout.strides_view()),
        ensures
            final(self).layout_view() == layout,
            final(self).buffer_view() == old(self).buffer_view(),
    {
        let _ = self.try_set_layout(layout);
    }

    /// This tensor with the layout set; see `set_layout`.
    pub fn with_layout(self, layout: Layout) -> (r: Self)
        requires
            layout_fits(layout.dims_view(), layout.strides_view(), self.buffer_view().len() as int),
            !error::aliases(layout.dims_view(), layout.strides_view()),
        ensures
            r.layout_view() == layout,
            r.buffer_view() == self.buffer_view(),
    {
        let mut t = self;
        t.set_layout(layout);
        t
    }

    /// This tensor with every axis reversed.
    pub fn flip(self) -> (r: Self)
        requires
            crate::layout::negatable(self.strides_of()),
        ensures
            r.dims_of() == self.dims_of(),
            r.strides_of() == crate::layout::flipped(self.strides_of()),
            r.buffer_view() == self.buffer_view(),
    {
        let mut t = self;
        t.0.flip();
        assert(t.strides_of() =~= crate::layout::flipped(self.strides_of()));
        t
    }

    /// This tensor with the axis at `index` reversed.
    pub fn flip_dim(self, index: isize) -> (r: Self)
        requires
            self.layout_view().ranks_match(),
            coord_in_bounds(self.dims_of().len() as int, index as int),
            self.strides_of()[norm_coord(self.dims_of().len() as int, index as int)] != isize::MIN,
        ensures
            r.dims_of() == self.dims_of(),
            r.strides_of() == crate::layout::flipped_at(self.strides_of(), norm_coord(self.dims_of().len() as int, index as int)),
            r.buffer_view() == self.buffer_view(),
    {
        let mut t = self;
        t.0.flip_dim(index);
        t
    }

    /// This tensor with every axis but the one at `index` reversed.
    pub fn flip_around(self, index: isize) -> (r: Self)
        requires
            self.layout_view().ranks_match(),
            coord_in_bounds(self.dims_of().len() as int, index as int),
            crate::layout::negatable(self.strides_of()),
        ensures
            r.dims_of() == self.dims_of(),
            r.strides_of() == crate::layout::flipped_around(self.strides_of(), norm_coord(self.dims_of().len() as int, index as int)),
            r.buffer_view() == self.buffer_view(),
    {
        let mut t = self;
        t.0.flip_around(index);
        assert(t.strides_of() =~= crate::layout::flipped_around(self.strides_of(), norm_coord(self.dims_of().len() as int, index as int)));
        t
    }

    /// This tensor with two axes swapped.
    pub fn swap_dims(self, a: isize, b: isize) -> (r: Self)
        requires
            self.layout_view().ranks_match(),
            coord_in_bounds(self.dims_of().len() as int, a as int),
            coord_in_bounds(self.dims_of().len() as int, b as int),
        ensures
            ({
                let i = norm_coord(self.dims_of().len() as int, a as int);
                let j = norm_coord(self.dims_of().len() as int, b as int);
                &&& r.dims_of() == swap_axes(self.dims_of(), i, j)
                &&& r.strides_of() == swap_axes(self.strides_of(), i, j)
            }),
            r.buffer_view() == self.buffer_view(),
    {
        let mut t = self;
        t.0.swap_dims(a, b);
        t
    }

    /// This tensor with an axis of dim 1 removed.
    pub fn squeeze_dim(self, index: isize) -> (r: Self)
        requires
            error::layout_ok(self.dims_of(), self.strides_of()),
            coord_in_bounds(self.dims_of().len() as int, index as int),
            self.dims_of()[norm_coord(self.dims_of().len() as int, index as int)] == 1,
        ensures
            r.dims_of() == self.dims_of().remove(norm_coord(self.dims_of().len() as int, index as int)),
            r.strides_of() == self.strides_of().remove(norm_coord(self.dims_of().len() as int, index as int)),
            r.buffer_view() == self.buffer_view(),
    {
        let mut t = self;
        t.0.squeeze_dim(index);
        t
    }

    /// This tensor with an axis of dim 1 and stride 1 inserted at `index`.
    pub fn unsqueeze_dim(self, index: isize) -> (r: Self)
        requires
            error::layout_ok(self.dims_of(), self.strides_of()),
            self.dims_of().len() < usize::MAX,
            coord_in_bounds(self.dims_of().len() + 1int, index as int),
        ensures
            r.dims_of() == self.dims_of().insert(norm_coord(self.dims_of().len() + 1int, index as int), 1),
            r.strides_of() == self.strides_of().insert(norm_coord(self.dims_of().len() + 1int, index as int), 1),
            r.buffer_view() == self.buffer_view(),
    {
        let mut t = self;
        t.0.unsqueeze_dim(index);
        t
    }

    /// This tensor with the axis at `index` broadcast to `rhs`; see `Tens::broadcast_dim`.
    pub fn broadcast_dim(self, index: isize, rhs: usize) -> (r: Self) where E: Clone
        requires
            self.inner().valid(),
            coord_in_bounds(self.dims_of().len() as int, index as int),
            ({
                let i = norm_coord(self.dims_of().len() as int, index as int);
                let bd = crate::layout::broadcast_axis_dims(self.dims_of(), i, rhs);
                let bs = crate::layout::broadcast_axis_strides(self.dims_of(), self.strides_of(), i, rhs);
                &&& crate::layout::broadcast_axis_ok(self.dims_of(), i, rhs)
                &&& layout_fits(bd, bs, self.buffer_view().len() as int)
                &&& suffix_counts_fit(bd)
            }),
        ensures
            ({
                let i = norm_coord(self.dims_of().len() as int, index as int);
                let bd = crate::layout::broadcast_axis_dims(self.dims_of(), i, rhs);
                let bs = crate::layout::broadcast_axis_strides(self.dims_of(), self.strides_of(), i, rhs);
                let c = components_in(bd, bs, self.buffer_view());
                &&& r.dims_of() == bd
                &&& r.strides_of() == row_major_strides(bd)
                &&& r.buffer_view().len() == c.len()
                &&& forall|k: int| 0 <= k < c.len() ==> cloned::<E>(#[trigger] c[k], r.buffer_view()[k])
            }),
    {
        let mut t = self;
        t.0.broadcast_dim(index, rhs);
        t
    }

    /// Broadcasts to the dims `rhs`; see `Tens::broadcast`.
    pub fn broadcast(&mut self, rhs: &[usize]) -> (r: &mut Self) where E: Clone
        requires
            old(self).inner().valid(),
            old(self).dims_of().len() == rhs@.len(),
            crate::layout::broadcast_fits(old(self).dims_of(), rhs@),
            layout_fits(
                crate::layout::broadcast_dims(old(self).dims_of(), rhs@),
                crate::layout::broadcast_strides(old(self).dims_of(), old(self).strides_of(), rhs@),
                old(self).buffer_view().len() as int,
            ),
            suffix_counts_fit(crate::layout::broadcast_dims(old(self).dims_of(), rhs@)),
        ensures
            ({
                let bd = crate::layout::broadcast_dims(old(self).dims_of(), rhs@);
                let bs = crate::layout::broadcast_strides(old(self).dims_of(), old(self).strides_of(), rhs@);
                let c = components_in(bd, bs, old(self).buffer_view());
                &&& r.dims_of() == bd
                &&& r.strides_of() == row_major_strides(bd)
                &&& r.buffer_view().len() == c.len()
                &&& forall|k: int| 0 <= k < c.len() ==> cloned::<E>(#[trigger] c[k], r.buffer_view()[k])
            }),
            *final(self) == *final(r),
    {
        self.0.broadcast(rhs);
        self
    }

    /// Applies `f` to every component, in last-axis-fastest order, giving a tensor of the
    /// results with the same dims and the row-major layout. The layout must be valid without
    /// aliasing.
    pub fn map<Y, F: Fn(E) -> Y>(self, f: F) -> (r: Tens<Y>)
        requires
            self.valid_mut(),
            suffix_counts_fit(self.dims_of()),
            forall|k: int| 0 <= k < count_of(self.dims_of()) ==> call_requires(f, (#[trigger] self.components()[k],)),
        ensures
            r.dims_of() == self.dims_of(),
            r.strides_of() == row_major_strides(self.dims_of()),
            r.buffer_view().len() == count_of(self.dims_of()),
            forall|k: int| 0 <= k < count_of(self.dims_of()) ==> call_ensures(f, (#[trigger] self.components()[k],), r.buffer_view()[k]),
    {
        let ghost comps = self.components();
        let ghost od = self.dims_of();
        let mut t = self.0;
        proof {
            lemma_valid_bounds(&t.0);
            position::lemma_suffix_count_pos_any(od, od.len());
            if t.layout_normalized() {
                lemma_normalized_components(&t.0);
            }
            assert forall|k: int| 0 <= k < comps.len() implies call_requires(f, (#[trigger] comps[k],)) by {
                assert(comps[k] == self.components()[k]);
            }
        }
        t.normalize_layout();
        let (mut b, layout) = t.into_inner();
        let n = b.len();
        let mut rev: Vec<E> = Vec::new();
        while b.len() > 0
            invariant
                n == comps.len(),
                rev@.len() + b@.len() == n,
                b@ == comps.subrange(0, n - rev@.len()),
                forall|j: int| 0 <= j < rev@.len() ==> #[trigger] rev@[j] == comps[n - 1 - j],
            decreases b@.len(),
        {
            match b.pop() {
                Some(x) => {
                    rev.push(x);
                },
                None => {},
            }
            assert(b@ =~= comps.subrange(0, n - rev@.len()));
        }
        let mut out: Vec<Y> = Vec::new();
        while rev.len() > 0
            invariant
                n == comps.len(),
                rev@.len() + out@.len() == n,
                forall|j: int| 0 <= j < rev@.len() ==> #[trigger] rev@[j] == comps[n - 1 - j],
                forall|k: int| 0 <= k < n ==> call_requires(f, (#[trigger] comps[k],)),
                forall|k: int| 0 <= k < out@.len() ==> call_ensures(f, (#[trigger] comps[k],), out@[k]),
            decreases rev@.len(),
        {
            let ghost k = out@.len();
            match rev.pop() {
                Some(x) => {
                    assert(x == comps[k as int]);
                    let y = f(x);
                    out.push(y);
                },
                None => {},
            }
        }
        Tens::from_inner(out, layout)
    }
}


impl<E> Tens<E> {
    /// Keeps the buffer from `off` on, at most `keep` components of it.
    fn trim_buffer(&mut self, off: usize, keep: usize)
        requires
            off <= old(self).buffer_view().len(),
        ensures
            final(self).layout_view() == old(self).layout_view(),
            final(self).buffer_view() == old(self).buffer_view().subrange(
                off as int,
                if off + keep <= old(self).buffer_view().len() { off + keep } else { old(self).buffer_view().len() as int },
            ),
    {
        let mut buffer = self.take_buffer();
        let mut tail = buffer.split_off(off);
        tail.truncate(keep);
        self.set_buffer(tail);
        assert(self.buffer_view() =~= old(self).buffer_view().subrange(
            off as int,
            if off + keep <= old(self).buffer_view().len() { off + keep } else { old(self).buffer_view().len() as int },
        ));
    }

    /// Slices the axis at `index` to a range, dropping the buffer before the first component
    /// kept and after the length the new layout needs; see `Layout::slice_dim`.
    pub fn slice_dim(&mut self, index: isize, range: crate::layout::AxisRange) -> (r: &mut Self)
        requires
            old(self).valid(),
            coord_in_bounds(old(self).dims_of().len() as int, index as int),
            ({
                let i = norm_coord(old(self).dims_of().len() as int, index as int);
                let d = old(self).dims_of()[i] as int;
                let s = old(self).strides_of()[i] as int;
                let start = crate::layout::slice_start(d, range.start);
                let stop = crate::layout::slice_stop(d, range.end);
                &&& crate::layout::end_ok(d, range.start)
                &&& crate::layout::end_ok(d, range.end)
                &&& start <= stop
                &&& s < 0 ==> crate::layout::slice_stop(d, range.end) <= d
                &&& crate::layout::slice_shift(d, start, crate::layout::slice_stop(d, range.end), s) <= old(self).buffer_view().len()
                &&& buffer_len_of(old(self).dims_of().update(i, (stop - start) as usize), old(self).strides_of()) <= usize::MAX
            }),
        ensures
            ({
                let i = norm_coord(old(self).dims_of().len() as int, index as int);
                let d = old(self).dims_of()[i] as int;
                let start = crate::layout::slice_start(d, range.start);
                let nd = old(self).dims_of().update(i, (crate::layout::slice_stop(d, range.end) - start) as usize);
                let shift = crate::layout::slice_shift(d, start, crate::layout::slice_stop(d, range.end), old(self).strides_of()[i] as int);
                let n = old(self).buffer_view().len() as int;
                let stop = if shift + buffer_len_of(nd, old(self).strides_of()) <= n { shift + buffer_len_of(nd, old(self).strides_of()) } else { n };
                &&& r.dims_of() == nd
                &&& r.strides_of() == old(self).strides_of()
                &&& r.buffer_view() == old(self).buffer_view().subrange(shift, stop)
            }),
            *final(self) == *final(r),
    {
        proof {
            lemma_valid_bounds(&self.0);
        }
        let n = self.buffer_len();
        let mut off: usize = 0;
        self.0.layout.slice_dim(index, &mut off, range);
        let keep = self.0.layout.len();
        assert(off <= n);
        self.trim_buffer(off, keep);
        self
    }

    /// Slices every axis to a range, dropping the buffer before the first component kept and
    /// after the length the new layout needs; see `Layout::slice`.
    pub fn slice(&mut self, ranges: &[crate::layout::AxisRange]) -> (r: &mut Self)
        requires
            old(self).valid(),
            forall|i: int| 0 <= i < ranges@.len() ==> #[trigger] crate::layout::range_fits(ranges@[i]),
            crate::layout::slice_checks_pass(old(self).dims_of(), old(self).strides_of(), ranges@),
            crate::layout::slice_computable(old(self).dims_of(), old(self).strides_of(), ranges@, 0),
            offset_of(old(self).dims_of(), crate::layout::slice_origin(old(self).dims_of(), ranges@), old(self).strides_of())
                <= old(self).buffer_view().len(),
            buffer_len_of(crate::layout::sliced_dims(old(self).dims_of(), ranges@), old(self).strides_of()) <= usize::MAX,
        ensures
            ({
                let nd = crate::layout::sliced_dims(old(self).dims_of(), ranges@);
                let shift = crate::layout::slice_offset(old(self).dims_of(), old(self).strides_of(), ranges@);
                let n = old(self).buffer_view().len() as int;
                let stop = if shift + buffer_len_of(nd, old(self).strides_of()) <= n { shift + buffer_len_of(nd, old(self).strides_of()) } else { n };
                &&& r.dims_of() == nd
                &&& r.strides_of() == old(self).strides_of()
                &&& r.buffer_view() == old(self).buffer_view().subrange(shift, stop)
            }),
            *final(self) == *final(r),
    {
        proof {
            lemma_valid_bounds(&self.0);
        }
        let n = self.buffer_len();
        let mut off: usize = 0;
        self.0.layout.slice(&mut off, ranges);
        let keep = self.0.layout.len();
        assert(off <= n);
        self.trim_buffer(off, keep);
        self
    }
}

impl<E> Tensor<E> {
    /// This tensor with the axis at `index` sliced to a range; see `Tens::slice_dim`.
    pub fn slice_dim(self, index: isize, range: crate::layout::AxisRange) -> (r: Self)
        requires
            self.inner().valid(),
            coord_in_bounds(self.dims_of().len() as int, index as int),
            ({
                let i = norm_coord(self.dims_of().len() as int, index as int);
                let d = self.dims_of()[i] as int;
                let s = self.strides_of()[i] as int;
                let start = crate::layout::slice_start(d, range.start);
                let stop = crate::layout::slice_stop(d, range.end);
                &&& crate::layout::end_ok(d, range.start)
                &&& crate::layout::end_ok(d, range.end)
                &&& start <= stop
                &&& s < 0 ==> crate::layout::slice_stop(d, range.end) <= d
                &&& crate::layout::slice_shift(d, start, crate::layout::slice_stop(d, range.end), s) <= self.buffer_view().len()
                &&& buffer_len_of(self.dims_of().update(i, (stop - start) as usize), self.strides_of()) <= usize::MAX
            }),
        ensures
            ({
                let i = norm_coord(self.dims_of().len() as int, index as int);
                let d = self.dims_of()[i] as int;
                let start = crate::layout::slice_start(d, range.start);
                let nd = self.dims_of().update(i, (crate::layout::slice_stop(d, range.end) - start) as usize);
                let shift = crate::layout::slice_shift(d, start, crate::layout::slice_stop(d, range.end), self.strides_of()[i] as int);
                let n = self.buffer_view().len() as int;
                let stop = if shift + buffer_len_of(nd, self.strides_of()) <= n { shift + buffer_len_of(nd, self.strides_of()) } else { n };
                &&& r.dims_of() == nd
                &&& r.strides_of() == self.strides_of()
                &&& r.buffer_view() == self.buffer_view().subrange(shift, stop)
            }),
    {
        let mut t = self;
        t.0.slice_dim(index, range);
        t
    }

    /// This tensor with every axis sliced to a range; see `Tens::slice`.
    pub fn slice(self, ranges: &[crate::layout::AxisRange]) -> (r: Self)
        requires
            self.inner().valid(),
            forall|i: int| 0 <= i < ranges@.len() ==> #[trigger] crate::layout::range_fits(ranges@[i]),
            crate::layout::slice_checks_pass(self.dims_of(), self.strides_of(), ranges@),
            crate::layout::slice_computable(self.dims_of(), self.strides_of(), ranges@, 0),
            offset_of(self.dims_of(), crate::layout::slice_origin(self.dims_of(), ranges@), self.strides_of())
                <= self.buffer_view().len(),
            buffer_len_of(crate::layout::sliced_dims(self.dims_of(), ranges@), self.strides_of()) <= usize::MAX,
        ensures
            ({
                let nd = crate::layout::sliced_dims(self.dims_of(), ranges@);
                let shift = crate::layout::slice_offset(self.dims_of(), self.strides_of(), ranges@);
                let n = self.buffer_view().len() as int;
                let stop = if shift + buffer_len_of(nd, self.strides_of()) <= n { shift + buffer_len_of(nd, self.strides_of()) } else { n };
                &&& r.dims_of() == nd
                &&& r.strides_of() == self.strides_of()
                &&& r.buffer_view() == self.buffer_view().subrange(shift, stop)
            }),
    {
        let mut t = self;
        t.0.slice(ranges);
        t
    }
}


/// Flipping an axis of a view mirrors its components along that axis: a view with the stride
/// of axis `i` negated over the same buffer holds at each position what `v` holds at
/// the position's mirror image along `i`.
pub proof fn law_flip_dim_mirrors_view<E>(v: View<E>, w: View<E>, i: int, q: Seq<isize>)
    requires
        v.valid(),
        0 <= i < v.dims_of().len(),
        v.strides_of()[i] != isize::MIN,
        w.dims_of() == v.dims_of(),
        w.strides_of() == crate::layout::flipped_at(v.strides_of(), i),
        w.buffer_view() == v.buffer_view(),
        position_in_bounds(v.dims_of(), q),
    ensures
        w.at(q) == v.at(crate::layout::mirrored_at(v.dims_of(), q, i)),
{
    lemma_valid_bounds(&v);
    crate::layout::law_flip_dim_mirrors(v.dims_of(), v.strides_of(), q, i);
}

/// Swapping two axes of a view moves its components with them: a view with the dims and
/// strides of axes `i` and `j` exchanged over the same buffer holds at each position what
/// `v` holds at the position with those coordinates exchanged.
pub proof fn law_swap_dims_moves_view<E>(v: View<E>, w: View<E>, i: int, j: int, q: Seq<isize>)
    requires
        v.valid(),
        0 <= i < v.dims_of().len(),
        0 <= j < v.dims_of().len(),
        w.dims_of() == swap_axes(v.dims_of(), i, j),
        w.strides_of() == swap_axes(v.strides_of(), i, j),
        w.buffer_view() == v.buffer_view(),
        q.len() == v.dims_of().len(),
    ensures
        w.at(q) == v.at(swap_axes(q, i, j)),
{
    lemma_valid_bounds(&v);
    crate::layout::law_swap_dims_moves_axes(v.dims_of(), v.strides_of(), q, i, j);
}

} // verus!
