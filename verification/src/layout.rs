//! Layouts: the dims and strides that place a tensor's components in a flat buffer.
use crate::error::{self, Error, KindView};
use crate::position::{
    self, abs_int, buffer_len_of, coord_in_bounds, count_of, dims_fit_isize, norm_coord, offset_of,
    position_in_bounds, suffix_count, suffix_offset, axis_offset, norm_at,
};
use crate::tensor::swap_axes;
use crate::text::{ints_of_isize, ints_of_usize, list_text, push_isize_list, push_text, push_usize_list};
use vstd::prelude::*;

verus! {

/// Strides of a normalized (contiguous, last-axis-fastest) layout: the stride of each axis is
/// the product of the dims after it, and every such product, the count included, fits in
/// `isize`.
pub open spec fn normalized_strides(dims: Seq<usize>, strides: Seq<isize>) -> bool {
    &&& dims.len() == strides.len()
    &&& forall|k: int|
        0 <= k < dims.len() ==> #[trigger] strides[dims.len() - 1 - k] == suffix_count(dims, k as nat)
            && suffix_count(dims, (k + 1) as nat) <= isize::MAX
}

/// One axis of a normalized layout: its stride is the product of the dims after it, and the
/// product from it on fits in `isize`.
pub proof fn lemma_normalized_at(dims: Seq<usize>, strides: Seq<isize>, k: int)
    requires
        normalized_strides(dims, strides),
        0 <= k < dims.len(),
    ensures
        strides[dims.len() - 1 - k] == suffix_count(dims, k as nat),
        suffix_count(dims, (k + 1) as nat) <= isize::MAX,
{
    assert(strides[dims.len() - 1 - k] == suffix_count(dims, k as nat) && suffix_count(dims, (k + 1) as nat) <= isize::MAX);
}

/// The strides of the row-major (last-axis-fastest, contiguous) layout of `dims`: each is the
/// product of the dims after it.
pub open spec fn row_major_strides(dims: Seq<usize>) -> Seq<isize> {
    Seq::new(dims.len(), |i: int| suffix_count(dims, (dims.len() - 1 - i) as nat) as isize)
}

/// All suffix products of the dims fit in `usize`.
pub open spec fn suffix_counts_fit(dims: Seq<usize>) -> bool {
    forall|k: int| 0 <= k <= dims.len() ==> #[trigger] suffix_count(dims, k as nat) <= usize::MAX
}

/// Describes the shape and memory layout of a tensor: its dims and strides. The offset of a
/// component is the sum over axes of its normalized coordinate (counted from the far end when
/// the stride is negative) times the stride's magnitude.
#[derive(Debug, Hash)]
pub struct Layout {
    dims: Vec<usize>,
    strides: Vec<isize>,
}

impl Layout {
    /// The dims.
    pub closed spec fn dims_view(&self) -> Seq<usize> {
        self.dims@
    }

    /// The strides.
    pub closed spec fn strides_view(&self) -> Seq<isize> {
        self.strides@
    }

    /// Number of axes, by the dims.
    pub open spec fn rank_view(&self) -> nat {
        self.dims_view().len()
    }

    /// Dims and strides have equal lengths.
    pub open spec fn ranks_match(&self) -> bool {
        self.dims_view().len() == self.strides_view().len()
    }
}

impl Clone for Layout {
    fn clone(&self) -> (r: Self)
        ensures
            r.dims_view() == self.dims_view(),
            r.strides_view() == self.strides_view(),
    {
        Layout { dims: self.dims.clone(), strides: self.strides.clone() }
    }
}

impl PartialEq for Layout {
    fn eq(&self, other: &Self) -> (r: bool) {
        self.same_as(other)
    }
}

impl vstd::std_specs::cmp::PartialEqSpecImpl for Layout {
    open spec fn obeys_eq_spec() -> bool {
        true
    }

    open spec fn eq_spec(&self, other: &Self) -> bool {
        self.dims_view() == other.dims_view() && self.strides_view() == other.strides_view()
    }
}

impl Eq for Layout {

}

impl Default for Layout {
    fn default() -> (r: Self)
        ensures
            r.dims_view() == Seq::<usize>::empty(),
            r.strides_view() == Seq::<isize>::empty(),
    {
        Layout::scalar()
    }
}

/// Whether two vectors of dims are identical.
pub fn same_dims(a: &[usize], b: &[usize]) -> (r: bool)
    ensures
        r == (a@ == b@),
{
    if a.len() != b.len() {
        return false;
    }
    let mut i: usize = 0;
    while i < a.len()
        invariant
            a@.len() == b@.len(),
            i <= a@.len(),
            forall|j: int| 0 <= j < i ==> a@[j] == b@[j],
        decreases a@.len() - i,
    {
        if a[i] != b[i] {
            return false;
        }
        i = i + 1;
    }
    assert(a@ =~= b@);
    true
}

/// Whether two vectors of strides are identical.
pub fn same_strides(a: &[isize], b: &[isize]) -> (r: bool)
    ensures
        r == (a@ == b@),
{
    if a.len() != b.len() {
        return false;
    }
    let mut i: usize = 0;
    while i < a.len()
        invariant
            a@.len() == b@.len(),
            i <= a@.len(),
            forall|j: int| 0 <= j < i ==> a@[j] == b@[j],
        decreases a@.len() - i,
    {
        if a[i] != b[i] {
            return false;
        }
        i = i + 1;
    }
    assert(a@ =~= b@);
    true
}

/// Copies a slice of dims into a new vector.
pub fn copy_dims(a: &[usize]) -> (r: Vec<usize>)
    ensures
        r@ == a@,
{
    let mut v: Vec<usize> = Vec::new();
    let mut i: usize = 0;
    while i < a.len()
        invariant
            i <= a@.len(),
            v@ == a@.subrange(0, i as int),
        decreases a@.len() - i,
    {
        v.push(a[i]);
        i = i + 1;
    }
    assert(v@ =~= a@);
    v
}

/// Copies a slice of strides into a new vector.
pub fn copy_strides(a: &[isize]) -> (r: Vec<isize>)
    ensures
        r@ == a@,
{
    let mut v: Vec<isize> = Vec::new();
    let mut i: usize = 0;
    while i < a.len()
        invariant
            i <= a@.len(),
            v@ == a@.subrange(0, i as int),
        decreases a@.len() - i,
    {
        v.push(a[i]);
        i = i + 1;
    }
    assert(v@ =~= a@);
    v
}

impl Layout {
    fn same_as(&self, other: &Self) -> (r: bool)
        ensures
            r == (self.dims_view() == other.dims_view() && self.strides_view()
                == other.strides_view()),
    {
        same_dims(self.dims.as_slice(), other.dims.as_slice()) && same_strides(
            self.strides.as_slice(),
            other.strides.as_slice(),
        )
    }

    /// Creates a layout from dims and strides without checking validity.
    pub fn from_inner(dims: Vec<usize>, strides: Vec<isize>) -> (r: Self)
        ensures
            r.dims_view() == dims@,
            r.strides_view() == strides@,
    {
        Layout { dims, strides }
    }

    /// The layout of a scalar: no axes.
    pub fn scalar() -> (r: Self)
        ensures
            r.dims_view() == Seq::<usize>::empty(),
            r.strides_view() == Seq::<isize>::empty(),
    {
        Layout { dims: Vec::new(), strides: Vec::new() }
    }

    /// The layout of a rank 1 tensor of `len` contiguous components.
    pub fn vector(len: usize) -> (r: Self)
        ensures
            r.dims_view() == seq![len],
            r.strides_view() == seq![1isize],
    {
        let mut dims: Vec<usize> = Vec::new();
        dims.push(len);
        let mut strides: Vec<isize> = Vec::new();
        strides.push(1);
        assert(dims@ =~= seq![len]);
        assert(strides@ =~= seq![1isize]);
        Layout { dims, strides }
    }

    /// References the dims.
    pub fn dims(&self) -> (r: &[usize])
        ensures
            r@ == self.dims_view(),
    {
        self.dims.as_slice()
    }

    /// References the strides.
    pub fn strides(&self) -> (r: &[isize])
        ensures
            r@ == self.strides_view(),
    {
        self.strides.as_slice()
    }

    /// References the dims mutably. Setting dims may affect the layout's validity.
    pub fn dims_mut(&mut self) -> (r: &mut [usize])
        ensures
            r@ == old(self).dims_view(),
            final(self).dims_view() == final(r)@,
            final(self).strides_view() == old(self).strides_view(),
    {
        self.dims.as_mut_slice()
    }

    /// References the strides mutably. Setting strides may affect the layout's validity.
    pub fn strides_mut(&mut self) -> (r: &mut [isize])
        ensures
            r@ == old(self).strides_view(),
            final(self).strides_view() == final(r)@,
            final(self).dims_view() == old(self).dims_view(),
    {
        self.strides.as_mut_slice()
    }

    /// References the dims and strides vectors mutably.
    pub fn inner_mut(&mut self) -> (r: (&mut Vec<usize>, &mut Vec<isize>))
        ensures
            r.0@ == old(self).dims_view(),
            r.1@ == old(self).strides_view(),
            final(self).dims_view() == final(r.0)@,
            final(self).strides_view() == final(r.1)@,
    {
        (&mut self.dims, &mut self.strides)
    }

    /// Converts into the dims.
    pub fn into_dims(self) -> (r: Vec<usize>)
        ensures
            r@ == self.dims_view(),
    {
        self.dims
    }

    /// Converts into the dims and strides.
    pub fn into_inner(self) -> (r: (Vec<usize>, Vec<isize>))
        ensures
            r.0@ == self.dims_view(),
            r.1@ == self.strides_view(),
    {
        (self.dims, self.strides)
    }

    /// The number of axes.
    pub fn rank(&self) -> (r: usize)
        ensures
            r == self.rank_view(),
    {
        self.dims.len()
    }

    /// Whether any dim is 0 (the tensor has no components).
    pub fn is_empty(&self) -> (r: bool)
        ensures
            r == self.dims_view().contains(0),
    {
        position::dims_contain_zero(self.dims.as_slice())
    }

    /// Whether this is the layout of a scalar: no axes.
    pub fn is_scalar(&self) -> (r: bool)
        ensures
            r == (self.rank_view() == 0),
    {
        self.dims.len() == 0
    }

    /// The number of components: the product of the dims.
    pub fn count(&self) -> (r: usize)
        requires
            count_of(self.dims_view()) <= usize::MAX,
        ensures
            r == count_of(self.dims_view()),
    {
        position::component_count(self.dims.as_slice())
    }

    /// The length of the buffer needed to hold a tensor with this layout.
    pub fn len(&self) -> (r: usize)
        requires
            self.ranks_match(),
            buffer_len_of(self.dims_view(), self.strides_view()) <= usize::MAX,
        ensures
            r == buffer_len_of(self.dims_view(), self.strides_view()),
    {
        position::buffer_len(self.dims.as_slice(), self.strides.as_slice())
    }

    /// The buffer offset of the component at `position`.
    pub fn compute_offset(&self, position: &[isize]) -> (r: usize)
        requires
            position_in_bounds(self.dims_view(), position@),
            self.ranks_match(),
            offset_of(self.dims_view(), position@, self.strides_view()) <= usize::MAX,
        ensures
            r == offset_of(self.dims_view(), position@, self.strides_view()),
    {
        position::compute_offset(self.dims.as_slice(), position, self.strides.as_slice())
    }

    /// Normalizes a signed axis index into `0..rank`.
    pub fn normalize_index(&self, index: isize) -> (r: usize)
        requires
            coord_in_bounds(self.rank_view() as int, index as int),
        ensures
            r == norm_coord(self.rank_view() as int, index as int),
    {
        position::unsign_index(index, self.dims.len()).unwrap()
    }

    /// Normalizes a signed axis index into `0..rank`, or an `InvalidIndex` error naming it.
    pub fn try_normalize_index(&self, index: isize) -> (r: Result<usize, Error>)
        ensures
            r is Ok <==> coord_in_bounds(self.rank_view() as int, index as int),
            r matches Ok(u) ==> u == norm_coord(self.rank_view() as int, index as int),
            r matches Err(e) ==> e.describes(
                KindView::InvalidIndex(index),
                "unsign"@,
                self.dims_view(),
                self.strides_view(),
            ),
    {
        match position::unsign_index(index, self.dims.len()) {
            Some(u) => Ok(u),
            None => Err(Error::invalid_index(self.clone(), index, "unsign")),
        }
    }

    /// The dim of the axis at `index` (negative indices count from the end).
    pub fn get_dim(&self, index: isize) -> (r: usize)
        requires
            coord_in_bounds(self.rank_view() as int, index as int),
        ensures
            r == self.dims_view()[norm_coord(self.rank_view() as int, index as int)],
    {
        let i = self.normalize_index(index);
        self.dims[i]
    }

    /// The stride of the axis at `index` (negative indices count from the end).
    pub fn get_stride(&self, index: isize) -> (r: isize)
        requires
            coord_in_bounds(self.strides_view().len() as int, index as int),
        ensures
            r == self.strides_view()[norm_coord(self.strides_view().len() as int, index as int)],
    {
        let i = position::unsign_index(index, self.strides.len()).unwrap();
        self.strides[i]
    }

    /// Whether the layout is normalized: iterating positions in last-axis-fastest order visits
    /// offsets 0, 1, 2, ... in order. Also false when the ranks differ or the count exceeds
    /// `isize::MAX`.
    pub fn is_normalized(&self) -> (r: bool)
        ensures
            r == normalized_strides(self.dims_view(), self.strides_view()),
    {
        let rank = self.dims.len();
        if rank != self.strides.len() {
            return false;
        }
        let mut acc: usize = 1;
        let mut k: usize = 0;
        while k < rank
            invariant
                k <= rank == self.dims@.len() == self.strides@.len(),
                acc == suffix_count(self.dims@, k as nat),
                acc <= isize::MAX,
                forall|j: int|
                    0 <= j < k ==> #[trigger] self.strides@[rank - 1 - j] == suffix_count(
                        self.dims@,
                        j as nat,
                    ) && suffix_count(self.dims@, (j + 1) as nat) <= isize::MAX,
            decreases rank - k,
        {
            let a = rank - 1 - k;
            if acc as isize != self.strides[a] {
                proof {
                    assert(!(self.strides@[rank - 1 - k as int] == suffix_count(
                        self.dims@,
                        k as nat,
                    )));
                }
                return false;
            }
            let d = self.dims[a];
            proof {
                assert(suffix_count(self.dims@, (k + 1) as nat) == d * acc);
            }
            if d != 0 && acc > (isize::MAX as usize) / d {
                proof {
                    assert(d * acc > isize::MAX) by (nonlinear_arith)
                        requires
                            d > 0,
                            acc > (isize::MAX as usize) / d,
                    ;
                    assert(!(suffix_count(self.dims@, (k + 1) as nat) <= isize::MAX));
                }
                return false;
            }
            proof {
                if d != 0 {
                    assert(d * acc <= isize::MAX) by (nonlinear_arith)
                        requires
                            d > 0,
                            acc <= (isize::MAX as usize) / d,
                    ;
                } else {
                    assert(d * acc == 0);
                }
            }
            acc = d * acc;
            k = k + 1;
        }
        true
    }

    /// Creates the normalized layout of the given dims. Errors with `DimOverflow` if a dim
    /// exceeds `isize::MAX`.
    pub fn try_new(dims: &[usize]) -> (r: Result<Self, Error>)
        requires
            suffix_counts_fit(dims@),
        ensures
            r is Ok <==> dims_fit_isize(dims@),
            r matches Ok(l) ==> l.dims_view() == dims@ && l.strides_view() == row_major_strides(dims@),
            r matches Err(e) ==> e.spec_kind() == KindView::DimOverflow && e.spec_op() == "new"@,
    {
        match error::check_dims(dims) {
            Err(e) => Err(e.with_op("new")),
            Ok(()) => {
                let rank = dims.len();
                let mut strides: Vec<isize> = Vec::new();
                let mut i: usize = 0;
                while i < rank
                    invariant
                        i <= rank,
                        strides@.len() == i,
                    decreases rank - i,
                {
                    strides.push(0);
                    i = i + 1;
                }
                let mut acc: usize = 1;
                let mut k: usize = 0;
                while k < rank
                    invariant
                        k <= rank == dims@.len() == strides@.len(),
                        suffix_counts_fit(dims@),
                        acc == suffix_count(dims@, k as nat),
                        forall|j: int|
                            0 <= j < k ==> #[trigger] strides@[rank - 1 - j] == suffix_count(
                                dims@,
                                j as nat,
                            ) as isize,
                    decreases rank - k,
                {
                    let a = rank - 1 - k;
                    strides.set(a, acc as isize);
                    proof {
                        assert(suffix_count(dims@, (k + 1) as nat) <= usize::MAX);
                    }
                    acc = dims[a] * acc;
                    k = k + 1;
                }
                assert(strides@ =~= row_major_strides(dims@)) by {
                    assert forall|i: int| 0 <= i < rank implies strides@[i] == row_major_strides(dims@)[i] by {
                        let j = rank - 1 - i;
                        assert(strides@[rank - 1 - j] == suffix_count(dims@, j as nat) as isize);
                    }
                }
                Ok(Layout { dims: copy_dims(dims), strides })
            },
        }
    }

    /// Creates the normalized layout of the given dims.
    pub fn new(dims: &[usize]) -> (r: Self)
        requires
            suffix_counts_fit(dims@),
            dims_fit_isize(dims@),
        ensures
            r.dims_view() == dims@,
            r.strides_view() == row_major_strides(dims@),
    {
        match Self::try_new(dims) {
            Ok(l) => l,
            Err(_) => {
                proof {
                    assert(false);
                }
                Layout::scalar()
            },
        }
    }
}

impl Layout {
    /// Reverses the order of components along every axis: negates every stride.
    pub fn flip(&mut self) -> (r: &mut Self)
        requires
            forall|i: int| 0 <= i < old(self).strides_view().len() ==> #[trigger] old(self).strides_view()[i] != isize::MIN,
        ensures
            r.dims_view() == old(self).dims_view(),
            r.strides_view().len() == old(self).strides_view().len(),
            forall|i: int| 0 <= i < old(self).strides_view().len() ==> #[trigger] r.strides_view()[i] == -old(self).strides_view()[i],
            final(self).dims_view() == final(r).dims_view(),
            final(self).strides_view() == final(r).strides_view(),
    {
        let n = self.strides.len();
        let mut i: usize = 0;
        while i < n
            invariant
                i <= n == self.strides@.len() == old(self).strides@.len(),
                self.dims@ == old(self).dims@,
                forall|j: int| 0 <= j < n ==> #[trigger] old(self).strides_view()[j] != isize::MIN,
                forall|j: int| 0 <= j < i ==> #[trigger] self.strides@[j] == -old(self).strides@[j],
                forall|j: int| i <= j < n ==> #[trigger] self.strides@[j] == old(self).strides@[j],
            decreases n - i,
        {
            let s = self.strides[i];
            assert(old(self).strides_view()[i as int] != isize::MIN);
            self.strides.set(i, -s);
            i = i + 1;
        }
        self
    }
}

impl Layout {
    /// Reverses the order of components along the axis at `index`: negates its stride.
    pub fn flip_dim(&mut self, index: isize) -> (r: &mut Self)
        requires
            old(self).ranks_match(),
            coord_in_bounds(old(self).rank_view() as int, index as int),
            old(self).strides_view()[norm_coord(old(self).rank_view() as int, index as int)]
                != isize::MIN,
        ensures
            ({
                let i = norm_coord(old(self).rank_view() as int, index as int);
                &&& r.dims_view() == old(self).dims_view()
                &&& r.strides_view() == old(self).strides_view().update(
                    i,
                    -old(self).strides_view()[i] as isize,
                )
            }),
            final(self).dims_view() == final(r).dims_view(),
            final(self).strides_view() == final(r).strides_view(),
    {
        let i = self.normalize_index(index);
        let s = self.strides[i];
        self.strides.set(i, -s);
        self
    }

    /// Reverses the order of components along every axis except the one at `index`.
    pub fn flip_around(&mut self, index: isize) -> (r: &mut Self)
        requires
            old(self).ranks_match(),
            coord_in_bounds(old(self).rank_view() as int, index as int),
            forall|i: int| 0 <= i < old(self).strides_view().len() ==> #[trigger] old(self).strides_view()[i] != isize::MIN,
        ensures
            ({
                let k = norm_coord(old(self).rank_view() as int, index as int);
                &&& r.dims_view() == old(self).dims_view()
                &&& r.strides_view().len() == old(self).strides_view().len()
                &&& r.strides_view()[k] == old(self).strides_view()[k]
                &&& forall|i: int| 0 <= i < old(self).strides_view().len() && i != k ==> #[trigger] r.strides_view()[i] == -old(self).strides_view()[i]
            }),
            final(self).dims_view() == final(r).dims_view(),
            final(self).strides_view() == final(r).strides_view(),
    {
        let ghost k = norm_coord(old(self).rank_view() as int, index as int);
        self.flip_dim(index);
        assert forall|i: int| 0 <= i < self.strides_view().len() implies #[trigger] self.strides_view()[i] != isize::MIN by {
            assert(old(self).strides_view()[i] != isize::MIN);
        }
        self.flip()
    }

    /// Inserts a dim at `index` (of the new rank). Only the dims change, which may affect
    /// the layout's validity.
    pub fn insert_dim(&mut self, index: isize, dim: usize)
        requires
            old(self).rank_view() < usize::MAX,
            coord_in_bounds(old(self).rank_view() + 1int, index as int),
            dim <= isize::MAX,
        ensures
            final(self).dims_view() == old(self).dims_view().insert(
                norm_coord(old(self).rank_view() + 1int, index as int),
                dim,
            ),
            final(self).strides_view() == old(self).strides_view(),
    {
        let rank = self.dims.len() + 1;
        let i = position::unsign_index(index, rank).unwrap();
        self.dims.insert(i, dim);
    }

    /// Inserts a stride at `index` (of the rank plus one). Only the strides change, which
    /// may affect the layout's validity.
    pub fn insert_stride(&mut self, index: isize, stride: isize)
        requires
            old(self).rank_view() < usize::MAX,
            coord_in_bounds(old(self).rank_view() + 1int, index as int),
            norm_coord(old(self).rank_view() + 1int, index as int) <= old(self).strides_view().len(),
        ensures
            final(self).strides_view() == old(self).strides_view().insert(
                norm_coord(old(self).rank_view() + 1int, index as int),
                stride,
            ),
            final(self).dims_view() == old(self).dims_view(),
    {
        let rank = self.dims.len() + 1;
        let i = position::unsign_index(index, rank).unwrap();
        self.strides.insert(i, stride);
    }

    /// Inserts an axis with the given dim and stride at `index` (of the new rank).
    pub fn insert_axis(&mut self, index: isize, dim: usize, stride: isize)
        requires
            old(self).ranks_match(),
            old(self).rank_view() < usize::MAX,
            coord_in_bounds(old(self).rank_view() + 1int, index as int),
            dim <= isize::MAX,
        ensures
            ({
                let i = norm_coord(old(self).rank_view() + 1int, index as int);
                &&& final(self).dims_view() == old(self).dims_view().insert(i, dim)
                &&& final(self).strides_view() == old(self).strides_view().insert(i, stride)
            }),
    {
        let rank = self.dims.len() + 1;
        let i = position::unsign_index(index, rank).unwrap();
        self.dims.insert(i, dim);
        self.strides.insert(i, stride);
    }

    /// Appends an axis with the given dim and stride.
    pub fn push_axis(&mut self, dim: usize, stride: isize)
        requires
            dim <= isize::MAX,
        ensures
            final(self).dims_view() == old(self).dims_view().push(dim),
            final(self).strides_view() == old(self).strides_view().push(stride),
    {
        self.push_dim(dim);
        self.push_stride(stride);
    }

    /// Appends a dim. Only the dims change, which may affect the layout's validity.
    pub fn push_dim(&mut self, dim: usize)
        requires
            dim <= isize::MAX,
        ensures
            final(self).dims_view() == old(self).dims_view().push(dim),
            final(self).strides_view() == old(self).strides_view(),
    {
        self.dims.push(dim);
    }

    /// Appends a stride. Only the strides change, which may affect the layout's validity.
    pub fn push_stride(&mut self, stride: isize)
        ensures
            final(self).strides_view() == old(self).strides_view().push(stride),
            final(self).dims_view() == old(self).dims_view(),
    {
        self.strides.push(stride);
    }

    /// Removes the axis at `index`, returning its dim and stride.
    pub fn remove_axis(&mut self, index: isize) -> (r: (usize, isize))
        requires
            old(self).ranks_match(),
            coord_in_bounds(old(self).rank_view() as int, index as int),
        ensures
            ({
                let i = norm_coord(old(self).rank_view() as int, index as int);
                &&& r == (old(self).dims_view()[i], old(self).strides_view()[i])
                &&& final(self).dims_view() == old(self).dims_view().remove(i)
                &&& final(self).strides_view() == old(self).strides_view().remove(i)
            }),
    {
        let i = self.normalize_index(index);
        let d = self.dims.remove(i);
        let s = self.strides.remove(i);
        (d, s)
    }

    /// Removes the dim at `index`. Only the dims change, which may affect the layout's
    /// validity.
    pub fn remove_dim(&mut self, index: isize) -> (r: usize)
        requires
            coord_in_bounds(old(self).rank_view() as int, index as int),
        ensures
            ({
                let i = norm_coord(old(self).rank_view() as int, index as int);
                &&& r == old(self).dims_view()[i]
                &&& final(self).dims_view() == old(self).dims_view().remove(i)
                &&& final(self).strides_view() == old(self).strides_view()
            }),
    {
        let i = self.normalize_index(index);
        self.dims.remove(i)
    }

    /// Removes the stride at `index` (normalized against the rank). Only the strides change,
    /// which may affect the layout's validity.
    pub fn remove_stride(&mut self, index: isize) -> (r: isize)
        requires
            coord_in_bounds(old(self).rank_view() as int, index as int),
            norm_coord(old(self).rank_view() as int, index as int) < old(self).strides_view().len(),
        ensures
            ({
                let i = norm_coord(old(self).rank_view() as int, index as int);
                &&& r == old(self).strides_view()[i]
                &&& final(self).strides_view() == old(self).strides_view().remove(i)
                &&& final(self).dims_view() == old(self).dims_view()
            }),
    {
        let i = self.normalize_index(index);
        self.strides.remove(i)
    }

    /// Sets the dim of the axis at `index`. May affect the layout's validity.
    pub fn set_dim(&mut self, index: isize, dim: usize)
        requires
            dim <= isize::MAX,
            coord_in_bounds(old(self).rank_view() as int, index as int),
        ensures
            final(self).dims_view() == old(self).dims_view().update(
                norm_coord(old(self).rank_view() as int, index as int),
                dim,
            ),
            final(self).strides_view() == old(self).strides_view(),
    {
        let i = self.normalize_index(index);
        self.dims.set(i, dim);
    }

    /// Sets the stride of the axis at `index`. May affect the layout's validity.
    pub fn set_stride(&mut self, index: isize, stride: isize)
        requires
            coord_in_bounds(old(self).rank_view() as int, index as int),
            norm_coord(old(self).rank_view() as int, index as int) < old(self).strides_view().len(),
        ensures
            final(self).strides_view() == old(self).strides_view().update(
                norm_coord(old(self).rank_view() as int, index as int),
                stride,
            ),
            final(self).dims_view() == old(self).dims_view(),
    {
        let i = self.normalize_index(index);
        self.strides.set(i, stride);
    }

    /// Swaps two axes: their dims and their strides.
    pub fn swap_dims(&mut self, a: isize, b: isize) -> (r: &mut Self)
        requires
            old(self).ranks_match(),
            coord_in_bounds(old(self).rank_view() as int, a as int),
            coord_in_bounds(old(self).rank_view() as int, b as int),
        ensures
            ({
                let i = norm_coord(old(self).rank_view() as int, a as int);
                let j = norm_coord(old(self).rank_view() as int, b as int);
                &&& r.dims_view() == old(self).dims_view().update(i, old(self).dims_view()[j]).update(
                    j,
                    old(self).dims_view()[i],
                )
                &&& r.strides_view() == old(self).strides_view().update(
                    i,
                    old(self).strides_view()[j],
                ).update(j, old(self).strides_view()[i])
            }),
            final(self).dims_view() == final(r).dims_view(),
            final(self).strides_view() == final(r).strides_view(),
    {
        let i = self.normalize_index(a);
        let j = self.normalize_index(b);
        let (di, dj) = (self.dims[i], self.dims[j]);
        let (si, sj) = (self.strides[i], self.strides[j]);
        self.dims.set(i, dj);
        self.dims.set(j, di);
        self.strides.set(i, sj);
        self.strides.set(j, si);
        self
    }

    /// Removes an axis of dim 1 at `index`.
    pub fn squeeze_dim(&mut self, index: isize) -> (r: &mut Self)
        requires
            old(self).ranks_match(),
            coord_in_bounds(old(self).rank_view() as int, index as int),
            old(self).dims_view()[norm_coord(old(self).rank_view() as int, index as int)] == 1,
        ensures
            ({
                let i = norm_coord(old(self).rank_view() as int, index as int);
                &&& r.dims_view() == old(self).dims_view().remove(i)
                &&& r.strides_view() == old(self).strides_view().remove(i)
            }),
            final(self).dims_view() == final(r).dims_view(),
            final(self).strides_view() == final(r).strides_view(),
    {
        let i = self.normalize_index(index);
        self.dims.remove(i);
        self.strides.remove(i);
        self
    }

    /// Inserts an axis of dim 1 and stride 1 at `index` (of the new rank).
    pub fn unsqueeze_dim(&mut self, index: isize) -> (r: &mut Self)
        requires
            old(self).ranks_match(),
            old(self).rank_view() < usize::MAX,
            coord_in_bounds(old(self).rank_view() + 1int, index as int),
        ensures
            ({
                let i = norm_coord(old(self).rank_view() + 1int, index as int);
                &&& r.dims_view() == old(self).dims_view().insert(i, 1)
                &&& r.strides_view() == old(self).strides_view().insert(i, 1)
            }),
            r.ranks_match(),
            final(self).dims_view() == final(r).dims_view(),
            final(self).strides_view() == final(r).strides_view(),
    {
        self.insert_axis(index, 1, 1);
        self
    }
}

impl Layout {
    /// Checks that the layout is valid; see `error::check_layout`. Errors name this layout.
    pub fn check(&self) -> (r: Result<(), Error>)
        ensures
            r is Ok <==> error::layout_ok(self.dims_view(), self.strides_view()),
            r matches Err(e) ==> e.spec_op() == "check"@ && e.spec_layout().dims_view()
                == self.dims_view() && e.spec_layout().strides_view() == self.strides_view(),
    {
        match error::check_layout(self.dims.as_slice(), self.strides.as_slice()) {
            Ok(()) => Ok(()),
            Err(e) => Err(e.with_layout(self.clone())),
        }
    }

    /// Checks that the layout is valid and no two positions share an offset; see
    /// `error::check_layout_mut`. Errors name this layout.
    pub fn check_mut(&self) -> (r: Result<(), Error>)
        ensures
            r is Ok <==> error::layout_ok(self.dims_view(), self.strides_view()) && !error::aliases(
                self.dims_view(),
                self.strides_view(),
            ),
            r matches Err(e) ==> e.spec_op() == "check"@ && e.spec_layout().dims_view()
                == self.dims_view() && e.spec_layout().strides_view() == self.strides_view(),
    {
        match error::check_layout_mut(self.dims.as_slice(), self.strides.as_slice()) {
            Ok(()) => Ok(()),
            Err(e) => Err(e.with_layout(self.clone())),
        }
    }

    /// Checks that the layout is valid and fits in a buffer of `bufferlen` components;
    /// errors with the kind of `check` or `BufferTooSmall`, under the operation "validate".
    pub fn validate(&self, bufferlen: usize) -> (r: Result<(), Error>)
        ensures
            r is Ok <==> error::layout_ok(self.dims_view(), self.strides_view()) && bufferlen
                >= buffer_len_of(self.dims_view(), self.strides_view()),
            r matches Err(e) ==> e.spec_op() == "validate"@ && e.spec_layout().dims_view()
                == self.dims_view() && e.spec_layout().strides_view() == self.strides_view(),
            error::layout_ok(self.dims_view(), self.strides_view()) && bufferlen < buffer_len_of(
                self.dims_view(),
                self.strides_view(),
            ) ==> (r matches Err(e) && e.spec_kind() == (KindView::BufferTooSmall {
                available: bufferlen,
                required: buffer_len_of(self.dims_view(), self.strides_view()) as usize,
            })),
    {
        match error::check_layout(self.dims.as_slice(), self.strides.as_slice()) {
            Err(e) => {
                return Err(e.with_op("validate"));
            },
            Ok(()) => {},
        }
        proof {
            error::lemma_layout_ok_bounds(self.dims@, self.strides@);
        }
        let len = self.len();
        if bufferlen < len {
            return Err(Error::buffer_too_small(self.clone(), bufferlen, len, "validate"));
        }
        Ok(())
    }

    /// Like `validate`, also requiring that no two positions share an offset.
    pub fn validate_mut(&self, bufferlen: usize) -> (r: Result<(), Error>)
        ensures
            r is Ok <==> error::layout_ok(self.dims_view(), self.strides_view()) && !error::aliases(
                self.dims_view(),
                self.strides_view(),
            ) && bufferlen >= buffer_len_of(self.dims_view(), self.strides_view()),
            r matches Err(e) ==> e.spec_op() == "validate"@ && e.spec_layout().dims_view()
                == self.dims_view() && e.spec_layout().strides_view() == self.strides_view(),
            error::layout_ok(self.dims_view(), self.strides_view()) && !error::aliases(
                self.dims_view(),
                self.strides_view(),
            ) && bufferlen < buffer_len_of(self.dims_view(), self.strides_view()) ==> (r matches Err(
                e,
            ) && e.spec_kind() == (KindView::BufferTooSmall {
                available: bufferlen,
                required: buffer_len_of(self.dims_view(), self.strides_view()) as usize,
            })),
    {
        match error::check_layout_mut(self.dims.as_slice(), self.strides.as_slice()) {
            Err(e) => {
                return Err(e.with_layout(self.clone()).with_op("validate"));
            },
            Ok(()) => {},
        }
        proof {
            error::lemma_layout_ok_bounds(self.dims@, self.strides@);
        }
        let len = self.len();
        if bufferlen < len {
            return Err(Error::buffer_too_small(self.clone(), bufferlen, len, "validate"));
        }
        Ok(())
    }

    /// Iterates over every position of a tensor with this layout's dims.
    pub fn positions(&self) -> (r: position::PositionIter)
        requires
            dims_fit_isize(self.dims_view()),
            count_of(self.dims_view()) <= usize::MAX,
        ensures
            r.dims_view() == self.dims_view(),
            r.remaining() == count_of(self.dims_view()),
            r.front_signs() == Seq::new(self.dims_view().len(), |i: int| 0isize),
            r.back_signs() == Seq::new(self.dims_view().len(), |i: int| -1isize),
    {
        position::PositionIter::new(self.dims.as_slice())
    }

    /// Broadcasts the axis at `index` to `rhs`: an axis of dim 1 becomes dim `rhs` with
    /// stride 0; an axis already of dim `rhs`, or `rhs == 1`, is left alone.
    pub fn broadcast_dim(&mut self, index: isize, rhs: usize) -> (r: &mut Self)
        requires
            error::layout_ok(old(self).dims_view(), old(self).strides_view()),
            coord_in_bounds(old(self).rank_view() as int, index as int),
            ({
                let d = old(self).dims_view()[norm_coord(old(self).rank_view() as int, index as int)];
                &&& rhs != 1 && d != 1 ==> d == rhs
                &&& rhs != 1 && d == 1 ==> rhs <= isize::MAX && count_of(old(self).dims_view()) * rhs <= usize::MAX
            }),
        ensures
            ({
                let i = norm_coord(old(self).rank_view() as int, index as int);
                if rhs != 1 && old(self).dims_view()[i] == 1 {
                    &&& r.dims_view() == old(self).dims_view().update(i, rhs)
                    &&& r.strides_view() == old(self).strides_view().update(i, 0)
                } else {
                    &&& r.dims_view() == old(self).dims_view()
                    &&& r.strides_view() == old(self).strides_view()
                }
            }),
            final(self).dims_view() == final(r).dims_view(),
            final(self).strides_view() == final(r).strides_view(),
    {
        let i = self.normalize_index(index);
        if rhs == 1 {
            return self;
        }
        if self.dims[i] == 1 {
            self.dims.set(i, rhs);
            self.strides.set(i, 0);
        }
        self
    }

    /// Broadcasts this layout to the dims `rhs` of equal rank: every axis of dim 1 whose
    /// counterpart is not 1 takes that dim with stride 0. Errors, leaving the layout as it
    /// was, if this layout is invalid, the ranks differ (`RankMismatch`), a pair of dims is
    /// incompatible (`BroadcastMismatch`), or the result is invalid.
    pub fn try_broadcast(&mut self, rhs: &[usize]) -> (r: Result<&mut Self, Error>)
        ensures
            r is Ok <==> error::layout_ok(old(self).dims_view(), old(self).strides_view())
                && old(self).rank_view() == rhs@.len() && broadcast_fits(old(self).dims_view(), rhs@)
                && error::layout_ok(
                broadcast_dims(old(self).dims_view(), rhs@),
                broadcast_strides(old(self).dims_view(), old(self).strides_view(), rhs@),
            ),
            r matches Ok(t) ==> t.dims_view() == broadcast_dims(old(self).dims_view(), rhs@)
                && t.strides_view() == broadcast_strides(
                old(self).dims_view(),
                old(self).strides_view(),
                rhs@,
            ),
            r matches Ok(t) ==> final(self).dims_view() == final(t).dims_view()
                && final(self).strides_view() == final(t).strides_view(),
            r matches Ok(t) ==> t.dims_view().len() == rhs@.len() && forall|j: int| 0 <= j < rhs@.len() ==> #[trigger] t.dims_view()[j]
                == if rhs@[j] == 1 { old(self).dims_view()[j] } else { rhs@[j] },
            r matches Ok(t) ==> forall|q: Seq<isize>| #[trigger] position_in_bounds(t.dims_view(), q) ==> offset_of(
                t.dims_view(),
                q,
                t.strides_view(),
            ) == offset_of(old(self).dims_view(), collapse_broadcast(old(self).dims_view(), q), old(self).strides_view()),
            r is Err ==> final(self).dims_view() == old(self).dims_view()
                && final(self).strides_view() == old(self).strides_view(),
            r matches Err(e) ==> e.spec_op() == "broadcast"@,
            error::layout_ok(old(self).dims_view(), old(self).strides_view()) && old(self).rank_view()
                != rhs@.len() ==> (r matches Err(e) && e.spec_kind() == KindView::RankMismatch),
            error::layout_ok(old(self).dims_view(), old(self).strides_view()) && old(self).rank_view()
                == rhs@.len() && !broadcast_fits(old(self).dims_view(), rhs@) ==> (r matches Err(e)
                && e.spec_kind() == KindView::BroadcastMismatch),
    {
        match self.check() {
            Err(e) => {
                return Err(e.with_op("broadcast"));
            },
            Ok(()) => {},
        }
        if self.dims.len() != rhs.len() {
            return Err(Error::rank_mismatch(self.clone(), "broadcast", error::diagnostic_shape(rhs)));
        }
        let rank = rhs.len();
        let mut dims = copy_dims(self.dims.as_slice());
        let mut strides = copy_strides(self.strides.as_slice());
        let mut ix: usize = 0;
        while ix < rank
            invariant
                ix <= rank == rhs@.len() == self.dims@.len() == self.strides@.len(),
                dims@.len() == rank,
                strides@.len() == rank,
                forall|j: int| 0 <= j < ix ==> #[trigger] broadcast_axis_fits(self.dims@, rhs@, j),
                forall|j: int| 0 <= j < ix ==> #[trigger] dims@[j] == broadcast_dims(self.dims@, rhs@)[j],
                forall|j: int| 0 <= j < ix ==> #[trigger] strides@[j] == broadcast_strides(self.dims@, self.strides@, rhs@)[j],
                forall|j: int| ix <= j < rank ==> #[trigger] dims@[j] == self.dims@[j],
                forall|j: int| ix <= j < rank ==> #[trigger] strides@[j] == self.strides@[j],
            decreases rank - ix,
        {
            let dim = self.dims[ix];
            let rdm = rhs[ix];
            if rdm != 1 {
                if dim == 1 {
                    dims.set(ix, rdm);
                    strides.set(ix, 0);
                } else if dim != rdm {
                    assert(!broadcast_axis_fits(self.dims@, rhs@, ix as int));
                    return Err(Error::broadcast_mismatch(self.clone(), "broadcast", error::diagnostic_shape(rhs)));
                }
            }
            ix = ix + 1;
        }
        assert(dims@ =~= broadcast_dims(self.dims@, rhs@));
        assert(strides@ =~= broadcast_strides(self.dims@, self.strides@, rhs@));
        let result = Layout::from_inner(dims, strides);
        match result.check() {
            Err(e) => {
                return Err(e.with_op("broadcast"));
            },
            Ok(()) => {},
        }
        proof {
            let d0 = self.dims@;
            let s0 = self.strides@;
            assert forall|j: int| 0 <= j < rhs@.len() implies #[trigger] broadcast_dims(d0, rhs@)[j]
                == if rhs@[j] == 1 { d0[j] } else { rhs@[j] } by {
                assert(broadcast_axis_fits(d0, rhs@, j));
            }
            assert forall|q: Seq<isize>| #[trigger] position_in_bounds(broadcast_dims(d0, rhs@), q) implies offset_of(
                broadcast_dims(d0, rhs@),
                q,
                broadcast_strides(d0, s0, rhs@),
            ) == offset_of(d0, collapse_broadcast(d0, q), s0) by {
                law_broadcast_repeats_components(d0, s0, rhs@, q);
            }
        }
        *self = result;
        Ok(self)
    }

    /// Broadcasts this layout to the dims `rhs`; see `try_broadcast`.
    pub fn broadcast(&mut self, rhs: &[usize]) -> (r: &mut Self)
        requires
            error::layout_ok(old(self).dims_view(), old(self).strides_view()),
            old(self).rank_view() == rhs@.len(),
            broadcast_fits(old(self).dims_view(), rhs@),
            error::layout_ok(
                broadcast_dims(old(self).dims_view(), rhs@),
                broadcast_strides(old(self).dims_view(), old(self).strides_view(), rhs@),
            ),
        ensures
            r.dims_view() == broadcast_dims(old(self).dims_view(), rhs@),
            r.strides_view() == broadcast_strides(old(self).dims_view(), old(self).strides_view(), rhs@),
            final(self).dims_view() == final(r).dims_view(),
            final(self).strides_view() == final(r).strides_view(),
    {
        let _ = self.try_broadcast(rhs);
        self
    }
}

/// Axis `j` of `dims` can be broadcast to `rhs`: either is 1 or they are equal.
pub open spec fn broadcast_axis_fits(dims: Seq<usize>, rhs: Seq<usize>, j: int) -> bool {
    rhs[j] == 1 || dims[j] == 1 || dims[j] == rhs[j]
}

/// Every axis of `dims` can be broadcast to `rhs`.
pub open spec fn broadcast_fits(dims: Seq<usize>, rhs: Seq<usize>) -> bool {
    forall|j: int| 0 <= j < dims.len() ==> #[trigger] broadcast_axis_fits(dims, rhs, j)
}

/// Dims after broadcasting: an axis of dim 1 takes the dim of `rhs`.
pub open spec fn broadcast_dims(dims: Seq<usize>, rhs: Seq<usize>) -> Seq<usize> {
    Seq::new(dims.len(), |j: int| if rhs[j] != 1 && dims[j] == 1 { rhs[j] } else { dims[j] })
}

/// Strides after broadcasting: an axis that was broadcast gets stride 0.
pub open spec fn broadcast_strides(dims: Seq<usize>, strides: Seq<isize>, rhs: Seq<usize>) -> Seq<isize> {
    Seq::new(strides.len(), |j: int| if rhs[j] != 1 && dims[j] == 1 { 0isize } else { strides[j] })
}


/// A position with the coordinate of every axis of dim 1 set to 0: the coordinates a
/// broadcast position reads in the layout it was broadcast from.
pub open spec fn collapse_broadcast(dims: Seq<usize>, q: Seq<isize>) -> Seq<isize> {
    Seq::new(q.len(), |j: int| if dims[j] == 1 { 0isize } else { q[j] })
}

proof fn lemma_broadcast_offsets(dims: Seq<usize>, strides: Seq<isize>, rhs: Seq<usize>, q: Seq<isize>, k: nat)
    requires
        dims.len() == strides.len(),
        dims.len() == rhs.len(),
        broadcast_fits(dims, rhs),
        position_in_bounds(broadcast_dims(dims, rhs), q),
        k <= dims.len(),
    ensures
        suffix_offset(broadcast_dims(dims, rhs), q, broadcast_strides(dims, strides, rhs), k)
            == suffix_offset(dims, collapse_broadcast(dims, q), strides, k),
    decreases k,
{
    if k > 0 {
        lemma_broadcast_offsets(dims, strides, rhs, q, (k - 1) as nat);
        let j = dims.len() - k;
        let bd = broadcast_dims(dims, rhs);
        let bs = broadcast_strides(dims, strides, rhs);
        let c = collapse_broadcast(dims, q);
        assert(coord_in_bounds(bd[j] as int, q[j] as int));
        if dims[j] == 1 {
            assert(c[j] == 0);
            let m = abs_int(strides[j] as int);
            assert(0 * m == 0) by (nonlinear_arith);
            assert(axis_offset(dims[j] as int, c[j] as int, strides[j] as int) == 0);
            if rhs[j] != 1 {
                assert(bs[j] == 0);
                let x = norm_coord(bd[j] as int, q[j] as int);
                assert(x * 0 == 0) by (nonlinear_arith);
                assert(axis_offset(bd[j] as int, q[j] as int, bs[j] as int) == 0);
            } else {
                assert(norm_coord(bd[j] as int, q[j] as int) == 0);
                assert(axis_offset(bd[j] as int, q[j] as int, bs[j] as int) == 0);
            }
        } else {
            assert(bd[j] == dims[j] && bs[j] == strides[j] && c[j] == q[j]);
        }
    }
}

/// Broadcasting repeats the data: a position of the broadcast layout reaches the offset that
/// the original layout gives the same position with the coordinate of every axis of dim 1 set
/// to 0, which is a position of the original layout. So along a broadcast axis the offset
/// does not depend on the coordinate.
pub proof fn law_broadcast_repeats_components(dims: Seq<usize>, strides: Seq<isize>, rhs: Seq<usize>, q: Seq<isize>)
    requires
        dims.len() == strides.len(),
        dims.len() == rhs.len(),
        broadcast_fits(dims, rhs),
        position_in_bounds(broadcast_dims(dims, rhs), q),
    ensures
        position_in_bounds(dims, collapse_broadcast(dims, q)),
        offset_of(broadcast_dims(dims, rhs), q, broadcast_strides(dims, strides, rhs))
            == offset_of(dims, collapse_broadcast(dims, q), strides),
{
    let bd = broadcast_dims(dims, rhs);
    let c = collapse_broadcast(dims, q);
    assert forall|j: int| 0 <= j < dims.len() implies #[trigger] coord_in_bounds(dims[j] as int, c[j] as int) by {
        assert(coord_in_bounds(bd[j] as int, q[j] as int));
        assert(broadcast_axis_fits(dims, rhs, j));
    }
    lemma_broadcast_offsets(dims, strides, rhs, q, dims.len());
}

/// Every stride negated.
pub open spec fn flipped(strides: Seq<isize>) -> Seq<isize> {
    Seq::new(strides.len(), |i: int| -strides[i] as isize)
}

/// The stride at `i` negated.
pub open spec fn flipped_at(strides: Seq<isize>, i: int) -> Seq<isize> {
    strides.update(i, -strides[i] as isize)
}

/// Every stride but the one at `k` negated.
pub open spec fn flipped_around(strides: Seq<isize>, k: int) -> Seq<isize> {
    Seq::new(strides.len(), |i: int| if i == k { strides[i] } else { -strides[i] as isize })
}

/// No stride is `isize::MIN`, so each can be negated.
pub open spec fn negatable(strides: Seq<isize>) -> bool {
    forall|i: int| 0 <= i < strides.len() ==> #[trigger] strides[i] != isize::MIN
}

/// The dims after broadcasting the axis at `i` to `rhs`.
pub open spec fn broadcast_axis_dims(dims: Seq<usize>, i: int, rhs: usize) -> Seq<usize> {
    if rhs != 1 && dims[i] == 1 { dims.update(i, rhs) } else { dims }
}

/// The strides after broadcasting the axis at `i` to `rhs`.
pub open spec fn broadcast_axis_strides(dims: Seq<usize>, strides: Seq<isize>, i: int, rhs: usize) -> Seq<isize> {
    if rhs != 1 && dims[i] == 1 { strides.update(i, 0) } else { strides }
}

/// The axis at `i` can be broadcast to `rhs` within the limits of a layout.
pub open spec fn broadcast_axis_ok(dims: Seq<usize>, i: int, rhs: usize) -> bool {
    &&& rhs != 1 && dims[i] != 1 ==> dims[i] == rhs
    &&& rhs != 1 && dims[i] == 1 ==> rhs <= isize::MAX && count_of(dims) * rhs <= usize::MAX
}


/// One end of a range of coordinates along an axis, as `std::ops::Bound` has it.
#[derive(Clone, Copy, Debug)]
pub enum RangeBound {
    Included(isize),
    Excluded(isize),
    Unbounded,
}

/// A range of coordinates along an axis, by its two ends.
#[derive(Clone, Copy, Debug)]
pub struct AxisRange {
    pub start: RangeBound,
    pub end: RangeBound,
}

/// A range bound along an axis of extent `dim` is usable: equal to `dim`, or in bounds.
pub open spec fn range_bound_ok(dim: int, rb: int) -> bool {
    rb == dim || coord_in_bounds(dim, rb)
}

/// The unsigned form of a range bound: `dim` stays, other bounds are normalized.
pub open spec fn range_bound_of(dim: int, rb: int) -> int {
    if rb == dim { dim } else { norm_coord(dim, rb) }
}

/// The bound a range end gives to `slice_dim` is usable.
pub open spec fn end_ok(dim: int, b: RangeBound) -> bool {
    match b {
        RangeBound::Included(p) => range_bound_ok(dim, p as int),
        RangeBound::Excluded(p) => range_bound_ok(dim, p as int),
        RangeBound::Unbounded => true,
    }
}

/// The first coordinate `slice_dim` keeps.
pub open spec fn slice_start(dim: int, b: RangeBound) -> int {
    match b {
        RangeBound::Excluded(p) => range_bound_of(dim, p as int) + 1,
        RangeBound::Included(p) => range_bound_of(dim, p as int),
        RangeBound::Unbounded => 0,
    }
}

/// One past the last coordinate `slice_dim` keeps.
pub open spec fn slice_stop(dim: int, b: RangeBound) -> int {
    match b {
        RangeBound::Excluded(p) => range_bound_of(dim, p as int),
        RangeBound::Included(p) => range_bound_of(dim, p as int) + 1,
        RangeBound::Unbounded => dim,
    }
}

/// The offset `slice_dim` adds: the start times the stride's magnitude, or, for a negative
/// stride (whose components run from the far end), the extent less the stop times it.
pub open spec fn slice_shift(dim: int, start: int, stop: int, stride: int) -> int {
    (if stride < 0 { dim - stop } else { start }) * abs_int(stride)
}

/// The signed end coordinate `try_slice` checks, for a range end along an axis of extent
/// `dim`.
pub open spec fn end_coord(dim: int, b: RangeBound) -> int {
    match b {
        RangeBound::Excluded(p) => p as int,
        RangeBound::Included(p) => if p == -1 { dim } else { p + 1 },
        RangeBound::Unbounded => dim,
    }
}

/// The signed start coordinate `try_slice` checks.
pub open spec fn start_coord(dim: int, b: RangeBound) -> int {
    match b {
        RangeBound::Excluded(p) => if p == -1 { dim } else { p + 1 },
        RangeBound::Included(p) => p as int,
        RangeBound::Unbounded => 0,
    }
}

/// Neither end needs a coordinate past `isize::MAX`.
pub open spec fn range_fits(r: AxisRange) -> bool {
    &&& r.end matches RangeBound::Included(p) ==> p != isize::MAX
    &&& r.start matches RangeBound::Excluded(p) ==> p != isize::MAX
}

/// Every end coordinate lies within the dim plus one.
pub open spec fn slice_ends_ok(dims: Seq<usize>, ranges: Seq<AxisRange>) -> bool {
    forall|i: int| 0 <= i < dims.len() ==> #[trigger] coord_in_bounds(dims[i] + 1, end_coord(dims[i] as int, ranges[i].end))
}

/// The extent up to the end coordinate of axis `i`, plus one.
pub open spec fn slice_end_extent(dims: Seq<usize>, ranges: Seq<AxisRange>, i: int) -> int {
    range_bound_of(dims[i] as int, end_coord(dims[i] as int, ranges[i].end)) + 1
}

/// Every start coordinate lies within the extent up to its end.
pub open spec fn slice_starts_ok(dims: Seq<usize>, ranges: Seq<AxisRange>) -> bool {
    forall|i: int| 0 <= i < dims.len() ==> #[trigger] coord_in_bounds(slice_end_extent(dims, ranges, i), start_coord(dims[i] as int, ranges[i].start))
}

/// The start coordinates as a position.
pub open spec fn slice_origin(dims: Seq<usize>, ranges: Seq<AxisRange>) -> Seq<isize> {
    Seq::new(dims.len(), |i: int| start_coord(dims[i] as int, ranges[i].start) as isize)
}

/// The dims after slicing.
pub open spec fn sliced_dims(dims: Seq<usize>, ranges: Seq<AxisRange>) -> Seq<usize> {
    Seq::new(dims.len(), |i: int| (slice_end_extent(dims, ranges, i) - 1 - norm_coord(dims[i] as int, start_coord(dims[i] as int, ranges[i].start))) as usize)
}

/// The offset `try_slice` adds: the offset of the start coordinates, at most the buffer
/// length of the layout.
pub open spec fn slice_offset(dims: Seq<usize>, strides: Seq<isize>, ranges: Seq<AxisRange>) -> int {
    let o = offset_of(dims, slice_origin(dims, ranges), strides);
    if o <= buffer_len_of(dims, strides) { o } else { buffer_len_of(dims, strides) }
}

/// The checks of `try_slice` pass for these dims and ranges.
pub open spec fn slice_checks_pass(dims: Seq<usize>, strides: Seq<isize>, ranges: Seq<AxisRange>) -> bool {
    &&& dims.len() == ranges.len()
    &&& strides.len() == ranges.len()
    &&& slice_ends_ok(dims, ranges)
    &&& slice_starts_ok(dims, ranges)
    &&& slice_order_ok(dims, ranges)
}

/// The start coordinate of axis `i` names a coordinate of the axis, or its end, and does not
/// lie past the end coordinate.
pub open spec fn start_fits(dims: Seq<usize>, ranges: Seq<AxisRange>, i: int) -> bool {
    let d = dims[i] as int;
    let st = start_coord(d, ranges[i].start);
    &&& st == d || coord_in_bounds(d, st)
    &&& norm_coord(d, st) + 1 <= slice_end_extent(dims, ranges, i)
}

/// No start lies past its end.
pub open spec fn slice_order_ok(dims: Seq<usize>, ranges: Seq<AxisRange>) -> bool {
    forall|i: int| 0 <= i < dims.len() ==> #[trigger] start_fits(dims, ranges, i)
}

/// Once its checks pass, `try_slice` can slice without overflow: the start coordinates name a
/// position of the layout, and the offsets fit.
pub open spec fn slice_computable(dims: Seq<usize>, strides: Seq<isize>, ranges: Seq<AxisRange>, offset: int) -> bool {
    &&& forall|i: int| 0 <= i < dims.len() ==> #[trigger] dims[i] + 1 != -end_coord(dims[i] as int, ranges[i].end)
    &&& slice_ends_ok(dims, ranges) && slice_starts_ok(dims, ranges) ==> {
        &&& position_in_bounds(dims, slice_origin(dims, ranges))
        &&& offset_of(dims, slice_origin(dims, ranges), strides) <= usize::MAX
        &&& buffer_len_of(dims, strides) <= usize::MAX
        &&& offset + buffer_len_of(dims, strides) <= usize::MAX
    }
}

/// A range bound as a coordinate from the start of an axis of extent `dim`: negative bounds
/// count back from the end.
pub open spec fn from_axis_start(dim: int, b: isize) -> int {
    if b < 0 { dim + b } else { b as int }
}

/// The first coordinate a range keeps: an included start itself, the one after an excluded
/// start, or 0.
pub open spec fn first_kept(dim: int, r: AxisRange) -> int {
    match r.start {
        RangeBound::Included(s) => from_axis_start(dim, s),
        RangeBound::Excluded(s) => from_axis_start(dim, s) + 1,
        RangeBound::Unbounded => 0,
    }
}

/// The number of coordinates a range keeps along an axis of extent `dim`: from the first
/// kept through an included end, or up to an excluded end, or to the end of the axis.
pub open spec fn kept_count(dim: int, r: AxisRange) -> int {
    match r.end {
        RangeBound::Included(b) => from_axis_start(dim, b) + 1 - first_kept(dim, r),
        RangeBound::Excluded(b) => from_axis_start(dim, b) - first_kept(dim, r),
        RangeBound::Unbounded => dim - first_kept(dim, r),
    }
}

/// When the checks of `try_slice` pass, each axis keeps exactly the coordinates its range
/// names: `start..=b` keeps `b - start + 1` of them, `start..b` keeps `b - start`, and `start..`
/// keeps the rest of the axis.
pub proof fn law_slice_keeps_the_named_coordinates(dims: Seq<usize>, strides: Seq<isize>, ranges: Seq<AxisRange>)
    requires
        slice_checks_pass(dims, strides, ranges),
        forall|i: int| 0 <= i < ranges.len() ==> #[trigger] range_fits(ranges[i]),
    ensures
        forall|i: int| 0 <= i < dims.len() ==> #[trigger] sliced_dims(dims, ranges)[i] == kept_count(dims[i] as int, ranges[i]),
{
    assert forall|i: int| 0 <= i < dims.len() implies #[trigger] sliced_dims(dims, ranges)[i] == kept_count(dims[i] as int, ranges[i]) by {
        let d = dims[i] as int;
        let r = ranges[i];
        assert(coord_in_bounds(d + 1, end_coord(d, r.end)));
        assert(start_fits(dims, ranges, i));
        assert(range_fits(r));
        assert(coord_in_bounds(slice_end_extent(dims, ranges, i), start_coord(d, r.start)));
    }
}

/// The position of the sliced layout's position `q` in the layout before slicing: each
/// coordinate, counted from the start, moved on by the first coordinate its range keeps.
pub open spec fn unsliced(dims: Seq<usize>, sliced: Seq<usize>, ranges: Seq<AxisRange>, q: Seq<isize>) -> Seq<isize> {
    Seq::new(q.len(), |i: int| (norm_coord(sliced[i] as int, q[i] as int) + first_kept(dims[i] as int, ranges[i])) as isize)
}

proof fn lemma_slice_offsets(dims: Seq<usize>, strides: Seq<isize>, ranges: Seq<AxisRange>, q: Seq<isize>, k: nat)
    requires
        slice_checks_pass(dims, strides, ranges),
        forall|i: int| 0 <= i < ranges.len() ==> #[trigger] range_fits(ranges[i]),
        dims_fit_isize(dims),
        forall|i: int| 0 <= i < strides.len() ==> 0 <= #[trigger] strides[i],
        position_in_bounds(sliced_dims(dims, ranges), q),
        k <= dims.len(),
    ensures
        suffix_offset(sliced_dims(dims, ranges), q, strides, k) + suffix_offset(dims, slice_origin(dims, ranges), strides, k)
            == suffix_offset(dims, unsliced(dims, sliced_dims(dims, ranges), ranges, q), strides, k),
    decreases k,
{
    if k > 0 {
        lemma_slice_offsets(dims, strides, ranges, q, (k - 1) as nat);
        law_slice_keeps_the_named_coordinates(dims, strides, ranges);
        let i = dims.len() - k;
        let nd = sliced_dims(dims, ranges);
        let d = dims[i] as int;
        let r = ranges[i];
        let u = unsliced(dims, nd, ranges, q);
        let o = slice_origin(dims, ranges);
        assert(coord_in_bounds(nd[i] as int, q[i] as int));
        assert(start_fits(dims, ranges, i));
        assert(coord_in_bounds(d + 1, end_coord(d, r.end)));
        assert(range_fits(r));
        assert(norm_coord(d, o[i] as int) == first_kept(d, r));
        let a = norm_coord(nd[i] as int, q[i] as int);
        let b = first_kept(d, r);
        assert(0 <= a + b < d);
        assert(u[i] as int == a + b);
        let m = strides[i] as int;
        assert(a * m + b * m == (a + b) * m) by (nonlinear_arith);
    }
}

/// When the checks of `try_slice` pass and no stride is negative, the sliced layout, at the
/// offset the slice adds, reaches the same component at each of its positions as the layout
/// before slicing does at that position moved on by the first coordinate each range keeps.
pub proof fn law_slice_keeps_components(dims: Seq<usize>, strides: Seq<isize>, ranges: Seq<AxisRange>, q: Seq<isize>)
    requires
        slice_checks_pass(dims, strides, ranges),
        forall|i: int| 0 <= i < ranges.len() ==> #[trigger] range_fits(ranges[i]),
        dims_fit_isize(dims),
        forall|i: int| 0 <= i < strides.len() ==> 0 <= #[trigger] strides[i],
        position_in_bounds(sliced_dims(dims, ranges), q),
    ensures
        offset_of(sliced_dims(dims, ranges), q, strides) + offset_of(dims, slice_origin(dims, ranges), strides)
            == offset_of(dims, unsliced(dims, sliced_dims(dims, ranges), ranges, q), strides),
{
    lemma_slice_offsets(dims, strides, ranges, q, dims.len());
}

/// Two layouts and positions that agree off axis `i` have offsets, over the last `k` axes,
/// that differ only by the two offsets along axis `i`.
proof fn lemma_offset_off_axis(
    d1: Seq<usize>,
    d2: Seq<usize>,
    p1: Seq<isize>,
    p2: Seq<isize>,
    s: Seq<isize>,
    i: int,
    k: nat,
)
    requires
        d1.len() == d2.len() == p1.len() == p2.len() == s.len(),
        0 <= i < d1.len(),
        k <= d1.len(),
        forall|j: int| 0 <= j < d1.len() && j != i ==> #[trigger] d1[j] == d2[j] && p1[j] == p2[j],
    ensures
        suffix_offset(d1, p1, s, k) - suffix_offset(d2, p2, s, k) == if d1.len() - k <= i {
            axis_offset(d1[i] as int, p1[i] as int, s[i] as int) - axis_offset(d2[i] as int, p2[i] as int, s[i] as int)
        } else {
            0
        },
    decreases k,
{
    if k > 0 {
        lemma_offset_off_axis(d1, d2, p1, p2, s, i, (k - 1) as nat);
    }
}

/// Slicing axis `i` of extent `d` to `start..stop` keeps the components: the offset of
/// coordinate `c` of the slice, plus the shift, is that of coordinate `c + start` before.
proof fn lemma_slice_axis_offset(d: int, start: int, stop: int, c: int, st: int)
    requires
        0 <= start <= stop,
        st < 0 ==> stop <= d,
        0 <= c < stop - start,
    ensures
        axis_offset(stop - start, c, st) + slice_shift(d, start, stop, st) == axis_offset(d, c + start, st),
{
    let m = abs_int(st);
    if st < 0 {
        assert((stop - start - 1 - c) * m + (d - stop) * m == (d - 1 - (c + start)) * m) by (nonlinear_arith);
    } else {
        assert(c * m + start * m == (c + start) * m) by (nonlinear_arith);
    }
}

impl Layout {
    /// Slices the axis at `index` to a range, adding to `offset` the distance to the first
    /// component kept; the strides stay.
    pub fn slice_dim(&mut self, index: isize, offset: &mut usize, range: AxisRange) -> (r: &mut Self)
        requires
            old(self).ranks_match(),
            coord_in_bounds(old(self).rank_view() as int, index as int),
            ({
                let i = norm_coord(old(self).rank_view() as int, index as int);
                let d = old(self).dims_view()[i] as int;
                let s = old(self).strides_view()[i] as int;
                let start = slice_start(d, range.start);
                let stop = slice_stop(d, range.end);
                &&& end_ok(d, range.start)
                &&& end_ok(d, range.end)
                &&& start <= stop
                &&& s < 0 ==> slice_stop(d, range.end) <= d
                &&& *old(offset) + slice_shift(d, start, slice_stop(d, range.end), s) <= usize::MAX
            }),
        ensures
            ({
                let i = norm_coord(old(self).rank_view() as int, index as int);
                let d = old(self).dims_view()[i] as int;
                let s = old(self).strides_view()[i] as int;
                let start = slice_start(d, range.start);
                let stop = slice_stop(d, range.end);
                &&& r.dims_view() == old(self).dims_view().update(i, (stop - start) as usize)
                &&& r.strides_view() == old(self).strides_view()
                &&& *final(offset) == *old(offset) + slice_shift(d, start, slice_stop(d, range.end), s)
            }),
            ({
                let i = norm_coord(old(self).rank_view() as int, index as int);
                let start = slice_start(old(self).dims_view()[i] as int, range.start);
                old(self).dims_view()[i] <= isize::MAX ==> forall|q: Seq<isize>| #[trigger] position_in_bounds(r.dims_view(), q) ==> *final(offset) + offset_of(
                    r.dims_view(),
                    q,
                    r.strides_view(),
                ) == *old(offset) + offset_of(
                    old(self).dims_view(),
                    q.update(i, (norm_coord(r.dims_view()[i] as int, q[i] as int) + start) as isize),
                    old(self).strides_view(),
                )
            }),
            final(self).dims_view() == final(r).dims_view(),
            final(self).strides_view() == final(r).strides_view(),
    {
        let i = self.normalize_index(index);
        let ghost old_dims = self.dims@;
        let dim = self.dims[i];
        let stride = self.strides[i];
        let start = match range.start {
            RangeBound::Excluded(p) => position::unsign_range_bound(dim, p).unwrap() + 1,
            RangeBound::Included(p) => position::unsign_range_bound(dim, p).unwrap(),
            RangeBound::Unbounded => 0,
        };
        let stop = match range.end {
            RangeBound::Excluded(p) => position::unsign_range_bound(dim, p).unwrap(),
            RangeBound::Included(p) => position::unsign_range_bound(dim, p).unwrap() + 1,
            RangeBound::Unbounded => dim,
        };
        self.dims.set(i, stop - start);
        let m = position::stride_magnitude(stride);
        let c = if stride < 0 { dim - stop } else { start };
        assert(c * m == slice_shift(dim as int, start as int, stop as int, stride as int));
        *offset = *offset + c * m;
        proof {
            let nd = self.dims@;
            assert forall|q: Seq<isize>| dim <= isize::MAX && #[trigger] position_in_bounds(nd, q) implies offset_of(nd, q, self.strides@)
                + slice_shift(dim as int, start as int, stop as int, stride as int) == offset_of(
                old_dims,
                q.update(i as int, (norm_coord(nd[i as int] as int, q[i as int] as int) + start) as isize),
                self.strides@,
            ) by {
                let nc = norm_coord(nd[i as int] as int, q[i as int] as int);
                assert(coord_in_bounds(nd[i as int] as int, q[i as int] as int));
                assert(nc + start < stop);
                assert(stop <= dim + 1);
                let q2 = q.update(i as int, (nc + start) as isize);
                lemma_offset_off_axis(old_dims, nd, q2, q, self.strides@, i as int, nd.len());
                lemma_slice_axis_offset(dim as int, start as int, stop as int, nc, stride as int);
                assert(norm_coord(dim as int, q2[i as int] as int) == nc + start);
                assert(norm_coord(nd[i as int] as int, q[i as int] as int) == nc);
            }
        }
        self
    }

    /// Slices every axis to a range, adding to `offset` the distance to the first component
    /// kept (at most the buffer length the layout needs); the strides stay. Errors (operation
    /// "slice"), leaving everything as it was, with `SpecificRankMismatch` if the number of
    /// ranges is not the rank, and with `OutOfBounds` if an end coordinate lies outside the dim
    /// plus one or a start coordinate outside the extent up to its end.
    pub fn try_slice(&mut self, offset: &mut usize, ranges: &[AxisRange]) -> (r: Result<&mut Self, Error>)
        requires
            dims_fit_isize(old(self).dims_view()),
            forall|i: int| 0 <= i < ranges@.len() ==> #[trigger] range_fits(ranges@[i]),
            slice_checks_pass(old(self).dims_view(), old(self).strides_view(), ranges@)
                ==> slice_computable(old(self).dims_view(), old(self).strides_view(), ranges@, *old(offset) as int),
            old(self).dims_view().len() == ranges@.len() && old(self).strides_view().len() == ranges@.len()
                && slice_ends_ok(old(self).dims_view(), ranges@) ==>
                forall|i: int| 0 <= i < ranges@.len() ==> #[trigger] old(self).dims_view()[i] + 1 != -end_coord(old(self).dims_view()[i] as int, ranges@[i].end),
        ensures
            r is Ok <==> slice_checks_pass(old(self).dims_view(), old(self).strides_view(), ranges@),
            r matches Ok(t) ==> t.dims_view() == sliced_dims(old(self).dims_view(), ranges@)
                && t.strides_view() == old(self).strides_view()
                && *final(offset) == *old(offset) + slice_offset(old(self).dims_view(), old(self).strides_view(), ranges@),
            r matches Ok(t) ==> final(self).dims_view() == final(t).dims_view() && final(self).strides_view() == final(t).strides_view(),
            r matches Ok(t) ==> forall|i: int| 0 <= i < t.dims_view().len() ==> #[trigger] t.dims_view()[i] == kept_count(
                old(self).dims_view()[i] as int,
                ranges@[i],
            ),
            r matches Ok(t) ==> (forall|i: int| 0 <= i < old(self).strides_view().len() ==> 0 <= #[trigger] old(self).strides_view()[i])
                ==> forall|q: Seq<isize>| #[trigger] position_in_bounds(t.dims_view(), q) ==> *final(offset) + offset_of(
                t.dims_view(),
                q,
                t.strides_view(),
            ) == *old(offset) + offset_of(
                old(self).dims_view(),
                unsliced(old(self).dims_view(), t.dims_view(), ranges@, q),
                old(self).strides_view(),
            ),
            r matches Err(e) ==> e.spec_op() == "slice"@ && final(self).dims_view() == old(self).dims_view()
                && final(self).strides_view() == old(self).strides_view() && *final(offset) == *old(offset),
            (old(self).dims_view().len() != ranges@.len() || old(self).strides_view().len() != ranges@.len())
                ==> (r matches Err(e) && e.spec_kind() == KindView::SpecificRankMismatch(ranges@.len() as usize)),
    {
        let rank = ranges.len();
        if self.dims.len() != rank || self.strides.len() != rank {
            return Err(Error::specific_rank_mismatch(self.clone(), rank, "slice"));
        }
        let mut bounds: Vec<usize> = Vec::new();
        let mut position: Vec<isize> = Vec::new();
        let mut ix: usize = 0;
        while ix < rank
            invariant
                rank == ranges@.len() == self.dims@.len() == self.strides@.len(),
                dims_fit_isize(self.dims@),
                forall|i: int| 0 <= i < ranges@.len() ==> #[trigger] range_fits(ranges@[i]),
                ix <= rank,
                bounds@.len() == ix,
                position@.len() == ix,
                forall|i: int| 0 <= i < ix ==> #[trigger] bounds@[i] == self.dims@[i] + 1,
                forall|i: int| 0 <= i < ix ==> #[trigger] position@[i] == end_coord(self.dims@[i] as int, ranges@[i].end),
            decreases rank - ix,
        {
            let dim = self.dims[ix];
            assert(self.dims@[ix as int] <= isize::MAX);
            assert(range_fits(ranges@[ix as int]));
            let px: isize = match ranges[ix].end {
                RangeBound::Excluded(p) => p,
                RangeBound::Included(p) => if p == -1 { dim as isize } else { p + 1 },
                RangeBound::Unbounded => dim as isize,
            };
            bounds.push(dim + 1);
            position.push(px);
            ix = ix + 1;
        }
        match error::check_bounds(bounds.as_slice(), position.as_slice()) {
            Err(e) => {
                proof {
                    assert(!slice_ends_ok(self.dims@, ranges@)) by {
                        let i = choose|i: int| 0 <= i < bounds@.len() && !coord_in_bounds(bounds@[i] as int, position@[i] as int);
                    }
                }
                return Err(e.with_layout(self.clone()).with_op("slice"));
            },
            Ok(()) => {},
        }
        proof {
            assert forall|i: int| 0 <= i < rank implies #[trigger] coord_in_bounds(self.dims@[i] + 1, end_coord(self.dims@[i] as int, ranges@[i].end)) by {
                assert(coord_in_bounds(bounds@[i] as int, position@[i] as int));
            }
        }
        let mut extents: Vec<usize> = Vec::new();
        let mut origin: Vec<isize> = Vec::new();
        let mut ix: usize = 0;
        while ix < rank
            invariant
                rank == ranges@.len() == self.dims@.len() == self.strides@.len() == position@.len(),
                dims_fit_isize(self.dims@),
                forall|i: int| 0 <= i < ranges@.len() ==> #[trigger] range_fits(ranges@[i]),
                slice_ends_ok(self.dims@, ranges@),
                forall|i: int| 0 <= i < ranges@.len() ==> #[trigger] self.dims@[i] + 1 != -end_coord(self.dims@[i] as int, ranges@[i].end),
                forall|i: int| 0 <= i < rank ==> #[trigger] position@[i] == end_coord(self.dims@[i] as int, ranges@[i].end),
                ix <= rank,
                extents@.len() == ix,
                origin@.len() == ix,
                forall|i: int| 0 <= i < ix ==> #[trigger] extents@[i] == slice_end_extent(self.dims@, ranges@, i),
                forall|i: int| 0 <= i < ix ==> #[trigger] origin@[i] == start_coord(self.dims@[i] as int, ranges@[i].start),
            decreases rank - ix,
        {
            let dim = self.dims[ix];
            assert(self.dims@[ix as int] <= isize::MAX);
            assert(range_fits(ranges@[ix as int]));
            assert(coord_in_bounds(self.dims@[ix as int] + 1, end_coord(self.dims@[ix as int] as int, ranges@[ix as int].end)));
            assert(self.dims@[ix as int] + 1 != -end_coord(self.dims@[ix as int] as int, ranges@[ix as int].end));
            let e = position::unsign_range_bound(dim, position[ix]).unwrap();
            extents.push(e + 1);
            let px: isize = match ranges[ix].start {
                RangeBound::Excluded(p) => if p == -1 { dim as isize } else { p + 1 },
                RangeBound::Included(p) => p,
                RangeBound::Unbounded => 0,
            };
            origin.push(px);
            ix = ix + 1;
        }
        match error::check_bounds(extents.as_slice(), origin.as_slice()) {
            Err(e) => {
                proof {
                    assert(!slice_starts_ok(self.dims@, ranges@)) by {
                        let i = choose|i: int| 0 <= i < extents@.len() && !coord_in_bounds(extents@[i] as int, origin@[i] as int);
                    }
                }
                return Err(e.with_layout(self.clone()).with_op("slice"));
            },
            Ok(()) => {},
        }
        proof {
            assert forall|i: int| 0 <= i < rank implies #[trigger] coord_in_bounds(slice_end_extent(self.dims@, ranges@, i), start_coord(self.dims@[i] as int, ranges@[i].start)) by {
                assert(coord_in_bounds(extents@[i] as int, origin@[i] as int));
            }
            assert(origin@ =~= slice_origin(self.dims@, ranges@));
        }
        let mut ix: usize = 0;
        while ix < rank
            invariant
                rank == ranges@.len() == self.dims@.len() == self.strides@.len() == extents@.len() == origin@.len(),
                forall|i: int| 0 <= i < rank ==> #[trigger] origin@[i] == start_coord(self.dims@[i] as int, ranges@[i].start),
                forall|i: int| 0 <= i < rank ==> #[trigger] extents@[i] == slice_end_extent(self.dims@, ranges@, i),
                ix <= rank,
                forall|i: int| 0 <= i < ix ==> #[trigger] start_fits(self.dims@, ranges@, i),
            decreases rank - ix,
        {
            let fits = match position::unsign_range_bound(self.dims[ix], origin[ix]) {
                None => false,
                Some(s) => s < extents[ix],
            };
            if !fits {
                proof {
                    assert(!start_fits(self.dims@, ranges@, ix as int));
                    assert(!slice_order_ok(self.dims@, ranges@));
                }
                let p = position::Position::try_from_coordinates(origin.as_slice()).unwrap();
                return Err(Error::out_of_bounds(self.clone(), "slice", p));
            }
            ix = ix + 1;
        }
        assert(slice_order_ok(self.dims@, ranges@));
        let mut newdims: Vec<usize> = Vec::new();
        let mut ix: usize = 0;
        while ix < rank
            invariant
                rank == ranges@.len() == self.dims@.len() == self.strides@.len() == extents@.len() == origin@.len(),
                origin@ == slice_origin(self.dims@, ranges@),
                forall|i: int| 0 <= i < rank ==> #[trigger] origin@[i] == start_coord(self.dims@[i] as int, ranges@[i].start),
                position_in_bounds(self.dims@, origin@),
                forall|i: int| 0 <= i < rank ==> #[trigger] extents@[i] == slice_end_extent(self.dims@, ranges@, i),
                slice_order_ok(self.dims@, ranges@),
                ix <= rank,
                newdims@.len() == ix,
                forall|i: int| 0 <= i < ix ==> #[trigger] newdims@[i] == sliced_dims(self.dims@, ranges@)[i],
            decreases rank - ix,
        {
            assert(coord_in_bounds(self.dims@[ix as int] as int, origin@[ix as int] as int));
            assert(start_fits(self.dims@, ranges@, ix as int));
            let s = position::unsign_range_bound(self.dims[ix], origin[ix]).unwrap();
            newdims.push(extents[ix] - (s + 1));
            ix = ix + 1;
        }
        let o = position::compute_offset(self.dims.as_slice(), origin.as_slice(), self.strides.as_slice());
        let len = self.len();
        let add = if o <= len { o } else { len };
        *offset = *offset + add;
        assert(newdims@ =~= sliced_dims(self.dims@, ranges@));
        proof {
            law_slice_keeps_the_named_coordinates(self.dims@, self.strides@, ranges@);
            position::lemma_offset_below_len(self.dims@, origin@, self.strides@);
            if forall|i: int| 0 <= i < self.strides@.len() ==> 0 <= #[trigger] self.strides@[i] {
                assert forall|q: Seq<isize>| #[trigger] position_in_bounds(sliced_dims(self.dims@, ranges@), q) implies offset_of(
                    sliced_dims(self.dims@, ranges@),
                    q,
                    self.strides@,
                ) + offset_of(self.dims@, slice_origin(self.dims@, ranges@), self.strides@) == offset_of(
                    self.dims@,
                    unsliced(self.dims@, sliced_dims(self.dims@, ranges@), ranges@, q),
                    self.strides@,
                ) by {
                    law_slice_keeps_components(self.dims@, self.strides@, ranges@, q);
                }
            }
        }
        self.dims = newdims;
        Ok(self)
    }

    /// Slices every axis to a range; see `try_slice`, whose checks must pass.
    pub fn slice(&mut self, offset: &mut usize, ranges: &[AxisRange]) -> (r: &mut Self)
        requires
            dims_fit_isize(old(self).dims_view()),
            forall|i: int| 0 <= i < ranges@.len() ==> #[trigger] range_fits(ranges@[i]),
            slice_checks_pass(old(self).dims_view(), old(self).strides_view(), ranges@),
            slice_computable(old(self).dims_view(), old(self).strides_view(), ranges@, *old(offset) as int),
        ensures
            r.dims_view() == sliced_dims(old(self).dims_view(), ranges@),
            r.strides_view() == old(self).strides_view(),
            *final(offset) == *old(offset) + slice_offset(old(self).dims_view(), old(self).strides_view(), ranges@),
            final(self).dims_view() == final(r).dims_view(),
            final(self).strides_view() == final(r).strides_view(),
    {
        let _ = self.try_slice(offset, ranges);
        self
    }
}


/// A layout as text, the dims and then the strides: `Layout { inner: ([2, 3], [3, 1]) }`.
pub open spec fn layout_text(l: Layout) -> Seq<char> {
    "Layout { inner: ("@ + list_text(ints_of_usize(l.dims_view())) + ", "@
        + list_text(ints_of_isize(l.strides_view())) + ") }"@
}

impl Layout {
    /// Appends this layout as text (see `layout_text`) to `s`.
    pub(crate) fn push_text_to(&self, s: &mut String)
        ensures
            final(s)@ == old(s)@ + layout_text(*self),
    {
        push_text(s, "Layout { inner: (");
        push_usize_list(s, self.dims.as_slice());
        push_text(s, ", ");
        push_isize_list(s, self.strides.as_slice());
        push_text(s, ") }");
    }

    /// This layout as text: `Layout { inner: ([2, 3], [3, 1]) }`.
    pub fn to_string(&self) -> (r: String)
        ensures
            r@ == layout_text(*self),
    {
        let mut s = String::new();
        self.push_text_to(&mut s);
        s
    }
}

// ---------------------------------------------------------------------------------------------
// Laws
// ---------------------------------------------------------------------------------------------

/// The sum of a sequence of integers.
pub open spec fn sum_of(t: Seq<int>) -> int
    decreases t.len(),
{
    if t.len() == 0 {
        0
    } else {
        t[0] + sum_of(t.drop_first())
    }
}

/// The offset each axis contributes for a position.
pub open spec fn axis_terms(dims: Seq<usize>, pos: Seq<isize>, strides: Seq<isize>) -> Seq<int> {
    Seq::new(dims.len(), |i: int| axis_offset(dims[i] as int, pos[i] as int, strides[i] as int))
}

/// `pos` with its coordinate on axis `i` mirrored: counted from the other end of the axis.
pub open spec fn mirrored_at(dims: Seq<usize>, pos: Seq<isize>, i: int) -> Seq<isize> {
    pos.update(i, (dims[i] - 1 - norm_at(dims, pos, i)) as isize)
}

/// `pos` with every coordinate mirrored.
pub open spec fn mirrored(dims: Seq<usize>, pos: Seq<isize>) -> Seq<isize> {
    Seq::new(pos.len(), |i: int| (dims[i] - 1 - norm_at(dims, pos, i)) as isize)
}

/// Replacing one term of a sum changes the sum by the difference.
proof fn lemma_sum_update(t: Seq<int>, k: int, v: int)
    requires
        0 <= k < t.len(),
    ensures
        sum_of(t.update(k, v)) == sum_of(t) - t[k] + v,
    decreases t.len(),
{
    if k == 0 {
        assert(t.update(k, v).drop_first() =~= t.drop_first());
    } else {
        lemma_sum_update(t.drop_first(), k - 1, v);
        assert(t.update(k, v).drop_first() =~= t.drop_first().update(k - 1, v));
    }
}

/// The offset of the last `k` axes is the sum of their terms.
proof fn lemma_offset_sum(dims: Seq<usize>, pos: Seq<isize>, strides: Seq<isize>, k: nat)
    requires
        k <= dims.len(),
    ensures
        suffix_offset(dims, pos, strides, k) == sum_of(
            axis_terms(dims, pos, strides).subrange(dims.len() - k, dims.len() as int),
        ),
    decreases k,
{
    let t = axis_terms(dims, pos, strides);
    let n = dims.len() as int;
    if k > 0 {
        lemma_offset_sum(dims, pos, strides, (k - 1) as nat);
        assert(t.subrange(n - k, n).drop_first() =~= t.subrange(n - (k - 1), n));
    } else {
        assert(t.subrange(n, n) =~= Seq::<int>::empty());
    }
}

/// The offset of a position is the sum of its axis terms.
proof fn lemma_offset_is_sum(dims: Seq<usize>, pos: Seq<isize>, strides: Seq<isize>)
    ensures
        offset_of(dims, pos, strides) == sum_of(axis_terms(dims, pos, strides)),
{
    lemma_offset_sum(dims, pos, strides, dims.len());
    let t = axis_terms(dims, pos, strides);
    assert(t.subrange(0, dims.len() as int) =~= t);
}

/// Negating the stride of axis `i` mirrors the components along that axis: under the flipped
/// strides a position sits where its mirror image along `i` sits under the unflipped strides.
pub proof fn law_flip_dim_mirrors(dims: Seq<usize>, strides: Seq<isize>, pos: Seq<isize>, i: int)
    requires
        position_in_bounds(dims, pos),
        dims_fit_isize(dims),
        strides.len() == dims.len(),
        0 <= i < dims.len(),
        strides[i] != isize::MIN,
    ensures
        offset_of(dims, pos, flipped_at(strides, i)) == offset_of(dims, mirrored_at(dims, pos, i), strides),
{
    let m = mirrored_at(dims, pos, i);
    let a = axis_terms(dims, pos, flipped_at(strides, i));
    let b = axis_terms(dims, m, strides);
    lemma_offset_is_sum(dims, pos, flipped_at(strides, i));
    lemma_offset_is_sum(dims, m, strides);
    assert forall|k: int| 0 <= k < dims.len() implies #[trigger] a[k] == b[k] by {
        if k == i {
            lemma_mirror_term(dims[i] as int, pos[i] as int, strides[i] as int);
        }
    }
    assert(a =~= b);
}

/// One axis term: under the negated stride a coordinate sits where its mirror image sits under
/// the stride.
proof fn lemma_mirror_term(d: int, p: int, s: int)
    requires
        coord_in_bounds(d, p),
        d <= isize::MAX,
        s != isize::MIN,
        isize::MIN <= s <= isize::MAX,
    ensures
        axis_offset(d, p, -s) == axis_offset(d, (d - 1 - norm_coord(d, p)) as isize as int, s),
{
    let n = norm_coord(d, p);
    let m = d - 1 - n;
    assert(0 <= m < d);
    assert(m as isize as int == m);
    assert(norm_coord(d, m) == m);
    let a = abs_int(s);
    assert(abs_int(-s) == a);
    if s > 0 {
        assert(axis_offset(d, p, -s) == m * a);
        assert(axis_offset(d, m, s) == m * a);
    } else if s < 0 {
        assert(d - 1 - m == n);
        assert(axis_offset(d, p, -s) == n * a);
        assert(axis_offset(d, m, s) == (d - 1 - m) * a);
    } else {
        assert(axis_offset(d, p, -s) == n * 0);
        assert(axis_offset(d, m, s) == m * 0);
    }
}

/// Negating every stride mirrors the components along every axis.
pub proof fn law_flip_mirrors(dims: Seq<usize>, strides: Seq<isize>, pos: Seq<isize>)
    requires
        position_in_bounds(dims, pos),
        dims_fit_isize(dims),
        strides.len() == dims.len(),
        negatable(strides),
    ensures
        offset_of(dims, pos, flipped(strides)) == offset_of(dims, mirrored(dims, pos), strides),
{
    let m = mirrored(dims, pos);
    let a = axis_terms(dims, pos, flipped(strides));
    let b = axis_terms(dims, m, strides);
    lemma_offset_is_sum(dims, pos, flipped(strides));
    lemma_offset_is_sum(dims, m, strides);
    assert forall|k: int| 0 <= k < dims.len() implies #[trigger] a[k] == b[k] by {
        assert(coord_in_bounds(dims[k] as int, pos[k] as int));
        assert(strides[k] != isize::MIN);
        assert(dims[k] <= isize::MAX);
        lemma_mirror_term(dims[k] as int, pos[k] as int, strides[k] as int);
    }
    assert(a =~= b);
}

/// Swapping two axes of a layout swaps the coordinates: under the swapped layout a position
/// sits where the position with those two coordinates exchanged sits under the unswapped layout.
pub proof fn law_swap_dims_moves_axes(dims: Seq<usize>, strides: Seq<isize>, pos: Seq<isize>, i: int, j: int)
    requires
        pos.len() == dims.len(),
        strides.len() == dims.len(),
        0 <= i < dims.len(),
        0 <= j < dims.len(),
    ensures
        offset_of(swap_axes(dims, i, j), pos, swap_axes(strides, i, j)) == offset_of(dims, swap_axes(pos, i, j), strides),
{
    let sd = swap_axes(dims, i, j);
    let ss = swap_axes(strides, i, j);
    let sp = swap_axes(pos, i, j);
    let a = axis_terms(sd, pos, ss);
    let b = axis_terms(dims, sp, strides);
    lemma_offset_is_sum(sd, pos, ss);
    lemma_offset_is_sum(dims, sp, strides);
    if i != j {
        assert(a =~= swap_axes(b, i, j));
        lemma_sum_update(b, i, b[j]);
        lemma_sum_update(b.update(i, b[j]), j, b[i]);
    } else {
        assert(a =~= b);
    }
}

/// Flipping an axis twice gives back the strides.
pub proof fn law_flip_dim_twice(strides: Seq<isize>, i: int)
    requires
        0 <= i < strides.len(),
        strides[i] != isize::MIN,
    ensures
        flipped_at(flipped_at(strides, i), i) == strides,
{
    assert(flipped_at(flipped_at(strides, i), i) =~= strides);
}

/// Swapping two axes twice gives back the sequence.
pub proof fn law_swap_dims_twice<T>(s: Seq<T>, i: int, j: int)
    requires
        0 <= i < s.len(),
        0 <= j < s.len(),
    ensures
        swap_axes(swap_axes(s, i, j), i, j) == s,
{
    assert(swap_axes(swap_axes(s, i, j), i, j) =~= s);
}

/// Squeezing the axis that `unsqueeze_dim` inserted gives back the dims and strides.
pub proof fn law_squeeze_undoes_unsqueeze(dims: Seq<usize>, strides: Seq<isize>, i: int)
    requires
        0 <= i <= dims.len(),
        0 <= i <= strides.len(),
    ensures
        dims.insert(i, 1).remove(i) == dims,
        strides.insert(i, 1).remove(i) == strides,
{
    assert(dims.insert(i, 1).remove(i) =~= dims);
    assert(strides.insert(i, 1).remove(i) =~= strides);
}

} // verus!
