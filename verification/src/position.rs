//! Positions within a tensor and the mixed-radix arithmetic on them.
//!
//! A position holds one signed coordinate per axis. A coordinate `p` along an axis of
//! extent `dim` is in bounds when `-dim <= p < dim`; negative coordinates count from the end,
//! so `p` and `dim + p` name the same component.
use std::cmp::Ordering;
use std::ops::ControlFlow;
use vstd::prelude::*;

verus! {

// ---------------------------------------------------------------------------------------------
// Mathematical model
// ---------------------------------------------------------------------------------------------

/// The non-negative form of a signed coordinate along an axis of extent `dim`.
pub open spec fn norm_coord(dim: int, p: int) -> int {
    if p < 0 { dim + p } else { p }
}

/// A signed coordinate lies within an axis of extent `dim`.
pub open spec fn coord_in_bounds(dim: int, p: int) -> bool {
    -dim <= p < dim
}

/// Every coordinate of `pos` lies within the matching axis of `dims`, and the ranks agree.
pub open spec fn position_in_bounds(dims: Seq<usize>, pos: Seq<isize>) -> bool {
    &&& dims.len() == pos.len()
    &&& forall|i: int| 0 <= i < dims.len() ==> #[trigger] coord_in_bounds(dims[i] as int, pos[i] as int)
}

/// Two positions of equal rank use the same sign on every axis.
pub open spec fn same_signs(a: Seq<isize>, b: Seq<isize>) -> bool {
    &&& a.len() == b.len()
    &&& forall|i: int| 0 <= i < a.len() ==> (#[trigger] a[i] < 0) == (b[i] < 0)
}

/// Product of the last `k` dims.
pub open spec fn suffix_count(dims: Seq<usize>, k: nat) -> int
    decreases k,
{
    if k == 0 || k > dims.len() {
        1
    } else {
        dims[dims.len() - k] * suffix_count(dims, (k - 1) as nat)
    }
}

/// Number of components of a tensor with the given dims.
pub open spec fn count_of(dims: Seq<usize>) -> int {
    suffix_count(dims, dims.len())
}

/// Mixed-radix value of the last `k` coordinates of `pos` in last-axis-fastest order.
pub open spec fn suffix_value(dims: Seq<usize>, pos: Seq<isize>, k: nat) -> int
    decreases k,
{
    if k == 0 || k > dims.len() {
        0
    } else {
        norm_coord(dims[dims.len() - k] as int, pos[dims.len() - k] as int) * suffix_count(
            dims,
            (k - 1) as nat,
        ) + suffix_value(dims, pos, (k - 1) as nat)
    }
}

/// Row-major (last-axis-fastest) index of a position: its place in a full iteration.
pub open spec fn linear_index(dims: Seq<usize>, pos: Seq<isize>) -> int {
    suffix_value(dims, pos, dims.len())
}

/// Every coordinate is counted from the start of its axis: none is negative.
pub open spec fn from_start(p: Seq<isize>) -> bool {
    forall|i: int| 0 <= i < p.len() ==> 0 <= #[trigger] p[i]
}

/// Every coordinate is counted from the end of its axis: all are negative.
pub open spec fn from_end(p: Seq<isize>) -> bool {
    forall|i: int| 0 <= i < p.len() ==> #[trigger] p[i] < 0
}

/// Positions with the same signs count their coordinates from the same ends.
pub proof fn lemma_signs_keep_ends(a: Seq<isize>, b: Seq<isize>)
    requires
        same_signs(a, b),
    ensures
        from_start(a) ==> from_start(b),
        from_end(a) ==> from_end(b),
{
    assert forall|i: int| 0 <= i < b.len() implies (#[trigger] b[i] < 0) == (a[i] < 0) by {
        assert((a[i] < 0) == (b[i] < 0));
    }
}

/// All dims fit in `isize`.
pub open spec fn dims_fit_isize(dims: Seq<usize>) -> bool {
    forall|i: int| 0 <= i < dims.len() ==> #[trigger] dims[i] <= isize::MAX
}


/// Normalized coordinate of `pos` along axis `i`.
pub open spec fn norm_at(dims: Seq<usize>, pos: Seq<isize>, i: int) -> int {
    norm_coord(dims[i] as int, pos[i] as int)
}

/// Distance from the buffer start contributed by one axis: the normalized coordinate, counted
/// from the far end when the stride is negative, times the stride's magnitude.
pub open spec fn axis_offset(dim: int, p: int, stride: int) -> int {
    (if stride < 0 { dim - 1 - norm_coord(dim, p) } else { norm_coord(dim, p) }) * abs_int(stride)
}

pub open spec fn abs_int(x: int) -> int {
    if x < 0 { -x } else { x }
}

/// Sum of the offsets of the last `k` axes.
pub open spec fn suffix_offset(dims: Seq<usize>, pos: Seq<isize>, strides: Seq<isize>, k: nat) -> int
    decreases k,
{
    if k == 0 || k > dims.len() {
        0
    } else {
        let i = dims.len() - k;
        axis_offset(dims[i] as int, pos[i] as int, strides[i] as int) + suffix_offset(
            dims,
            pos,
            strides,
            (k - 1) as nat,
        )
    }
}

/// Buffer offset of the component at `pos` for a layout with the given dims and strides.
pub open spec fn offset_of(dims: Seq<usize>, pos: Seq<isize>, strides: Seq<isize>) -> int {
    suffix_offset(dims, pos, strides, dims.len())
}

/// Sum of `(dim - 1) * |stride|` over the last `k` axes: the greatest offset those axes reach.
pub open spec fn suffix_span(dims: Seq<usize>, strides: Seq<isize>, k: nat) -> int
    decreases k,
{
    if k == 0 || k > dims.len() {
        0
    } else {
        let i = dims.len() - k;
        (dims[i] - 1) * abs_int(strides[i] as int) + suffix_span(dims, strides, (k - 1) as nat)
    }
}

/// Length of the buffer needed to hold a tensor with the given dims and strides: zero for
/// an empty tensor, otherwise one more than the greatest offset.
pub open spec fn buffer_len_of(dims: Seq<usize>, strides: Seq<isize>) -> int {
    if dims.contains(0) {
        0
    } else {
        1 + suffix_span(dims, strides, dims.len())
    }
}


/// Buffer offset of the component at place `k` of a full iteration over `dims`.
pub open spec fn flat_offset(dims: Seq<usize>, strides: Seq<isize>, k: int) -> int {
    offset_of(
        dims,
        choose|p: Seq<isize>| position_in_bounds(dims, p) && linear_index(dims, p) == k,
        strides,
    )
}

/// Distinct places of a full iteration sit at distinct buffer offsets.
pub open spec fn offsets_injective(dims: Seq<usize>, strides: Seq<isize>) -> bool {
    forall|j: int, k: int|
        0 <= j < count_of(dims) && 0 <= k < count_of(dims) && j != k ==> #[trigger] flat_offset(
            dims,
            strides,
            j,
        ) != #[trigger] flat_offset(dims, strides, k)
}

// ---------------------------------------------------------------------------------------------
// Lemmas
// ---------------------------------------------------------------------------------------------

pub proof fn lemma_suffix_count_pos(dims: Seq<usize>, k: nat)
    requires
        forall|i: int| 0 <= i < dims.len() ==> #[trigger] dims[i] >= 1,
    ensures
        suffix_count(dims, k) >= 1,
    decreases k,
{
    if k == 0 || k > dims.len() {
    } else {
        lemma_suffix_count_pos(dims, (k - 1) as nat);
        let a = dims[dims.len() - k] as int;
        let b = suffix_count(dims, (k - 1) as nat);
        assert(a * b >= 1) by (nonlinear_arith)
            requires
                a >= 1,
                b >= 1,
        ;
    }
}

pub proof fn lemma_suffix_value_bounds(dims: Seq<usize>, pos: Seq<isize>, k: nat)
    requires
        position_in_bounds(dims, pos),
        k <= dims.len(),
    ensures
        0 <= suffix_value(dims, pos, k) < suffix_count(dims, k),
    decreases k,
{
    if k == 0 {
    } else {
        lemma_suffix_value_bounds(dims, pos, (k - 1) as nat);
        let i = dims.len() - k;
        assert(coord_in_bounds(dims[i] as int, pos[i] as int));
        let n = norm_coord(dims[i] as int, pos[i] as int);
        let d = dims[i] as int;
        let p = suffix_count(dims, (k - 1) as nat);
        let s = suffix_value(dims, pos, (k - 1) as nat);
        assert(0 <= n * p + s < d * p) by (nonlinear_arith)
            requires
                0 <= n < d,
                0 <= s < p,
        ;
    }
}

pub proof fn lemma_suffix_count_zero(dims: Seq<usize>, i: int, k: nat)
    requires
        0 <= i < dims.len(),
        dims[i] == 0,
        dims.len() - i <= k <= dims.len(),
    ensures
        suffix_count(dims, k) == 0,
    decreases k,
{
    if k > dims.len() - i {
        lemma_suffix_count_zero(dims, i, (k - 1) as nat);
        let a = dims[dims.len() - k] as int;
        assert(a * 0 == 0) by (nonlinear_arith);
    }
}

pub proof fn lemma_suffix_count_mono(dims: Seq<usize>, k: nat, j: nat)
    requires
        forall|i: int| 0 <= i < dims.len() ==> #[trigger] dims[i] >= 1,
        k <= j <= dims.len(),
    ensures
        1 <= suffix_count(dims, k) <= suffix_count(dims, j),
    decreases j,
{
    lemma_suffix_count_pos(dims, k);
    if j > k {
        lemma_suffix_count_mono(dims, k, (j - 1) as nat);
        let a = dims[dims.len() - j] as int;
        let b = suffix_count(dims, (j - 1) as nat);
        assert(b <= a * b) by (nonlinear_arith)
            requires
                a >= 1,
                b >= 1,
        ;
    }
}

pub proof fn lemma_suffix_offset_mono(dims: Seq<usize>, pos: Seq<isize>, strides: Seq<isize>, k: nat, j: nat)
    requires
        position_in_bounds(dims, pos),
        k <= j <= dims.len(),
    ensures
        0 <= suffix_offset(dims, pos, strides, k) <= suffix_offset(dims, pos, strides, j),
    decreases j, k,
{
    if j > k {
        lemma_suffix_offset_mono(dims, pos, strides, k, (j - 1) as nat);
        let i = dims.len() - j;
        assert(coord_in_bounds(dims[i] as int, pos[i] as int));
        let n = norm_coord(dims[i] as int, pos[i] as int);
        let m = if (strides[i] as int) < 0 { dims[i] - 1 - n } else { n };
        let a = abs_int(strides[i] as int);
        assert(m * a >= 0) by (nonlinear_arith)
            requires
                m >= 0,
                a >= 0,
        ;
    } else if k > 0 {
        lemma_suffix_offset_mono(dims, pos, strides, 0, k);
    }
}

pub proof fn lemma_suffix_span_mono(dims: Seq<usize>, strides: Seq<isize>, k: nat, j: nat)
    requires
        forall|i: int| 0 <= i < dims.len() ==> #[trigger] dims[i] >= 1,
        k <= j <= dims.len(),
    ensures
        0 <= suffix_span(dims, strides, k) <= suffix_span(dims, strides, j),
    decreases j, k,
{
    if j > k {
        lemma_suffix_span_mono(dims, strides, k, (j - 1) as nat);
        let i = dims.len() - j;
        assert(dims[i] >= 1);
        let m = dims[i] - 1;
        let a = abs_int(strides[i] as int);
        assert(m * a >= 0) by (nonlinear_arith)
            requires
                m >= 0,
                a >= 0,
        ;
    } else if k > 0 {
        lemma_suffix_span_mono(dims, strides, 0, k);
    }
}

/// Changing coordinates outside the last `k` axes leaves the value of those axes unchanged.
pub proof fn lemma_suffix_value_same(dims: Seq<usize>, a: Seq<isize>, b: Seq<isize>, k: nat)
    requires
        k <= dims.len(),
        a.len() == dims.len(),
        b.len() == dims.len(),
        forall|i: int| dims.len() - k <= i < dims.len() ==> a[i] == b[i],
    ensures
        suffix_value(dims, a, k) == suffix_value(dims, b, k),
    decreases k,
{
    if k > 0 {
        lemma_suffix_value_same(dims, a, b, (k - 1) as nat);
    }
}

/// When two positions agree on all but the last `k` axes, the difference of their full values
/// is the difference of the values of those axes.
pub proof fn lemma_suffix_value_diff(
    dims: Seq<usize>,
    a: Seq<isize>,
    b: Seq<isize>,
    k: nat,
    j: nat,
)
    requires
        k <= j <= dims.len(),
        a.len() == dims.len(),
        b.len() == dims.len(),
        forall|i: int| 0 <= i < dims.len() - k ==> a[i] == b[i],
    ensures
        suffix_value(dims, a, j) - suffix_value(dims, b, j) == suffix_value(dims, a, k)
            - suffix_value(dims, b, k),
    decreases j,
{
    if j > k {
        lemma_suffix_value_diff(dims, a, b, k, (j - 1) as nat);
        let i = dims.len() - j;
        assert(a[i] == b[i]);
    }
}

/// Like `lemma_suffix_value_diff`, assuming only that the normalized coordinates agree.
pub proof fn lemma_suffix_value_diff_norm(
    dims: Seq<usize>,
    a: Seq<isize>,
    b: Seq<isize>,
    k: nat,
    j: nat,
)
    requires
        k <= j <= dims.len(),
        a.len() == dims.len(),
        b.len() == dims.len(),
        forall|i: int| 0 <= i < dims.len() - k ==> #[trigger] norm_at(dims, a, i) == norm_at(dims, b, i),
    ensures
        suffix_value(dims, a, j) - suffix_value(dims, b, j) == suffix_value(dims, a, k)
            - suffix_value(dims, b, k),
    decreases j,
{
    if j > k {
        lemma_suffix_value_diff_norm(dims, a, b, k, (j - 1) as nat);
        let i = dims.len() - j;
        assert(norm_at(dims, a, i) == norm_at(dims, b, i));
    }
}

/// Lexicographic order of normalized coordinates is the order of linear indices.
pub proof fn lemma_lex_less(dims: Seq<usize>, p: Seq<isize>, q: Seq<isize>, i: int)
    requires
        position_in_bounds(dims, p),
        position_in_bounds(dims, q),
        0 <= i < dims.len(),
        forall|j: int| 0 <= j < i ==> #[trigger] norm_at(dims, p, j) == norm_at(dims, q, j),
        norm_at(dims, p, i) < norm_at(dims, q, i),
    ensures
        linear_index(dims, p) < linear_index(dims, q),
{
    let k = (dims.len() - i) as nat;
    lemma_suffix_value_diff_norm(dims, p, q, k, dims.len());
    lemma_suffix_value_bounds(dims, p, (k - 1) as nat);
    lemma_suffix_value_bounds(dims, q, (k - 1) as nat);
    let np = norm_at(dims, p, i);
    let nq = norm_at(dims, q, i);
    let pc = suffix_count(dims, (k - 1) as nat);
    let sp = suffix_value(dims, p, (k - 1) as nat);
    let sq = suffix_value(dims, q, (k - 1) as nat);
    assert(np * pc + sp < nq * pc + sq) by (nonlinear_arith)
        requires
            np < nq,
            0 <= sp < pc,
            0 <= sq < pc,
    ;
}

/// Positions whose normalized coordinates all agree have the same linear index.
pub proof fn lemma_lex_equal(dims: Seq<usize>, p: Seq<isize>, q: Seq<isize>)
    requires
        p.len() == dims.len(),
        q.len() == dims.len(),
        forall|j: int| 0 <= j < dims.len() ==> #[trigger] norm_at(dims, p, j) == norm_at(dims, q, j),
    ensures
        linear_index(dims, p) == linear_index(dims, q),
{
    lemma_suffix_value_diff_norm(dims, p, q, 0, dims.len());
}

pub proof fn lemma_zero_position(dims: Seq<usize>, pos: Seq<isize>, k: nat)
    requires
        pos.len() == dims.len(),
        k <= dims.len(),
        forall|i: int| 0 <= i < pos.len() ==> #[trigger] pos[i] == 0,
    ensures
        suffix_value(dims, pos, k) == 0,
    decreases k,
{
    if k > 0 {
        lemma_zero_position(dims, pos, (k - 1) as nat);
        assert(pos[dims.len() - k] == 0);
        let c = suffix_count(dims, (k - 1) as nat);
        assert(0 * c == 0) by (nonlinear_arith);
    }
}

pub proof fn lemma_end_position(dims: Seq<usize>, pos: Seq<isize>, k: nat)
    requires
        pos.len() == dims.len(),
        k <= dims.len(),
        forall|i: int| 0 <= i < pos.len() ==> #[trigger] pos[i] == -1,
    ensures
        suffix_value(dims, pos, k) == suffix_count(dims, k) - 1,
    decreases k,
{
    if k > 0 {
        lemma_end_position(dims, pos, (k - 1) as nat);
        let i = dims.len() - k;
        assert(pos[i] == -1);
        let c = suffix_count(dims, (k - 1) as nat);
        let d = dims[i] as int;
        assert((d - 1) * c + (c - 1) == d * c - 1) by (nonlinear_arith);
    }
}

/// In-bounds positions with the same place in a full iteration have the same normalized
/// coordinates.
pub proof fn lemma_linear_index_unique(dims: Seq<usize>, p: Seq<isize>, q: Seq<isize>)
    requires
        position_in_bounds(dims, p),
        position_in_bounds(dims, q),
        linear_index(dims, p) == linear_index(dims, q),
    ensures
        forall|i: int| 0 <= i < dims.len() ==> #[trigger] norm_at(dims, p, i) == norm_at(dims, q, i),
{
    lemma_linear_index_unique_from(dims, p, q, 0);
}

proof fn lemma_linear_index_unique_from(dims: Seq<usize>, p: Seq<isize>, q: Seq<isize>, i: int)
    requires
        position_in_bounds(dims, p),
        position_in_bounds(dims, q),
        linear_index(dims, p) == linear_index(dims, q),
        0 <= i <= dims.len(),
        forall|j: int| 0 <= j < i ==> #[trigger] norm_at(dims, p, j) == norm_at(dims, q, j),
    ensures
        forall|j: int| 0 <= j < dims.len() ==> #[trigger] norm_at(dims, p, j) == norm_at(dims, q, j),
    decreases dims.len() - i,
{
    if i < dims.len() {
        if norm_at(dims, p, i) < norm_at(dims, q, i) {
            lemma_lex_less(dims, p, q, i);
        } else if norm_at(dims, p, i) > norm_at(dims, q, i) {
            lemma_lex_less(dims, q, p, i);
        } else {
            lemma_linear_index_unique_from(dims, p, q, i + 1);
        }
    }
}

/// The offset of a position depends only on its normalized coordinates.
pub proof fn lemma_offset_norm(dims: Seq<usize>, p: Seq<isize>, q: Seq<isize>, strides: Seq<isize>, k: nat)
    requires
        p.len() == dims.len(),
        q.len() == dims.len(),
        k <= dims.len(),
        forall|i: int| 0 <= i < dims.len() ==> #[trigger] norm_at(dims, p, i) == norm_at(dims, q, i),
    ensures
        suffix_offset(dims, p, strides, k) == suffix_offset(dims, q, strides, k),
    decreases k,
{
    if k > 0 {
        lemma_offset_norm(dims, p, q, strides, (k - 1) as nat);
        let i = dims.len() - k;
        assert(norm_at(dims, p, i) == norm_at(dims, q, i));
    }
}

/// The offset of any in-bounds position is the flat offset of its place.
pub proof fn lemma_flat_offset(dims: Seq<usize>, strides: Seq<isize>, p: Seq<isize>)
    requires
        position_in_bounds(dims, p),
    ensures
        flat_offset(dims, strides, linear_index(dims, p)) == offset_of(dims, p, strides),
{
    let k = linear_index(dims, p);
    let q = choose|q: Seq<isize>| position_in_bounds(dims, q) && linear_index(dims, q) == k;
    assert(position_in_bounds(dims, p) && linear_index(dims, p) == k);
    lemma_linear_index_unique(dims, p, q);
    lemma_offset_norm(dims, p, q, strides, dims.len());
}

/// Under normalized strides the offset of a position is its place in a full iteration.
pub proof fn lemma_normalized_offset(dims: Seq<usize>, p: Seq<isize>, strides: Seq<isize>, k: nat)
    requires
        position_in_bounds(dims, p),
        strides.len() == dims.len(),
        k <= dims.len(),
        forall|j: int| 0 <= j < dims.len() ==> #[trigger] strides[dims.len() - 1 - j] == suffix_count(dims, j as nat),
    ensures
        suffix_offset(dims, p, strides, k) == suffix_value(dims, p, k),
    decreases k,
{
    if k > 0 {
        lemma_normalized_offset(dims, p, strides, (k - 1) as nat);
        let i = dims.len() - k;
        let j = k - 1;
        assert(strides[dims.len() - 1 - j] == suffix_count(dims, j as nat));
        assert(coord_in_bounds(dims[i] as int, p[i] as int));
        lemma_suffix_count_pos_any(dims, j as nat);
    }
}

pub proof fn lemma_suffix_count_pos_any(dims: Seq<usize>, k: nat)
    ensures
        suffix_count(dims, k) >= 0,
    decreases k,
{
    if k > 0 && k <= dims.len() {
        lemma_suffix_count_pos_any(dims, (k - 1) as nat);
        let a = dims[dims.len() - k] as int;
        let b = suffix_count(dims, (k - 1) as nat);
        assert(a * b >= 0) by (nonlinear_arith)
            requires
                a >= 0,
                b >= 0,
        ;
    }
}

/// The offset of an in-bounds position is less than the buffer length of the layout.
pub proof fn lemma_offset_below_len(dims: Seq<usize>, p: Seq<isize>, strides: Seq<isize>)
    requires
        position_in_bounds(dims, p),
        strides.len() == dims.len(),
    ensures
        0 <= offset_of(dims, p, strides) < buffer_len_of(dims, strides),
{
    lemma_offset_below_span(dims, p, strides, dims.len());
    if dims.contains(0) {
        let z = choose|z: int| 0 <= z < dims.len() && dims[z] == 0;
        assert(coord_in_bounds(dims[z] as int, p[z] as int));
    }
}

proof fn lemma_offset_below_span(dims: Seq<usize>, p: Seq<isize>, strides: Seq<isize>, k: nat)
    requires
        position_in_bounds(dims, p),
        strides.len() == dims.len(),
        k <= dims.len(),
    ensures
        0 <= suffix_offset(dims, p, strides, k) <= suffix_span(dims, strides, k),
    decreases k,
{
    if k > 0 {
        lemma_offset_below_span(dims, p, strides, (k - 1) as nat);
        let i = dims.len() - k;
        assert(coord_in_bounds(dims[i] as int, p[i] as int));
        let n = norm_coord(dims[i] as int, p[i] as int);
        let m = if (strides[i] as int) < 0 { dims[i] - 1 - n } else { n };
        let a = abs_int(strides[i] as int);
        let d = dims[i] as int;
        assert(0 <= m * a <= (d - 1) * a) by (nonlinear_arith)
            requires
                0 <= m <= d - 1,
                a >= 0,
        ;
    }
}

/// Every value below the count of the last `k` axes is the mixed-radix value of a position
/// whose coordinates on those axes lie in `[0, dim)` and are 0 elsewhere.
pub proof fn lemma_unrank(dims: Seq<usize>, k: nat, v: int) -> (pos: Seq<isize>)
    requires
        k <= dims.len(),
        0 <= v < suffix_count(dims, k),
        dims_fit_isize(dims),
    ensures
        pos.len() == dims.len(),
        forall|i: int| dims.len() - k <= i < dims.len() ==> 0 <= #[trigger] pos[i] < dims[i],
        forall|i: int| 0 <= i < dims.len() - k ==> #[trigger] pos[i] == 0,
        suffix_value(dims, pos, k) == v,
    decreases k,
{
    if k == 0 {
        Seq::new(dims.len(), |i: int| 0isize)
    } else {
        let i = dims.len() - k;
        let d = dims[i] as int;
        let c = suffix_count(dims, (k - 1) as nat);
        lemma_suffix_count_pos_any(dims, (k - 1) as nat);
        assert(c > 0 && d > 0) by (nonlinear_arith)
            requires
                0 <= v < d * c,
                d >= 0,
                c >= 0,
        ;
        let q = v / c;
        let r = v % c;
        assert(0 <= q < d && 0 <= r < c && q * c + r == v) by (nonlinear_arith)
            requires
                0 <= v < d * c,
                c > 0,
                q == v / c,
                r == v % c,
        ;
        assert(d <= isize::MAX);
        let p0 = lemma_unrank(dims, (k - 1) as nat, r);
        let pos = p0.update(i, q as isize);
        lemma_suffix_value_same(dims, pos, p0, (k - 1) as nat);
        pos
    }
}

/// Every place of a full iteration belongs to some in-bounds position.
pub proof fn lemma_place_exists(dims: Seq<usize>, v: int)
    requires
        0 <= v < count_of(dims),
        dims_fit_isize(dims),
    ensures
        exists|p: Seq<isize>| position_in_bounds(dims, p) && linear_index(dims, p) == v,
{
    let p = lemma_unrank(dims, dims.len(), v);
    assert forall|i: int| 0 <= i < dims.len() implies #[trigger] coord_in_bounds(dims[i] as int, p[i] as int) by {
        assert(0 <= p[i] < dims[i]);
    }
    assert(position_in_bounds(dims, p) && linear_index(dims, p) == v);
}

/// Place `k` of a full iteration sits at an offset within the layout's buffer length.
pub proof fn lemma_flat_offset_below_len(dims: Seq<usize>, strides: Seq<isize>, k: int)
    requires
        0 <= k < count_of(dims),
        dims_fit_isize(dims),
        strides.len() == dims.len(),
    ensures
        0 <= flat_offset(dims, strides, k) < buffer_len_of(dims, strides),
{
    lemma_place_exists(dims, k);
    let q = choose|p: Seq<isize>| position_in_bounds(dims, p) && linear_index(dims, p) == k;
    lemma_offset_below_len(dims, q, strides);
}

/// Under row-major strides, place `k` of a full iteration sits at offset `k`.
pub proof fn lemma_flat_offset_row_major(dims: Seq<usize>, strides: Seq<isize>, k: int)
    requires
        0 <= k < count_of(dims),
        dims_fit_isize(dims),
        strides.len() == dims.len(),
        forall|j: int| 0 <= j < dims.len() ==> #[trigger] strides[dims.len() - 1 - j] == suffix_count(dims, j as nat),
    ensures
        flat_offset(dims, strides, k) == k,
{
    lemma_place_exists(dims, k);
    let q = choose|p: Seq<isize>| position_in_bounds(dims, p) && linear_index(dims, p) == k;
    lemma_normalized_offset(dims, q, strides, dims.len());
}

/// A layout whose places sit at distinct offsets needs a buffer at least as long as its
/// count.
pub proof fn lemma_injective_count(dims: Seq<usize>, strides: Seq<isize>)
    requires
        offsets_injective(dims, strides),
        dims_fit_isize(dims),
        strides.len() == dims.len(),
    ensures
        count_of(dims) <= buffer_len_of(dims, strides),
{
    let n = count_of(dims);
    let m = buffer_len_of(dims, strides);
    lemma_suffix_count_pos_any(dims, dims.len());
    if n == 0 {
        if !dims.contains(0) {
            assert forall|i: int| 0 <= i < dims.len() implies #[trigger] dims[i] >= 1 by {
                if dims[i] == 0 {
                    assert(dims.contains(0));
                }
            }
            lemma_suffix_count_pos(dims, dims.len());
        }
    } else {
        lemma_flat_offset_below_len(dims, strides, 0);
        let f = |k: int| flat_offset(dims, strides, k);
        let x = vstd::set_lib::set_int_range(0, n);
        vstd::set_lib::lemma_int_range(0, n);
        let y = x.map(f);
        assert(vstd::relations::injective_on(f, x));
        vstd::set_lib::lemma_map_size(x, y, f);
        let z = vstd::set_lib::set_int_range(0, m);
        vstd::set_lib::lemma_int_range(0, m);
        assert forall|o: int| y.contains(o) implies z.contains(o) by {
            let k = choose|k: int| x.contains(k) && o == f(k);
            lemma_flat_offset_below_len(dims, strides, k);
        }
        vstd::set_lib::lemma_len_subset(y, z);
    }
}

/// A tensor with components has no zero dim.
pub proof fn lemma_count_pos_no_zero(dims: Seq<usize>)
    requires
        count_of(dims) > 0,
    ensures
        forall|i: int| 0 <= i < dims.len() ==> #[trigger] dims[i] >= 1,
{
    assert forall|i: int| 0 <= i < dims.len() implies #[trigger] dims[i] >= 1 by {
        if dims[i] == 0 {
            lemma_suffix_count_zero(dims, i, dims.len());
        }
    }
}

/// The first position of a tensor with components is in bounds and at place 0.
pub proof fn lemma_zeros_in_bounds(dims: Seq<usize>, p: Seq<isize>)
    requires
        count_of(dims) > 0,
        p == Seq::new(dims.len(), |i: int| 0isize),
    ensures
        position_in_bounds(dims, p),
        linear_index(dims, p) == 0,
{
    lemma_count_pos_no_zero(dims);
    assert forall|i: int| 0 <= i < dims.len() implies #[trigger] coord_in_bounds(dims[i] as int, p[i] as int) by {
        assert(dims[i] >= 1);
    }
    lemma_zero_position(dims, p, dims.len());
}

/// Carry of a single step forward between two in-range places.
pub proof fn lemma_step_up(a: int, b: int, cnt: int, c: int)
    requires
        0 <= a < cnt,
        0 <= b < cnt,
        c >= 0,
        a + cnt * c == b + 1,
    ensures
        (c == 0 && a == b + 1) || (c == 1 && b == cnt - 1 && a == 0),
{
    if c >= 2 {
        assert(cnt * c >= 2 * cnt) by (nonlinear_arith)
            requires
                c >= 2,
                cnt >= 0,
        ;
    }
    if c == 1 {
        assert(cnt * c == cnt);
    }
    if c == 0 {
        assert(cnt * c == 0);
    }
}

/// Borrow of a single step backward between two in-range places.
pub proof fn lemma_step_down(a: int, b: int, cnt: int, c: int)
    requires
        0 <= a < cnt,
        0 <= b < cnt,
        c >= 0,
        a - cnt * c == b - 1,
    ensures
        (c == 0 && a == b - 1) || (c == 1 && b == 0 && a == cnt - 1),
{
    if c >= 2 {
        assert(cnt * c >= 2 * cnt) by (nonlinear_arith)
            requires
                c >= 2,
                cnt >= 0,
        ;
    }
    if c == 1 {
        assert(cnt * c == cnt);
    }
    if c == 0 {
        assert(cnt * c == 0);
    }
}

/// Advancing by less than the distance to the end does not wrap.
pub proof fn lemma_no_wrap_up(a: int, b: int, cnt: int, c: int, d: int)
    requires
        0 <= a < cnt,
        0 <= b,
        c >= 0,
        d >= 0,
        b + d < cnt,
        a + cnt * c == b + d,
    ensures
        c == 0 && a == b + d,
{
    if c >= 1 {
        assert(cnt * c >= cnt) by (nonlinear_arith)
            requires
                c >= 1,
                cnt >= 0,
        ;
    }
    if c == 0 {
        assert(cnt * c == 0);
    }
}

/// Rewinding by no more than the distance from the start does not wrap.
pub proof fn lemma_no_wrap_down(a: int, b: int, cnt: int, c: int, d: int)
    requires
        0 <= a < cnt,
        b < cnt,
        c >= 0,
        d >= 0,
        b - d >= 0,
        a - cnt * c == b - d,
    ensures
        c == 0 && a == b - d,
{
    if c >= 1 {
        assert(cnt * c >= cnt) by (nonlinear_arith)
            requires
                c >= 1,
                cnt >= 0,
        ;
    }
    if c == 0 {
        assert(cnt * c == 0);
    }
}

/// One step of mixed-radix addition on a single axis.
proof fn lemma_add_step(n: int, dx: int, q: int, d: int, np: int, c: int, pk: int, nk: int, dk: int, sk: int, d0: int)
    requires
        d >= 1,
        dk == q * d + dx,
        np + c * d == n + dx,
        nk + pk * dk == sk + d0,
    ensures
        np * pk + nk + (d * pk) * (c + q) == n * pk + sk + d0,
{
    assert(np * pk + nk + (d * pk) * (c + q) == n * pk + sk + d0) by (nonlinear_arith)
        requires
            dk == q * d + dx,
            np + c * d == n + dx,
            nk + pk * dk == sk + d0,
    ;
}

/// One step of mixed-radix subtraction on a single axis.
proof fn lemma_sub_step(n: int, dx: int, q: int, d: int, np: int, c: int, pk: int, nk: int, dk: int, sk: int, d0: int)
    requires
        d >= 1,
        dk == q * d + dx,
        np - c * d == n - dx,
        nk - pk * dk == sk - d0,
    ensures
        np * pk + nk - (d * pk) * (c + q) == n * pk + sk - d0,
{
    assert(np * pk + nk - (d * pk) * (c + q) == n * pk + sk - d0) by (nonlinear_arith)
        requires
            dk == q * d + dx,
            np - c * d == n - dx,
            nk - pk * dk == sk - d0,
    ;
}

// ---------------------------------------------------------------------------------------------
// Coordinate normalization
// ---------------------------------------------------------------------------------------------

/// Computes the unsigned form of a signed coordinate: `None` when the coordinate lies outside
/// `[-dim, dim)`, `dim + position` for negative coordinates, and `position` otherwise.
pub fn unsign_position(dim: usize, position: isize) -> (r: Option<usize>)
    ensures
        r is Some <==> coord_in_bounds(dim as int, position as int),
        r matches Some(u) ==> u == norm_coord(dim as int, position as int),
{
    if position < 0 {
        // -position fits in usize even for isize::MIN
        let m: usize = if position == isize::MIN {
            (isize::MAX as usize) + 1
        } else {
            (-position) as usize
        };
        if m > dim {
            None
        } else {
            Some(dim - m)
        }
    } else {
        let p: usize = position as usize;
        if p >= dim {
            None
        } else {
            Some(p)
        }
    }
}

/// The first `k` coordinates of `to` are those of `from` in unsigned form; the rest are those
/// of `from`.
pub open spec fn unsigned_upto(dims: Seq<usize>, from: Seq<isize>, to: Seq<isize>, k: int) -> bool {
    &&& to.len() == from.len()
    &&& forall|i: int| 0 <= i < k ==> #[trigger] to[i] == norm_coord(dims[i] as int, from[i] as int)
    &&& forall|i: int| k <= i < from.len() ==> #[trigger] to[i] == from[i]
}

/// Puts the coordinates of `positions` in unsigned form, axis by axis (as far as both
/// sequences reach). Returns whether all of them were in bounds; at the first that is not, it
/// stops, leaving the coordinates before it converted and the rest as they were.
pub fn unsign_position_slice(dims: &[usize], positions: &mut [isize]) -> (r: bool)
    requires
        dims_fit_isize(dims@),
    ensures
        ({
            let n = if dims@.len() < old(positions)@.len() { dims@.len() as int } else { old(positions)@.len() as int };
            &&& r <==> forall|i: int| 0 <= i < n ==> #[trigger] coord_in_bounds(dims@[i] as int, old(positions)@[i] as int)
            &&& r ==> unsigned_upto(dims@, old(positions)@, final(positions)@, n)
            &&& !r ==> exists|k: int| {
                &&& 0 <= k < n
                &&& !coord_in_bounds(dims@[k] as int, old(positions)@[k] as int)
                &&& forall|i: int| 0 <= i < k ==> #[trigger] coord_in_bounds(dims@[i] as int, old(positions)@[i] as int)
                &&& #[trigger] unsigned_upto(dims@, old(positions)@, final(positions)@, k)
            }
        }),
{
    let ghost orig = positions@;
    let n = if dims.len() < positions.len() { dims.len() } else { positions.len() };
    let mut i: usize = 0;
    while i < n
        invariant
            n as int == (if dims@.len() < orig.len() { dims@.len() as int } else { orig.len() as int }),
            orig == old(positions)@,
            i <= n,
            dims_fit_isize(dims@),
            forall|j: int| 0 <= j < i ==> #[trigger] coord_in_bounds(dims@[j] as int, orig[j] as int),
            unsigned_upto(dims@, orig, positions@, i as int),
        decreases n - i,
    {
        match unsign_position(dims[i], positions[i]) {
            None => {
                assert(positions@[i as int] == orig[i as int]);
                assert(!coord_in_bounds(dims@[i as int] as int, old(positions)@[i as int] as int));
                assert(unsigned_upto(dims@, orig, positions@, i as int));
                return false;
            },
            Some(u) => {
                assert(dims@[i as int] <= isize::MAX);
                positions[i] = u as isize;
            },
        }
        i = i + 1;
    }
    true
}

/// Computes the unsigned form of a signed axis index for a tensor of the given rank.
pub fn unsign_index(index: isize, rank: usize) -> (r: Option<usize>)
    ensures
        r is Some <==> coord_in_bounds(rank as int, index as int),
        r matches Some(u) ==> u == norm_coord(rank as int, index as int),
{
    unsign_position(rank, index)
}

/// Computes the unsigned start or end of a range along an axis. Unlike `unsign_position`,
/// a bound equal to `dim` is accepted and gives `dim`.
pub fn unsign_range_bound(dim: usize, rb: isize) -> (r: Option<usize>)
    ensures
        r is Some <==> (rb as int == dim as int || coord_in_bounds(dim as int, rb as int)),
        r matches Some(u) ==> u == if rb as int == dim as int {
            dim as int
        } else {
            norm_coord(dim as int, rb as int)
        },
{
    if rb >= 0 && rb as usize == dim {
        return Some(dim);
    }
    unsign_position(dim, rb)
}

// ---------------------------------------------------------------------------------------------
// Stepping positions
// ---------------------------------------------------------------------------------------------

/// What advancing `from` by `distance` steps leaves: `to` is in bounds, keeps the signs of
/// `from`, and lies `distance` places after it once `carry` wraps around the tensor are counted.
pub open spec fn advanced(dims: Seq<usize>, from: Seq<isize>, distance: int, to: Seq<isize>, carry: int) -> bool {
    &&& position_in_bounds(dims, to)
    &&& same_signs(from, to)
    &&& linear_index(dims, to) + count_of(dims) * carry == linear_index(dims, from) + distance
}

/// What rewinding `from` by `distance` steps leaves: `to` is in bounds, keeps the signs of
/// `from`, and lies `distance` places before it once `carry` wraps around the tensor are
/// counted.
pub open spec fn rewound(dims: Seq<usize>, from: Seq<isize>, distance: int, to: Seq<isize>, carry: int) -> bool {
    &&& position_in_bounds(dims, to)
    &&& same_signs(from, to)
    &&& linear_index(dims, to) - count_of(dims) * carry == linear_index(dims, from) - distance
}

/// Advances `position` by `distance` steps in last-axis-fastest order, wrapping around the
/// tensor as often as needed. Returns the number of wraps (the carry of the mixed-radix
/// addition). Each coordinate keeps its sign.
pub fn advance_position(dims: &[usize], distance: usize, position: &mut Vec<isize>) -> (carry: usize)
    requires
        position_in_bounds(dims@, old(position)@),
        dims_fit_isize(dims@),
    ensures
        advanced(dims@, old(position)@, distance as int, final(position)@, carry as int),
{
    let rank = dims.len();
    let ghost d0 = distance as int;
    let ghost orig = position@;
    let mut distance = distance;
    let mut k: usize = 0;
    while k < rank && distance != 0
        invariant
            rank == dims@.len(),
            k <= rank,
            position@.len() == rank,
            position_in_bounds(dims@, position@),
            dims_fit_isize(dims@),
            same_signs(orig, position@),
            forall|i: int| 0 <= i < rank - k ==> position@[i] == orig[i],
            suffix_value(dims@, position@, k as nat) + suffix_count(dims@, k as nat) * distance
                == suffix_value(dims@, orig, k as nat) + d0,
        decreases rank - k,
    {
        let a = rank - 1 - k;
        let dim = dims[a];
        let px = position[a];
        assert(coord_in_bounds(dim as int, px as int));
        let dx = distance % dim;
        let q = distance / dim;
        // normalized coordinate, and room left before the axis wraps
        let n: usize = if px < 0 {
            (dim as isize + px) as usize
        } else {
            px as usize
        };
        let room = dim - n;
        let carry: usize = if dx >= room { 1 } else { 0 };
        let newpx: isize = if carry == 1 {
            if px < 0 {
                px + (dx as isize) - (dim as isize)
            } else {
                (dx - room) as isize
            }
        } else {
            px + dx as isize
        };
        let ghost before = position@;
        position.set(a, newpx);
        proof {
            let np = norm_coord(dim as int, newpx as int);
            assert(np + carry * dim == n + dx);
            assert(dim >= 1);
            lemma_suffix_value_same(dims@, before, position@, k as nat);
            assert(distance as int == q * dim + dx) by (nonlinear_arith)
                requires
                    dim >= 1,
                    dx == distance % dim,
                    q == distance / dim,
            ;
            lemma_add_step(
                n as int,
                dx as int,
                q as int,
                dim as int,
                np,
                carry as int,
                suffix_count(dims@, k as nat),
                suffix_value(dims@, position@, k as nat),
                distance as int,
                suffix_value(dims@, orig, k as nat),
                d0,
            );
            assert(distance as int == q * dim + dx) by (nonlinear_arith)
                requires
                    dim >= 1,
                    dx == distance % dim,
                    q == distance / dim,
            ;
            if carry == 1 {
                assert(dim >= 2);
                assert(q <= distance / 2) by (nonlinear_arith)
                    requires
                        dim >= 2,
                        q == distance / dim,
                ;
            }
            assert(same_signs(orig, position@)) by {
                assert forall|i: int| 0 <= i < rank implies (#[trigger] orig[i] < 0) == (
                position@[i] < 0) by {
                    if i != a {
                        assert(position@[i] == before[i]);
                    }
                }
            }
            assert(position_in_bounds(dims@, position@)) by {
                assert forall|i: int| 0 <= i < rank implies #[trigger] coord_in_bounds(
                    dims@[i] as int,
                    position@[i] as int,
                ) by {
                    if i != a {
                        assert(position@[i] == before[i]);
                        assert(coord_in_bounds(dims@[i] as int, before[i] as int));
                    }
                }
            }
        }
        distance = carry + q;
        k = k + 1;
    }
    proof {
        lemma_suffix_value_diff(dims@, position@, orig, k as nat, rank as nat);
        lemma_suffix_value_bounds(dims@, position@, k as nat);
        lemma_suffix_value_bounds(dims@, position@, rank as nat);
        lemma_suffix_value_bounds(dims@, orig, rank as nat);
        if k < rank {
            // stopped early: nothing left to carry
            assert(distance == 0);
        }
    }
    distance
}

/// Rewinds `position` by `distance` steps in last-axis-fastest order, wrapping around the
/// tensor as often as needed. Returns the number of wraps (the borrow of the mixed-radix
/// subtraction). Each coordinate keeps its sign.
pub fn rewind_position(dims: &[usize], distance: usize, position: &mut Vec<isize>) -> (carry: usize)
    requires
        position_in_bounds(dims@, old(position)@),
        dims_fit_isize(dims@),
    ensures
        rewound(dims@, old(position)@, distance as int, final(position)@, carry as int),
{
    let rank = dims.len();
    let ghost d0 = distance as int;
    let ghost orig = position@;
    let mut distance = distance;
    let mut k: usize = 0;
    while k < rank && distance != 0
        invariant
            rank == dims@.len(),
            k <= rank,
            position@.len() == rank,
            position_in_bounds(dims@, position@),
            dims_fit_isize(dims@),
            same_signs(orig, position@),
            forall|i: int| 0 <= i < rank - k ==> position@[i] == orig[i],
            suffix_value(dims@, position@, k as nat) - suffix_count(dims@, k as nat) * distance
                == suffix_value(dims@, orig, k as nat) - d0,
        decreases rank - k,
    {
        let a = rank - 1 - k;
        let dim = dims[a];
        let px = position[a];
        assert(coord_in_bounds(dim as int, px as int));
        let dx = distance % dim;
        let q = distance / dim;
        let n: usize = if px < 0 {
            (dim as isize + px) as usize
        } else {
            px as usize
        };
        let carry: usize = if dx > n { 1 } else { 0 };
        let newpx: isize = if carry == 1 {
            if px < 0 {
                px + ((dim - dx) as isize)
            } else {
                (dim - (dx - n)) as isize
            }
        } else {
            px - dx as isize
        };
        let ghost before = position@;
        position.set(a, newpx);
        proof {
            let np = norm_coord(dim as int, newpx as int);
            assert(np - carry * dim == n - dx);
            assert(dim >= 1);
            lemma_suffix_value_same(dims@, before, position@, k as nat);
            assert(distance as int == q * dim + dx) by (nonlinear_arith)
                requires
                    dim >= 1,
                    dx == distance % dim,
                    q == distance / dim,
            ;
            lemma_sub_step(
                n as int,
                dx as int,
                q as int,
                dim as int,
                np,
                carry as int,
                suffix_count(dims@, k as nat),
                suffix_value(dims@, position@, k as nat),
                distance as int,
                suffix_value(dims@, orig, k as nat),
                d0,
            );
            if carry == 1 {
                assert(dim >= 2);
                assert(q <= distance / 2) by (nonlinear_arith)
                    requires
                        dim >= 2,
                        q == distance / dim,
                ;
            }
            assert(same_signs(orig, position@)) by {
                assert forall|i: int| 0 <= i < rank implies (#[trigger] orig[i] < 0) == (
                position@[i] < 0) by {
                    if i != a {
                        assert(position@[i] == before[i]);
                    }
                }
            }
            assert(position_in_bounds(dims@, position@)) by {
                assert forall|i: int| 0 <= i < rank implies #[trigger] coord_in_bounds(
                    dims@[i] as int,
                    position@[i] as int,
                ) by {
                    if i != a {
                        assert(position@[i] == before[i]);
                        assert(coord_in_bounds(dims@[i] as int, before[i] as int));
                    }
                }
            }
        }
        distance = carry + q;
        k = k + 1;
    }
    proof {
        lemma_suffix_value_diff(dims@, position@, orig, k as nat, rank as nat);
    }
    distance
}

/// `f` was called on a position at place `k` of a full iteration over `dims`, with the signs
/// of `signs`, and broke the walk (when `stop`) or let it go on.
pub open spec fn called_at<F: Fn(&Vec<isize>) -> ControlFlow<()>>(
    f: F,
    dims: Seq<usize>,
    signs: Seq<isize>,
    k: int,
    stop: bool,
) -> bool {
    exists|v: Vec<isize>, c: ControlFlow<()>|
        #![trigger call_ensures(f, (&v,), c)]
        position_in_bounds(dims, v@) && same_signs(signs, v@) && linear_index(dims, v@) == k
            && call_ensures(f, (&v,), c) && (c is Break <==> stop)
}

/// Walks the positions from `position` on, in last-axis-fastest order, calling `f` on each
/// until it breaks; `position` is left where `f` broke, or, when the walk passed the last
/// position, wrapped around to the first place. Coordinates keep their signs. Nothing is
/// called for a tensor with a zero dim.
pub fn for_positions<F: Fn(&Vec<isize>) -> ControlFlow<()>>(dims: &[usize], f: F, position: &mut Vec<isize>)
    requires
        dims_fit_isize(dims@),
        count_of(dims@) <= usize::MAX,
        old(position)@.len() == dims@.len(),
        !dims@.contains(0) ==> position_in_bounds(dims@, old(position)@),
        forall|v: Vec<isize>| call_requires(f, (&v,)),
    ensures
        dims@.contains(0) ==> final(position)@ == old(position)@,
        !dims@.contains(0) ==> {
            let s0 = linear_index(dims@, old(position)@);
            let e = linear_index(dims@, final(position)@);
            let n = count_of(dims@);
            &&& position_in_bounds(dims@, final(position)@)
            &&& same_signs(old(position)@, final(position)@)
            &&& {
                ||| s0 <= e && called_at(f, dims@, old(position)@, e, true)
                    && forall|k: int| s0 <= k < e ==> #[trigger] called_at(f, dims@, old(position)@, k, false)
                ||| e == 0 && forall|k: int| s0 <= k < n ==> #[trigger] called_at(f, dims@, old(position)@, k, false)
            }
        },
{
    if dims_contain_zero(dims) {
        return;
    }
    let ghost d = dims@;
    let ghost start = position@;
    let ghost s0 = linear_index(d, start);
    let ghost n = count_of(d);
    proof {
        lemma_suffix_value_bounds(d, start, d.len());
    }
    let ghost v0 = *position;
    let c = f(&*position);
    let stop = match c {
        ControlFlow::Break(()) => true,
        ControlFlow::Continue(()) => false,
    };
    proof {
        assert(position_in_bounds(d, v0@) && same_signs(start, v0@) && linear_index(d, v0@) == s0
            && call_ensures(f, (&v0,), c) && (c is Break <==> stop));
        assert(called_at(f, d, start, s0, stop));
    }
    if stop {
        return;
    }
    loop
        invariant
            d == dims@,
            dims_fit_isize(d),
            !d.contains(0),
            n == count_of(d),
            s0 == linear_index(d, start),
            start == old(position)@,
            forall|v: Vec<isize>| call_requires(f, (&v,)),
            position_in_bounds(d, position@),
            same_signs(start, position@),
            s0 <= linear_index(d, position@) < n,
            forall|k: int| s0 <= k <= linear_index(d, position@) ==> #[trigger] called_at(f, d, start, k, false),
        decreases n - linear_index(d, position@),
    {
        let ghost before = linear_index(d, position@);
        let carry = increment_position(dims, position);
        proof {
            lemma_suffix_value_bounds(d, position@, d.len());
            let a = linear_index(d, position@);
            let cc = carry as int;
            assert(a + n * cc == before + 1);
            if cc >= 1 {
                assert(n * cc >= n) by (nonlinear_arith)
                    requires
                        cc >= 1,
                        n >= 0,
                ;
                assert(a == 0 && before == n - 1);
            } else {
                assert(n * cc == 0) by (nonlinear_arith)
                    requires
                        cc == 0,
                ;
                assert(a == before + 1);
            }
        }
        if carry > 0 {
            return;
        }
        let ghost v = *position;
        let c = f(&*position);
        let stop = match c {
            ControlFlow::Break(()) => true,
            ControlFlow::Continue(()) => false,
        };
        proof {
            assert(position_in_bounds(d, v@) && same_signs(start, v@) && linear_index(d, v@) == linear_index(d, position@)
                && call_ensures(f, (&v,), c) && (c is Break <==> stop));
            assert(called_at(f, d, start, linear_index(d, position@), stop));
        }
        if stop {
            return;
        }
    }
}

/// Advances `position` by one step. Same as `advance_position(dims, 1, position)`.
pub fn increment_position(dims: &[usize], position: &mut Vec<isize>) -> (carry: usize)
    requires
        position_in_bounds(dims@, old(position)@),
        dims_fit_isize(dims@),
    ensures
        advanced(dims@, old(position)@, 1, final(position)@, carry as int),
{
    advance_position(dims, 1, position)
}

/// Rewinds `position` by one step. Same as `rewind_position(dims, 1, position)`.
pub fn decrement_position(dims: &[usize], position: &mut Vec<isize>) -> (carry: usize)
    requires
        position_in_bounds(dims@, old(position)@),
        dims_fit_isize(dims@),
    ensures
        rewound(dims@, old(position)@, 1, final(position)@, carry as int),
{
    rewind_position(dims, 1, position)
}

/// In-bounds positions at the same place with the same signs are the same position.
proof fn lemma_same_place_same_position(dims: Seq<usize>, p: Seq<isize>, q: Seq<isize>)
    requires
        position_in_bounds(dims, p),
        position_in_bounds(dims, q),
        linear_index(dims, p) == linear_index(dims, q),
        same_signs(p, q),
    ensures
        p == q,
{
    lemma_linear_index_unique(dims, p, q);
    assert forall|i: int| 0 <= i < p.len() implies p[i] == q[i] by {
        assert(norm_at(dims, p, i) == norm_at(dims, q, i));
        assert(p[i] < 0 <==> q[i] < 0);
    }
    assert(p =~= q);
}

/// Advancing a position by a distance has one outcome: any two positions and carries that
/// `advanced` accepts for the same start and distance are the same. So
/// `increment_position` and `advance_position` by 1 leave the same position and carry.
pub proof fn law_advance_is_determined(
    dims: Seq<usize>,
    from: Seq<isize>,
    distance: int,
    p: Seq<isize>,
    c: int,
    q: Seq<isize>,
    e: int,
)
    requires
        advanced(dims, from, distance, p, c),
        advanced(dims, from, distance, q, e),
    ensures
        p == q,
        c == e,
{
    lemma_suffix_value_bounds(dims, p, dims.len());
    lemma_suffix_value_bounds(dims, q, dims.len());
    let n = count_of(dims);
    let a = linear_index(dims, p);
    let b = linear_index(dims, q);
    assert(a - b == n * (e - c)) by (nonlinear_arith)
        requires
            a + n * c == b + n * e,
    ;
    if c != e {
        if e > c {
            assert(n * (e - c) >= n) by (nonlinear_arith)
                requires
                    e - c >= 1,
                    n > 0,
            ;
        } else {
            assert(n * (e - c) <= -n) by (nonlinear_arith)
                requires
                    e - c <= -1,
                    n > 0,
            ;
        }
    }
    assert(same_signs(p, q)) by {
        assert forall|i: int| 0 <= i < p.len() implies (#[trigger] p[i] < 0) == (q[i] < 0) by {
            assert((from[i] < 0) == (p[i] < 0));
            assert((from[i] < 0) == (q[i] < 0));
        }
    }
    lemma_same_place_same_position(dims, p, q);
}

/// Two places below `n` that differ by whole multiples of `n` are equal, and so are the
/// multiples.
proof fn lemma_same_wraps(a: int, b: int, n: int, x: int, y: int)
    requires
        0 <= a < n,
        0 <= b < n,
        a + n * x == b + n * y,
    ensures
        a == b,
        x == y,
{
    assert(x == y) by (nonlinear_arith)
        requires
            0 <= a < n,
            0 <= b < n,
            a + n * x == b + n * y,
    {
        if x < y {
            assert(n * y - n * x >= n) by {
                assert(n * (y - x) >= n * 1);
            }
        } else if x > y {
            assert(n * x - n * y >= n) by {
                assert(n * (x - y) >= n * 1);
            }
        }
    }
}

/// Rewinding a position by a distance undoes advancing it by that distance: the position comes
/// back, and the borrow of the rewind equals the carry of the advance.
pub proof fn law_rewind_undoes_advance(
    dims: Seq<usize>,
    p: Seq<isize>,
    distance: int,
    q: Seq<isize>,
    carry: int,
    r: Seq<isize>,
    borrow: int,
)
    requires
        position_in_bounds(dims, p),
        advanced(dims, p, distance, q, carry),
        rewound(dims, q, distance, r, borrow),
    ensures
        r == p,
        borrow == carry,
{
    lemma_suffix_value_bounds(dims, p, dims.len());
    lemma_suffix_value_bounds(dims, r, dims.len());
    lemma_same_wraps(linear_index(dims, r), linear_index(dims, p), count_of(dims), carry, borrow);
    lemma_same_place_same_position(dims, r, p);
}

/// Advancing a position by a distance undoes rewinding it by that distance: the position comes
/// back, and the carry of the advance equals the borrow of the rewind.
pub proof fn law_advance_undoes_rewind(
    dims: Seq<usize>,
    p: Seq<isize>,
    distance: int,
    q: Seq<isize>,
    borrow: int,
    r: Seq<isize>,
    carry: int,
)
    requires
        position_in_bounds(dims, p),
        rewound(dims, p, distance, q, borrow),
        advanced(dims, q, distance, r, carry),
    ensures
        r == p,
        carry == borrow,
{
    lemma_suffix_value_bounds(dims, p, dims.len());
    lemma_suffix_value_bounds(dims, r, dims.len());
    lemma_same_wraps(linear_index(dims, r), linear_index(dims, p), count_of(dims), carry, borrow);
    lemma_same_place_same_position(dims, r, p);
}

/// Advancing by `a` and then by `b` is advancing by `a + b`, as in mixed-radix addition: the
/// same position, and the two carries add up to the carry of the single advance.
pub proof fn law_advance_adds(
    dims: Seq<usize>,
    p: Seq<isize>,
    a: int,
    q: Seq<isize>,
    ca: int,
    b: int,
    r: Seq<isize>,
    cb: int,
    s: Seq<isize>,
    cab: int,
)
    requires
        position_in_bounds(dims, p),
        advanced(dims, p, a, q, ca),
        advanced(dims, q, b, r, cb),
        advanced(dims, p, a + b, s, cab),
    ensures
        r == s,
        ca + cb == cab,
{
    lemma_suffix_value_bounds(dims, r, dims.len());
    lemma_suffix_value_bounds(dims, s, dims.len());
    let n = count_of(dims);
    assert(linear_index(dims, r) + n * (ca + cb) == linear_index(dims, s) + n * cab) by (nonlinear_arith)
        requires
            linear_index(dims, q) + n * ca == linear_index(dims, p) + a,
            linear_index(dims, r) + n * cb == linear_index(dims, q) + b,
            linear_index(dims, s) + n * cab == linear_index(dims, p) + a + b,
    ;
    lemma_same_wraps(linear_index(dims, r), linear_index(dims, s), n, ca + cb, cab);
    assert forall|i: int| 0 <= i < r.len() implies (#[trigger] r[i] < 0) == (s[i] < 0) by {
        assert((p[i] < 0) == (q[i] < 0));
    }
    lemma_same_place_same_position(dims, r, s);
}

/// Magnitude of a stride as `usize`, exact even for `isize::MIN`.
pub fn stride_magnitude(stride: isize) -> (r: usize)
    ensures
        r == abs_int(stride as int),
{
    if stride == isize::MIN {
        (isize::MAX as usize) + 1
    } else if stride < 0 {
        (-stride) as usize
    } else {
        stride as usize
    }
}

/// Counts the components of a tensor with the given dims: the product of the dims.
pub fn component_count(dims: &[usize]) -> (r: usize)
    requires
        count_of(dims@) <= usize::MAX,
    ensures
        r == count_of(dims@),
{
    let rank = dims.len();
    let mut i: usize = 0;
    while i < rank
        invariant
            i <= rank == dims@.len(),
            forall|j: int| 0 <= j < i ==> #[trigger] dims@[j] >= 1,
        decreases rank - i,
    {
        if dims[i] == 0 {
            proof {
                lemma_suffix_count_zero(dims@, i as int, rank as nat);
            }
            return 0;
        }
        i = i + 1;
    }
    let mut acc: usize = 1;
    let mut k: usize = 0;
    while k < rank
        invariant
            k <= rank == dims@.len(),
            forall|j: int| 0 <= j < rank ==> #[trigger] dims@[j] >= 1,
            count_of(dims@) <= usize::MAX,
            acc == suffix_count(dims@, k as nat),
        decreases rank - k,
    {
        proof {
            lemma_suffix_count_mono(dims@, (k + 1) as nat, rank as nat);
        }
        acc = dims[rank - 1 - k] * acc;
        k = k + 1;
    }
    acc
}

/// Computes the buffer offset of the component at `position`: each axis contributes its
/// normalized coordinate (counted from the far end when the stride is negative) times the
/// stride's magnitude.
pub fn compute_offset(dims: &[usize], position: &[isize], strides: &[isize]) -> (r: usize)
    requires
        position_in_bounds(dims@, position@),
        strides@.len() == dims@.len(),
        offset_of(dims@, position@, strides@) <= usize::MAX,
    ensures
        r == offset_of(dims@, position@, strides@),
{
    let rank = dims.len();
    let mut acc: usize = 0;
    let mut k: usize = 0;
    while k < rank
        invariant
            k <= rank == dims@.len(),
            position_in_bounds(dims@, position@),
            strides@.len() == rank,
            offset_of(dims@, position@, strides@) <= usize::MAX,
            acc == suffix_offset(dims@, position@, strides@, k as nat),
        decreases rank - k,
    {
        let a = rank - 1 - k;
        let dim = dims[a];
        let px = position[a];
        let stride = strides[a];
        assert(coord_in_bounds(dim as int, px as int));
        let n: usize = if px < 0 {
            dim - ((-(px as i128)) as usize)
        } else {
            px as usize
        };
        let m: usize = if stride < 0 { dim - 1 - n } else { n };
        let mag = stride_magnitude(stride);
        proof {
            lemma_suffix_offset_mono(dims@, position@, strides@, (k + 1) as nat, rank as nat);
            lemma_suffix_offset_mono(dims@, position@, strides@, k as nat, k as nat);
            assert(m * mag >= 0) by (nonlinear_arith)
                requires
                    m >= 0,
                    mag >= 0,
            ;
        }
        acc = acc + m * mag;
        k = k + 1;
    }
    acc
}

/// Computes the length of the buffer needed to hold a tensor with the given dims and strides:
/// 0 if any dim is 0, otherwise one more than the greatest offset, where each axis reaches
/// `(dim - 1) * |stride|`.
pub fn buffer_len(dims: &[usize], strides: &[isize]) -> (r: usize)
    requires
        strides@.len() == dims@.len(),
        buffer_len_of(dims@, strides@) <= usize::MAX,
    ensures
        r == buffer_len_of(dims@, strides@),
{
    let rank = dims.len();
    let mut i: usize = 0;
    while i < rank
        invariant
            i <= rank == dims@.len(),
            forall|j: int| 0 <= j < i ==> #[trigger] dims@[j] >= 1,
        decreases rank - i,
    {
        if dims[i] == 0 {
            assert(dims@.contains(0)) by {
                assert(dims@[i as int] == 0);
            }
            return 0;
        }
        i = i + 1;
    }
    assert(!dims@.contains(0));
    let mut acc: usize = 1;
    let mut k: usize = 0;
    while k < rank
        invariant
            k <= rank == dims@.len(),
            strides@.len() == rank,
            forall|j: int| 0 <= j < rank ==> #[trigger] dims@[j] >= 1,
            !dims@.contains(0),
            buffer_len_of(dims@, strides@) <= usize::MAX,
            acc == 1 + suffix_span(dims@, strides@, k as nat),
        decreases rank - k,
    {
        let a = rank - 1 - k;
        let mag = stride_magnitude(strides[a]);
        proof {
            lemma_suffix_span_mono(dims@, strides@, (k + 1) as nat, rank as nat);
            assert(dims@[a as int] >= 1);
            assert((dims@[a as int] - 1) * mag >= 0) by (nonlinear_arith)
                requires
                    dims@[a as int] >= 1,
                    mag >= 0,
            ;
        }
        acc = acc + (dims[a] - 1) * mag;
        k = k + 1;
    }
    acc
}

/// Three-way comparison of two in-bounds positions by their place in a full iteration:
/// negative, zero or positive.
fn compare_linear(dims: &[usize], px: &[isize], qx: &[isize]) -> (r: i8)
    requires
        position_in_bounds(dims@, px@),
        position_in_bounds(dims@, qx@),
    ensures
        (r < 0) == (linear_index(dims@, px@) < linear_index(dims@, qx@)),
        (r == 0) == (linear_index(dims@, px@) == linear_index(dims@, qx@)),
        (r > 0) == (linear_index(dims@, px@) > linear_index(dims@, qx@)),
{
    let rank = dims.len();
    let mut i: usize = 0;
    while i < rank
        invariant
            i <= rank == dims@.len(),
            position_in_bounds(dims@, px@),
            position_in_bounds(dims@, qx@),
            forall|j: int| 0 <= j < i ==> #[trigger] norm_at(dims@, px@, j) == norm_at(dims@, qx@, j),
        decreases rank - i,
    {
        assert(coord_in_bounds(dims@[i as int] as int, px@[i as int] as int));
        assert(coord_in_bounds(dims@[i as int] as int, qx@[i as int] as int));
        let a = unsign_position(dims[i], px[i]).unwrap();
        let b = unsign_position(dims[i], qx[i]).unwrap();
        if a < b {
            proof {
                lemma_lex_less(dims@, px@, qx@, i as int);
            }
            return -1;
        }
        if a > b {
            proof {
                lemma_lex_less(dims@, qx@, px@, i as int);
            }
            return 1;
        }
        i = i + 1;
    }
    proof {
        lemma_lex_equal(dims@, px@, qx@);
    }
    0
}

/// Compares two positions by the components they refer to, in last-axis-fastest order.
pub fn compare_position(dims: &[usize], px: &[isize], qx: &[isize]) -> (r: Ordering)
    requires
        position_in_bounds(dims@, px@),
        position_in_bounds(dims@, qx@),
    ensures
        (r == Ordering::Less) == (linear_index(dims@, px@) < linear_index(dims@, qx@)),
        (r == Ordering::Equal) == (linear_index(dims@, px@) == linear_index(dims@, qx@)),
        (r == Ordering::Greater) == (linear_index(dims@, px@) > linear_index(dims@, qx@)),
{
    let c = compare_linear(dims, px, qx);
    if c < 0 {
        Ordering::Less
    } else if c == 0 {
        Ordering::Equal
    } else {
        Ordering::Greater
    }
}

/// Whether two positions refer to the same component.
pub fn equals_position(dims: &[usize], px: &[isize], qx: &[isize]) -> (r: bool)
    requires
        position_in_bounds(dims@, px@),
        position_in_bounds(dims@, qx@),
    ensures
        r == (linear_index(dims@, px@) == linear_index(dims@, qx@)),
{
    match compare_position(dims, px, qx) {
        Ordering::Equal => true,
        _ => false,
    }
}

/// Whether `px` comes at or after `qx` in last-axis-fastest order.
pub fn greater_equals_position(dims: &[usize], px: &[isize], qx: &[isize]) -> (r: bool)
    requires
        position_in_bounds(dims@, px@),
        position_in_bounds(dims@, qx@),
    ensures
        r == (linear_index(dims@, px@) >= linear_index(dims@, qx@)),
{
    match compare_position(dims, px, qx) {
        Ordering::Less => false,
        _ => true,
    }
}

/// Whether `px` comes after `qx` in last-axis-fastest order.
pub fn greater_position(dims: &[usize], px: &[isize], qx: &[isize]) -> (r: bool)
    requires
        position_in_bounds(dims@, px@),
        position_in_bounds(dims@, qx@),
    ensures
        r == (linear_index(dims@, px@) > linear_index(dims@, qx@)),
{
    match compare_position(dims, px, qx) {
        Ordering::Greater => true,
        _ => false,
    }
}

/// Whether `px` comes at or before `qx` in last-axis-fastest order.
pub fn less_equals_position(dims: &[usize], px: &[isize], qx: &[isize]) -> (r: bool)
    requires
        position_in_bounds(dims@, px@),
        position_in_bounds(dims@, qx@),
    ensures
        r == (linear_index(dims@, px@) <= linear_index(dims@, qx@)),
{
    match compare_position(dims, px, qx) {
        Ordering::Greater => false,
        _ => true,
    }
}

/// Whether `px` comes before `qx` in last-axis-fastest order.
pub fn less_position(dims: &[usize], px: &[isize], qx: &[isize]) -> (r: bool)
    requires
        position_in_bounds(dims@, px@),
        position_in_bounds(dims@, qx@),
    ensures
        r == (linear_index(dims@, px@) < linear_index(dims@, qx@)),
{
    match compare_position(dims, px, qx) {
        Ordering::Less => true,
        _ => false,
    }
}

// ---------------------------------------------------------------------------------------------
// Position
// ---------------------------------------------------------------------------------------------

/// A position within a tensor: one signed coordinate per axis, in axis order. Negative
/// coordinates count from the end of their axis, so two positions can only be compared for
/// the component they refer to when the tensor's dims are known.
#[derive(Debug)]
pub struct Position {
    coords: Vec<isize>,
}

impl View for Position {
    type V = Seq<isize>;

    closed spec fn view(&self) -> Seq<isize> {
        self.coords@
    }
}

impl Position {
    /// The coordinates as a bracketed list: `[1, -2, 3]`.
    pub fn to_string(&self) -> (r: String)
        ensures
            r@ == crate::text::list_text(crate::text::ints_of_isize(self@)),
    {
        let mut s = String::new();
        crate::text::push_isize_list(&mut s, self.coords.as_slice());
        s
    }
}

impl Clone for Position {
    fn clone(&self) -> (r: Self)
        ensures
            r@ == self@,
    {
        Position { coords: self.coords.clone() }
    }
}

impl PartialEq for Position {
    fn eq(&self, other: &Self) -> (r: bool) {
        self.same_coordinates(other)
    }
}

impl vstd::std_specs::cmp::PartialEqSpecImpl for Position {
    open spec fn obeys_eq_spec() -> bool {
        true
    }

    open spec fn eq_spec(&self, other: &Self) -> bool {
        self@ == other@
    }
}

/// How two positions compare without dims: from the first axis on, the first coordinate that
/// differs decides, unless an axis before it (or it) has coordinates of opposite signs, which
/// cannot be compared without the dim.
pub open spec fn coordinates_order(p: Seq<isize>, q: Seq<isize>, i: int) -> Option<Ordering>
    decreases p.len() - i,
{
    if i >= p.len() || i < 0 {
        Some(Ordering::Equal)
    } else if (p[i] < 0) != (q[i] < 0) {
        None
    } else if p[i] < q[i] {
        Some(Ordering::Less)
    } else if p[i] > q[i] {
        Some(Ordering::Greater)
    } else {
        coordinates_order(p, q, i + 1)
    }
}

/// An index as an integer.
pub open spec fn place_of(i: usize) -> int {
    i as int
}

/// The order of positions: none between positions of different ranks, else `coordinates_order`.
pub open spec fn position_order(p: Seq<isize>, q: Seq<isize>) -> Option<Ordering> {
    if p.len() != q.len() {
        None
    } else {
        coordinates_order(p, q, 0)
    }
}

/// From axis `i` on, coordinates compare as equal exactly when they are equal.
proof fn lemma_coordinates_equal(p: Seq<isize>, q: Seq<isize>, i: int)
    requires
        p.len() == q.len(),
        0 <= i <= p.len(),
    ensures
        (coordinates_order(p, q, i) == Some(Ordering::Equal)) <==> (forall|j: int| i <= j < p.len() ==> p[j] == q[j]),
    decreases p.len() - i,
{
    if i < p.len() {
        lemma_coordinates_equal(p, q, i + 1);
        if coordinates_order(p, q, i) == Some(Ordering::Equal) {
            assert forall|j: int| i <= j < p.len() implies p[j] == q[j] by {
                if j > i {
                    assert(i + 1 <= j);
                }
            }
        }
    }
}

/// Positions are equal exactly when they compare as equal.
pub proof fn law_position_eq_is_order_equal(p: Seq<isize>, q: Seq<isize>)
    ensures
        (p == q) <==> (position_order(p, q) == Some(Ordering::Equal)),
{
    if p.len() == q.len() {
        lemma_coordinates_equal(p, q, 0);
        if position_order(p, q) == Some(Ordering::Equal) {
            assert(p =~= q);
        }
    }
}

impl PartialOrd for Position {
    fn partial_cmp(&self, other: &Self) -> (r: Option<Ordering>) {
        let (px, qx) = (&self.coords, &other.coords);
        let rank = px.len();
        if qx.len() != rank {
            return None;
        }
        let mut i: usize = 0;
        while i < rank
            invariant
                rank == px@.len() == qx@.len(),
                px@ == self@,
                qx@ == other@,
                i <= rank,
                position_order(self@, other@) == coordinates_order(self@, other@, 0),
                coordinates_order(self@, other@, 0) == coordinates_order(self@, other@, place_of(i)),
            decreases rank - i,
        {
            let (p, q) = (px[i], qx[i]);
            if (p < 0) != (q < 0) {
                return None;
            }
            if p < q {
                return Some(Ordering::Less);
            }
            if p > q {
                return Some(Ordering::Greater);
            }
            i = i + 1;
        }
        Some(Ordering::Equal)
    }
}

impl vstd::std_specs::cmp::PartialOrdSpecImpl for Position {
    open spec fn obeys_partial_cmp_spec() -> bool {
        true
    }

    open spec fn partial_cmp_spec(&self, other: &Self) -> Option<Ordering> {
        position_order(self@, other@)
    }
}

impl Position {
    /// Whether the two positions have the same rank and identical coordinates.
    fn same_coordinates(&self, other: &Self) -> (r: bool)
        ensures
            r == (self@ == other@),
    {
        if self.coords.len() != other.coords.len() {
            return false;
        }
        let mut i: usize = 0;
        while i < self.coords.len()
            invariant
                self.coords@.len() == other.coords@.len(),
                i <= self.coords@.len(),
                forall|j: int| 0 <= j < i ==> self.coords@[j] == other.coords@[j],
            decreases self.coords@.len() - i,
        {
            if self.coords[i] != other.coords[i] {
                return false;
            }
            i = i + 1;
        }
        assert(self.coords@ =~= other.coords@);
        true
    }

    /// Advances this position by `distance` steps in last-axis-fastest order; see
    /// `advance_position`. Returns the number of wraps.
    pub fn advance(&mut self, dims: &[usize], distance: usize) -> (carry: usize)
        requires
            position_in_bounds(dims@, old(self)@),
            dims_fit_isize(dims@),
        ensures
            position_in_bounds(dims@, final(self)@),
            same_signs(old(self)@, final(self)@),
            linear_index(dims@, final(self)@) + count_of(dims@) * carry == linear_index(
                dims@,
                old(self)@,
            ) + distance,
    {
        advance_position(dims, distance, &mut self.coords)
    }

    /// References the coordinates as a mutable slice.
    pub fn as_mut_slice(&mut self) -> (r: &mut [isize])
        ensures
            r@ == old(self)@,
            final(self)@ == final(r)@,
    {
        self.coords.as_mut_slice()
    }

    /// References the coordinates as a shared slice.
    pub fn as_slice(&self) -> (r: &[isize])
        ensures
            r@ == self@,
    {
        self.coords.as_slice()
    }

    /// The coordinates reinterpreted bit for bit as `usize`: a negative coordinate becomes a
    /// large value, so callers should normalize first.
    pub fn cast_unsigned(&self) -> (r: Vec<usize>)
        ensures
            r@.len() == self@.len(),
            forall|i: int| 0 <= i < r@.len() ==> r@[i] == #[trigger] self@[i] as usize,
    {
        let mut r: Vec<usize> = Vec::new();
        let mut i: usize = 0;
        while i < self.coords.len()
            invariant
                i <= self.coords@.len(),
                r@.len() == i,
                forall|j: int| 0 <= j < i ==> r@[j] == #[trigger] self.coords@[j] as usize,
            decreases self.coords@.len() - i,
        {
            r.push(self.coords[i] as usize);
            i = i + 1;
        }
        r
    }

    /// Rewinds this position by one step; see `decrement_position`.
    pub fn decrement(&mut self, dims: &[usize]) -> (carry: usize)
        requires
            position_in_bounds(dims@, old(self)@),
            dims_fit_isize(dims@),
        ensures
            position_in_bounds(dims@, final(self)@),
            same_signs(old(self)@, final(self)@),
            linear_index(dims@, final(self)@) - count_of(dims@) * carry == linear_index(
                dims@,
                old(self)@,
            ) - 1,
    {
        decrement_position(dims, &mut self.coords)
    }

    /// The last position of a tensor of the given rank: every coordinate is -1.
    pub fn end(rank: usize) -> (r: Self)
        ensures
            r@ == Seq::new(rank as nat, |i: int| -1isize),
    {
        let mut v: Vec<isize> = Vec::new();
        let mut i: usize = 0;
        while i < rank
            invariant
                i <= rank,
                v@ == Seq::new(i as nat, |j: int| -1isize),
            decreases rank - i,
        {
            v.push(-1);
            i = i + 1;
        }
        Position { coords: v }
    }

    /// Advances this position by one step; see `increment_position`.
    pub fn increment(&mut self, dims: &[usize]) -> (carry: usize)
        requires
            position_in_bounds(dims@, old(self)@),
            dims_fit_isize(dims@),
        ensures
            position_in_bounds(dims@, final(self)@),
            same_signs(old(self)@, final(self)@),
            linear_index(dims@, final(self)@) + count_of(dims@) * carry == linear_index(
                dims@,
                old(self)@,
            ) + 1,
    {
        increment_position(dims, &mut self.coords)
    }

    /// The first position of a tensor of the given rank: every coordinate is 0.
    pub fn new(rank: usize) -> (r: Self)
        ensures
            r@ == Seq::new(rank as nat, |i: int| 0isize),
    {
        let mut v: Vec<isize> = Vec::new();
        let mut i: usize = 0;
        while i < rank
            invariant
                i <= rank,
                v@ == Seq::new(i as nat, |j: int| 0isize),
            decreases rank - i,
        {
            v.push(0);
            i = i + 1;
        }
        Position { coords: v }
    }

    /// The number of coordinates.
    pub fn rank(&self) -> (r: usize)
        ensures
            r == self@.len(),
    {
        self.coords.len()
    }

    /// Rewinds this position by `distance` steps; see `rewind_position`. Returns the number
    /// of wraps.
    pub fn rewind(&mut self, dims: &[usize], distance: usize) -> (carry: usize)
        requires
            position_in_bounds(dims@, old(self)@),
            dims_fit_isize(dims@),
        ensures
            position_in_bounds(dims@, final(self)@),
            same_signs(old(self)@, final(self)@),
            linear_index(dims@, final(self)@) - count_of(dims@) * carry == linear_index(
                dims@,
                old(self)@,
            ) - distance,
    {
        rewind_position(dims, distance, &mut self.coords)
    }

    /// Creates a position from coordinates. Every `isize` is a coordinate, so this always
    /// succeeds.
    pub fn try_from_coordinates(coordinates: &[isize]) -> (r: Option<Self>)
        ensures
            r matches Some(p) && p@ == coordinates@,
    {
        let mut v: Vec<isize> = Vec::new();
        let mut i: usize = 0;
        while i < coordinates.len()
            invariant
                i <= coordinates@.len(),
                v@ == coordinates@.subrange(0, i as int),
            decreases coordinates@.len() - i,
        {
            v.push(coordinates[i]);
            i = i + 1;
        }
        assert(v@ =~= coordinates@);
        Some(Position { coords: v })
    }

    /// Creates a position from optional coordinates: `None` if any of them is missing.
    pub fn try_from_iter(coordinates: Vec<Option<isize>>) -> (r: Option<Self>)
        ensures
            r is Some <==> forall|i: int|
                0 <= i < coordinates@.len() ==> #[trigger] coordinates@[i] is Some,
            r matches Some(p) ==> p@.len() == coordinates@.len() && forall|i: int|
                0 <= i < coordinates@.len() ==> coordinates@[i] == Some(#[trigger] p@[i]),
    {
        let mut v: Vec<isize> = Vec::new();
        let mut i: usize = 0;
        while i < coordinates.len()
            invariant
                i <= coordinates@.len(),
                v@.len() == i,
                forall|j: int| 0 <= j < i ==> coordinates@[j] == Some(#[trigger] v@[j]),
            decreases coordinates@.len() - i,
        {
            match coordinates[i] {
                Some(x) => v.push(x),
                None => {
                    return None;
                },
            }
            i = i + 1;
        }
        assert forall|j: int| 0 <= j < coordinates@.len() implies #[trigger] coordinates@[j] is Some by {
            assert(coordinates@[j] == Some(v@[j]));
        }
        Some(Position { coords: v })
    }

    /// Converts the coordinates to their unsigned forms along `dims`. Returns `None` if a
    /// coordinate is out of bounds; the coordinates before the first such one have then
    /// already been converted and the rest are unchanged.
    pub fn unsign(&mut self, dims: &[usize]) -> (r: Option<Vec<usize>>)
        requires
            dims@.len() == old(self)@.len(),
        ensures
            final(self)@.len() == old(self)@.len(),
            r is Some <==> position_in_bounds(dims@, old(self)@),
            r is Some ==> forall|i: int|
                0 <= i < dims@.len() ==> final(self)@[i] == norm_at(dims@, old(self)@, i) as isize,
            r matches Some(u) ==> u@.len() == dims@.len() && forall|i: int|
                0 <= i < dims@.len() ==> u@[i] == norm_at(dims@, old(self)@, i),
            r is None ==> exists|f: int|
                0 <= f < dims@.len() && !coord_in_bounds(dims@[f] as int, old(self)@[f] as int)
                    && (forall|i: int|
                    0 <= i < f ==> final(self)@[i] == norm_at(dims@, old(self)@, i) as isize) && (
                forall|i: int| f <= i < dims@.len() ==> final(self)@[i] == old(self)@[i]),
    {
        let ghost orig = self@;
        let mut u: Vec<usize> = Vec::new();
        let mut i: usize = 0;
        while i < dims.len()
            invariant
                i <= dims@.len() == orig.len() == self.coords@.len(),
                orig == old(self)@,
                u@.len() == i,
                forall|j: int| 0 <= j < i ==> coord_in_bounds(dims@[j] as int, #[trigger] orig[j] as int),
                forall|j: int| 0 <= j < i ==> self.coords@[j] == norm_at(dims@, orig, j) as isize,
                forall|j: int| 0 <= j < i ==> u@[j] == norm_at(dims@, orig, j),
                forall|j: int| i <= j < dims@.len() ==> self.coords@[j] == orig[j],
            decreases dims@.len() - i,
        {
            let c = self.coords[i];
            let ux = unsign_position(dims[i], c);
            match ux {
                Some(x) => {
                    self.coords.set(i, x as isize);
                    u.push(x);
                },
                None => {
                    assert(c == orig[i as int]);
                    assert(!coord_in_bounds(dims@[i as int] as int, orig[i as int] as int));
                    assert(!position_in_bounds(dims@, orig));
                    return None;
                },
            }
            i = i + 1;
        }
        Some(u)
    }
}

/// Whether any of the dims is 0 (the tensor has no components).
pub fn dims_contain_zero(dims: &[usize]) -> (r: bool)
    ensures
        r == dims@.contains(0),
{
    let mut i: usize = 0;
    while i < dims.len()
        invariant
            i <= dims@.len(),
            forall|j: int| 0 <= j < i ==> #[trigger] dims@[j] != 0,
        decreases dims@.len() - i,
    {
        if dims[i] == 0 {
            assert(dims@[i as int] == 0);
            return true;
        }
        i = i + 1;
    }
    false
}

/// Place of an in-bounds position in a full iteration over `dims`.
fn linear_index_exec(dims: &[usize], pos: &[isize]) -> (r: usize)
    requires
        position_in_bounds(dims@, pos@),
        count_of(dims@) <= usize::MAX,
    ensures
        r == linear_index(dims@, pos@),
{
    let rank = dims.len();
    let mut acc: usize = 0;
    let mut place: usize = 1;
    let mut k: usize = 0;
    proof {
        assert forall|j: int| 0 <= j < rank implies #[trigger] dims@[j] >= 1 by {
            assert(coord_in_bounds(dims@[j] as int, pos@[j] as int));
        }
    }
    while k < rank
        invariant
            k <= rank == dims@.len(),
            position_in_bounds(dims@, pos@),
            forall|j: int| 0 <= j < rank ==> #[trigger] dims@[j] >= 1,
            count_of(dims@) <= usize::MAX,
            place == suffix_count(dims@, k as nat),
            acc == suffix_value(dims@, pos@, k as nat),
        decreases rank - k,
    {
        let a = rank - 1 - k;
        assert(coord_in_bounds(dims@[a as int] as int, pos@[a as int] as int));
        let n = unsign_position(dims[a], pos[a]).unwrap();
        proof {
            lemma_suffix_value_bounds(dims@, pos@, (k + 1) as nat);
            lemma_suffix_count_mono(dims@, (k + 1) as nat, rank as nat);
            lemma_suffix_value_bounds(dims@, pos@, k as nat);
            assert(n * place >= 0) by (nonlinear_arith)
                requires
                    n >= 0,
                    place >= 0,
            ;
        }
        acc = acc + n * place;
        place = dims[a] * place;
        k = k + 1;
    }
    acc
}

// ---------------------------------------------------------------------------------------------
// Iteration over positions
// ---------------------------------------------------------------------------------------------

/// Iterates over the positions of a tensor in last-axis-fastest order, from either end.
/// `front` and `back` are the positions most recently yielded from each end (exclusive bounds
/// on what remains); `None` means that end has not started.
#[derive(Debug)]
pub struct PositionIter {
    dims: Vec<usize>,
    front: Option<Position>,
    back: Option<Position>,
}

impl Clone for PositionIter {
    fn clone(&self) -> (r: Self)
        ensures
            r.dims_view() == self.dims_view(),
            r.front_index() == self.front_index(),
            r.back_index() == self.back_index(),
            r.front_signs() == self.front_signs(),
            r.back_signs() == self.back_signs(),
    {
        proof {
            use_type_invariant(self);
        }
        let front = match &self.front {
            Some(p) => Some(p.clone()),
            None => None,
        };
        let back = match &self.back {
            Some(p) => Some(p.clone()),
            None => None,
        };
        PositionIter { dims: self.dims.clone(), front, back }
    }
}

/// What skipping `n` positions from the front and yielding the next does to an iteration
/// `a`, leaving `b` and giving `r`: a position exactly when more than `n` remain, the one
/// `n + 1` places after the front bound, with the signs of the front bound, which then moves
/// to it.
pub open spec fn skipped_front(a: PositionIter, b: PositionIter, n: int, r: Option<Position>) -> bool {
    &&& b.dims_view() == a.dims_view()
    &&& (r is Some <==> n < a.remaining())
    &&& (r matches Some(p) ==> {
        &&& position_in_bounds(a.dims_view(), p@)
        &&& same_signs(a.front_signs(), p@)
        &&& linear_index(a.dims_view(), p@) == a.front_index() + n + 1
        &&& b.front_index() == a.front_index() + n + 1
        &&& b.back_index() == a.back_index()
        &&& b.front_signs() == p@
        &&& b.back_signs() == a.back_signs()
    })
    &&& b.remaining() == if n < a.remaining() { a.remaining() - n - 1 } else { 0 }
}

/// What skipping `n` positions from the back and yielding the one before does to an
/// iteration: the mirror image of `skipped_front`.
pub open spec fn skipped_back(a: PositionIter, b: PositionIter, n: int, r: Option<Position>) -> bool {
    &&& b.dims_view() == a.dims_view()
    &&& (r is Some <==> n < a.remaining())
    &&& (r matches Some(p) ==> {
        &&& position_in_bounds(a.dims_view(), p@)
        &&& same_signs(a.back_signs(), p@)
        &&& linear_index(a.dims_view(), p@) == a.back_index() - n - 1
        &&& b.back_index() == a.back_index() - n - 1
        &&& b.front_index() == a.front_index()
        &&& b.back_signs() == p@
        &&& b.front_signs() == a.front_signs()
    })
    &&& b.remaining() == if n < a.remaining() { a.remaining() - n - 1 } else { 0 }
}

/// Along a run of `next` calls, after `k` of them the front bound has moved `k` places (while
/// positions remained) keeping its signs, and as many fewer positions remain.
proof fn lemma_front_run(states: Seq<PositionIter>, results: Seq<Option<Position>>, k: int)
    requires
        0 <= k < states.len(),
        states.len() == results.len() + 1,
        forall|j: int| 0 <= j < results.len() ==> skipped_front(states[j], states[j + 1], 0, #[trigger] results[j]),
    ensures
        states[k].dims_view() == states[0].dims_view(),
        k <= states[0].remaining() ==> {
            &&& states[k].front_index() == states[0].front_index() + k
            &&& states[k].remaining() == states[0].remaining() - k
            &&& same_signs(states[0].front_signs(), states[k].front_signs())
        },
        k > states[0].remaining() ==> states[k].remaining() == 0,
    decreases k,
{
    if k > 0 {
        lemma_front_run(states, results, k - 1);
        assert(skipped_front(states[k - 1], states[k], 0, results[k - 1]));
        if k - 1 < states[0].remaining() {
            let p = results[k - 1]->0;
            let a = states[0].front_signs();
            let b = states[k - 1].front_signs();
            assert forall|i: int| 0 <= i < a.len() implies (#[trigger] a[i] < 0) == (p@[i] < 0) by {
                assert((a[i] < 0) == (b[i] < 0));
            }
        }
    }
}

/// Along a run of `next_back` calls: the mirror image of `lemma_front_run`.
proof fn lemma_back_run(states: Seq<PositionIter>, results: Seq<Option<Position>>, k: int)
    requires
        0 <= k < states.len(),
        states.len() == results.len() + 1,
        forall|j: int| 0 <= j < results.len() ==> skipped_back(states[j], states[j + 1], 0, #[trigger] results[j]),
    ensures
        states[k].dims_view() == states[0].dims_view(),
        k <= states[0].remaining() ==> {
            &&& states[k].back_index() == states[0].back_index() - k
            &&& states[k].remaining() == states[0].remaining() - k
            &&& same_signs(states[0].back_signs(), states[k].back_signs())
        },
        k > states[0].remaining() ==> states[k].remaining() == 0,
    decreases k,
{
    if k > 0 {
        lemma_back_run(states, results, k - 1);
        assert(skipped_back(states[k - 1], states[k], 0, results[k - 1]));
        if k - 1 < states[0].remaining() {
            let p = results[k - 1]->0;
            let a = states[0].back_signs();
            let b = states[k - 1].back_signs();
            assert forall|i: int| 0 <= i < a.len() implies (#[trigger] a[i] < 0) == (p@[i] < 0) by {
                assert((a[i] < 0) == (b[i] < 0));
            }
        }
    }
}

/// A run of calls on an iteration: step `k` takes `states[k]` to `states[k + 1]` and gives
/// `results[k]`, by `next` when `fronts[k]` holds and by `next_back` otherwise.
pub open spec fn interleaved(states: Seq<PositionIter>, fronts: Seq<bool>, results: Seq<Option<Position>>) -> bool {
    &&& states.len() == results.len() + 1
    &&& fronts.len() == results.len()
    &&& forall|k: int| 0 <= k < results.len() ==> if fronts[k] {
        skipped_front(states[k], states[k + 1], 0, #[trigger] results[k])
    } else {
        skipped_back(states[k], states[k + 1], 0, results[k])
    }
}

/// The place in a full iteration over `dims` of a position given by a call.
pub open spec fn place_given(dims: Seq<usize>, r: Option<Position>) -> int {
    linear_index(dims, r->0@)
}

proof fn lemma_interleaved_prefix(states: Seq<PositionIter>, fronts: Seq<bool>, results: Seq<Option<Position>>, n: int)
    requires
        interleaved(states, fronts, results),
        0 <= n <= results.len(),
    ensures
        states[n].dims_view() == states[0].dims_view(),
        n <= states[0].remaining() ==> states[n].remaining() == states[0].remaining() - n,
        n > states[0].remaining() ==> states[n].remaining() == 0,
        forall|k: int| 0 <= k < n ==> (#[trigger] results[k] is Some <==> k < states[0].remaining()),
        forall|k: int| 0 <= k < n && #[trigger] results[k] is Some ==> states[0].front_index() < place_given(
            states[0].dims_view(),
            results[k],
        ) < states[0].back_index(),
        0 < n <= states[0].remaining() ==> states[0].front_index() <= states[n].front_index()
            && states[n].back_index() <= states[0].back_index(),
        n <= states[0].remaining() ==> forall|k: int| 0 <= k < n && #[trigger] results[k] is Some ==> {
            let p = place_given(states[0].dims_view(), results[k]);
            (states[0].front_index() < p <= states[n].front_index()) || (states[n].back_index() <= p
                < states[0].back_index())
        },
        forall|j: int, k: int|
            0 <= j < k < n && #[trigger] results[j] is Some && #[trigger] results[k] is Some ==> place_given(
                states[0].dims_view(),
                results[j],
            ) != place_given(states[0].dims_view(), results[k]),
    decreases n,
{
    if n > 0 {
        let m = n - 1;
        lemma_interleaved_prefix(states, fronts, results, m);
        let rem0 = states[0].remaining();
        let a = states[m];
        let b = states[n];
        let d = states[0].dims_view();
        assert(fronts[m] ==> skipped_front(a, b, 0, results[m]));
        assert(!fronts[m] ==> skipped_back(a, b, 0, results[m]));
        if m < rem0 {
            assert(a.remaining() == rem0 - m);
            assert(a.back_index() - a.front_index() - 1 == rem0 - m);
            let p = place_given(d, results[m]);
            if m == 0 {
                assert(a == states[0]);
            }
            assert forall|j: int| 0 <= j < m && #[trigger] results[j] is Some implies place_given(d, results[j]) != p by {
                let q = place_given(d, results[j]);
                assert((states[0].front_index() < q <= a.front_index()) || (a.back_index() <= q < states[0].back_index()));
            }
        }
    }
}

/// Any run of `next` and `next_back` calls on an iteration gives a position at exactly the
/// first `remaining` calls, each at a place strictly between the two bounds, and no place
/// twice: the calls from the front and from the back never cross.
pub proof fn law_interleaved_calls_visit_each_place_once(
    states: Seq<PositionIter>,
    fronts: Seq<bool>,
    results: Seq<Option<Position>>,
)
    requires
        interleaved(states, fronts, results),
    ensures
        forall|k: int| 0 <= k < results.len() ==> (#[trigger] results[k] is Some <==> k < states[0].remaining()),
        forall|k: int| 0 <= k < results.len() && #[trigger] results[k] is Some ==> states[0].front_index()
            < place_given(states[0].dims_view(), results[k]) < states[0].back_index(),
        forall|j: int, k: int|
            0 <= j < k < results.len() && #[trigger] results[j] is Some && #[trigger] results[k] is Some
                ==> place_given(states[0].dims_view(), results[j]) != place_given(
                states[0].dims_view(),
                results[k],
            ),
        states[results.len() as int].remaining() == if results.len() <= states[0].remaining() {
            states[0].remaining() - results.len()
        } else {
            0
        },
{
    lemma_interleaved_prefix(states, fronts, results, results.len() as int);
}

/// Skipping `n` positions with `nth` yields the position that `n + 1` calls of `next` yield
/// (or nothing, as they do), and leaves as many positions to come.
pub proof fn law_nth_is_repeated_next(
    states: Seq<PositionIter>,
    results: Seq<Option<Position>>,
    n: int,
    skipped: PositionIter,
    r: Option<Position>,
)
    requires
        0 <= n,
        states.len() == n + 2,
        results.len() == n + 1,
        forall|k: int| 0 <= k <= n ==> skipped_front(states[k], states[k + 1], 0, #[trigger] results[k]),
        skipped_front(states[0], skipped, n, r),
    ensures
        r is Some <==> results[n] is Some,
        r matches Some(p) ==> (results[n] matches Some(q) && p@ == q@),
        skipped.remaining() == states[n + 1].remaining(),
{
    lemma_front_run(states, results, n);
    assert(skipped_front(states[n], states[n + 1], 0, results[n]));
    if n < states[0].remaining() {
        let p = r->0;
        let q = results[n]->0;
        let a = states[0].front_signs();
        let b = states[n].front_signs();
        assert forall|i: int| 0 <= i < p@.len() implies (#[trigger] p@[i] < 0) == (q@[i] < 0) by {
            assert((a[i] < 0) == (p@[i] < 0));
            assert((a[i] < 0) == (b[i] < 0));
            assert((b[i] < 0) == (q@[i] < 0));
        }
        lemma_same_place_same_position(states[0].dims_view(), p@, q@);
    }
}

/// Skipping `n` positions with `nth_back` yields the position that `n + 1` calls of
/// `next_back` yield (or nothing, as they do), and leaves as many positions to come.
pub proof fn law_nth_back_is_repeated_next_back(
    states: Seq<PositionIter>,
    results: Seq<Option<Position>>,
    n: int,
    skipped: PositionIter,
    r: Option<Position>,
)
    requires
        0 <= n,
        states.len() == n + 2,
        results.len() == n + 1,
        forall|k: int| 0 <= k <= n ==> skipped_back(states[k], states[k + 1], 0, #[trigger] results[k]),
        skipped_back(states[0], skipped, n, r),
    ensures
        r is Some <==> results[n] is Some,
        r matches Some(p) ==> (results[n] matches Some(q) && p@ == q@),
        skipped.remaining() == states[n + 1].remaining(),
{
    lemma_back_run(states, results, n);
    assert(skipped_back(states[n], states[n + 1], 0, results[n]));
    if n < states[0].remaining() {
        let p = r->0;
        let q = results[n]->0;
        let a = states[0].back_signs();
        let b = states[n].back_signs();
        assert forall|i: int| 0 <= i < p@.len() implies (#[trigger] p@[i] < 0) == (q@[i] < 0) by {
            assert((a[i] < 0) == (p@[i] < 0));
            assert((a[i] < 0) == (b[i] < 0));
            assert((b[i] < 0) == (q@[i] < 0));
        }
        lemma_same_place_same_position(states[0].dims_view(), p@, q@);
    }
}

impl PositionIter {
    #[verifier::type_invariant]
    closed spec fn inv(&self) -> bool {
        &&& dims_fit_isize(self.dims@)
        &&& count_of(self.dims@) <= usize::MAX
        &&& (self.front matches Some(p) ==> position_in_bounds(self.dims@, p@))
        &&& (self.back matches Some(p) ==> position_in_bounds(self.dims@, p@))
    }

    /// The dims being iterated over.
    pub closed spec fn dims_view(&self) -> Seq<usize> {
        self.dims@
    }

    /// Place of the front bound in a full iteration (-1 before the start).
    pub closed spec fn front_index(&self) -> int {
        match self.front {
            Some(p) => linear_index(self.dims@, p@),
            None => -1,
        }
    }

    /// Place of the back bound in a full iteration (the component count past the end).
    pub closed spec fn back_index(&self) -> int {
        match self.back {
            Some(p) => linear_index(self.dims@, p@),
            None => count_of(self.dims@),
        }
    }

    /// Signs that positions yielded from the front carry.
    pub closed spec fn front_signs(&self) -> Seq<isize> {
        match self.front {
            Some(p) => p@,
            None => Seq::new(self.dims@.len(), |i: int| 0isize),
        }
    }

    /// Signs that positions yielded from the back carry.
    pub closed spec fn back_signs(&self) -> Seq<isize> {
        match self.back {
            Some(p) => p@,
            None => Seq::new(self.dims@.len(), |i: int| -1isize),
        }
    }

    /// Number of positions left to yield.
    pub open spec fn remaining(&self) -> int {
        if self.back_index() - self.front_index() - 1 > 0 {
            self.back_index() - self.front_index() - 1
        } else {
            0
        }
    }

    /// The back bound: the position most recently yielded by `next_back`, if any.
    pub fn back(&self) -> (r: Option<Position>)
        ensures
            r is None <==> self.back_signs() == Seq::new(self.dims_view().len(), |i: int| -1isize) && self.back_index() == count_of(self.dims_view()),
            r matches Some(p) ==> linear_index(self.dims_view(), p@) == self.back_index() && p@
                == self.back_signs() && position_in_bounds(self.dims_view(), p@),
            r is None ==> self.back_index() == count_of(self.dims_view()),
    {
        proof {
            use_type_invariant(self);
            if let Some(p) = &self.back {
                lemma_suffix_value_bounds(self.dims@, p@, self.dims@.len());
            }
        }
        match &self.back {
            Some(p) => Some(p.clone()),
            None => None,
        }
    }

    /// The dims of the tensor whose positions this iterates over.
    pub fn dims(&self) -> (r: &[usize])
        ensures
            r@ == self.dims_view(),
    {
        self.dims.as_slice()
    }

    /// The front bound: the position most recently yielded by `next`, if any.
    pub fn front(&self) -> (r: Option<Position>)
        ensures
            r is None <==> self.front_signs() == Seq::new(self.dims_view().len(), |i: int| 0isize) && self.front_index() == -1,
            r matches Some(p) ==> linear_index(self.dims_view(), p@) == self.front_index() && p@
                == self.front_signs() && position_in_bounds(self.dims_view(), p@),
            r is None ==> self.front_index() == -1,
    {
        proof {
            use_type_invariant(self);
            if let Some(p) = &self.front {
                lemma_suffix_value_bounds(self.dims@, p@, self.dims@.len());
            }
        }
        match &self.front {
            Some(p) => Some(p.clone()),
            None => None,
        }
    }

    /// Creates an iterator over every position of a tensor with the given dims, checking that
    /// they can be counted: errors (operation "positions") as `error::checked_count` does.
    pub fn try_from(dims: &[usize]) -> (r: Result<Self, crate::error::Error>)
        ensures
            r is Ok <==> crate::error::count_ok(dims@),
            r matches Ok(it) ==> {
                &&& it.dims_view() == dims@
                &&& it.remaining() == count_of(dims@)
                &&& it.front_signs() == Seq::new(dims@.len(), |i: int| 0isize)
                &&& it.back_signs() == Seq::new(dims@.len(), |i: int| -1isize)
            },
            r matches Err(e) ==> e.spec_op() == "positions"@ && e.spec_kind()
                == crate::error::count_fault_kind(dims@),
    {
        match crate::error::checked_count(dims) {
            Err(e) => Err(e.with_op("positions")),
            Ok(_) => {
                Ok(Self::new(dims))
            },
        }
    }

    /// Creates an iterator over every position of a tensor with the given dims.
    pub fn new(dims: &[usize]) -> (r: Self)
        requires
            dims_fit_isize(dims@),
            count_of(dims@) <= usize::MAX,
        ensures
            r.dims_view() == dims@,
            r.remaining() == count_of(dims@),
            r.front_signs() == Seq::new(dims@.len(), |i: int| 0isize),
            r.back_signs() == Seq::new(dims@.len(), |i: int| -1isize),
    {
        let mut v: Vec<usize> = Vec::new();
        let mut i: usize = 0;
        while i < dims.len()
            invariant
                i <= dims@.len(),
                v@ == dims@.subrange(0, i as int),
            decreases dims@.len() - i,
        {
            v.push(dims[i]);
            i = i + 1;
        }
        assert(v@ =~= dims@);
        proof {
            if dims@.len() > 0 {
                assert forall|j: int| 0 <= j < dims@.len() implies #[trigger] dims@[j] >= 0 by {}
            }
            if dims@.contains(0) {
                let z = choose|z: int| 0 <= z < dims@.len() && dims@[z] == 0;
                lemma_suffix_count_zero(dims@, z, dims@.len());
            } else {
                assert forall|j: int| 0 <= j < dims@.len() implies #[trigger] dims@[j] >= 1 by {
                    assert(dims@[j] != 0);
                }
                lemma_suffix_count_pos(dims@, dims@.len());
            }
        }
        PositionIter { dims: v, front: None, back: None }
    }

    /// Creates an iterator over the positions from `from` (included, or the start) to `to`
    /// (excluded, or the end) of a full iteration over `dims`.
    pub fn range(dims: &[usize], from: Option<Position>, to: Option<Position>) -> (r: Self)
        requires
            dims_fit_isize(dims@),
            count_of(dims@) <= usize::MAX,
            from matches Some(p) ==> position_in_bounds(dims@, p@),
            to matches Some(p) ==> position_in_bounds(dims@, p@),
        ensures
            r.dims_view() == dims@,
            ({
                let f = match from {
                    Some(p) => linear_index(dims@, p@),
                    None => 0,
                };
                let t = match to {
                    Some(p) => linear_index(dims@, p@),
                    None => count_of(dims@),
                };
                &&& r.remaining() == if t - f > 0 {
                    t - f
                } else {
                    0
                }
                &&& r.front_index() == f - 1
                &&& r.back_index() == t
            }),
            match from {
                Some(p) => if linear_index(dims@, p@) > 0 {
                    same_signs(r.front_signs(), p@)
                } else {
                    r.front_signs() == Seq::new(dims@.len(), |i: int| 0isize)
                },
                None => r.front_signs() == Seq::new(dims@.len(), |i: int| 0isize),
            },
            match to {
                Some(p) => r.back_signs() == p@,
                None => r.back_signs() == Seq::new(dims@.len(), |i: int| -1isize),
            },
    {
        let it = Self::new(dims);
        let v = it.dims;
        let start: Option<Position> = match from {
            Some(mut s) => {
                let ghost s0 = s@;
                let c = s.decrement(dims);
                proof {
                    lemma_suffix_value_bounds(dims@, s@, dims@.len());
                    lemma_suffix_value_bounds(dims@, s0, dims@.len());
                    if c > 0 {
                        assert(count_of(dims@) * c >= count_of(dims@)) by (nonlinear_arith)
                            requires
                                c >= 1,
                                count_of(dims@) >= 0,
                        ;
                    }
                }
                if c > 0 {
                    None
                } else {
                    Some(s)
                }
            },
            None => None,
        };
        PositionIter { dims: v, front: start, back: to }
    }

    /// The rank of the tensor whose positions this iterates over.
    pub fn rank(&self) -> (r: usize)
        ensures
            r == self.dims_view().len(),
    {
        self.dims.len()
    }

    /// Number of positions left to yield.
    pub fn len(&self) -> (r: usize)
        ensures
            r == self.remaining(),
    {
        proof {
            use_type_invariant(self);
        }
        let b: usize = match &self.back {
            Some(p) => linear_index_exec(self.dims.as_slice(), p.as_slice()),
            None => component_count(self.dims.as_slice()),
        };
        match &self.front {
            Some(p) => {
                let f = linear_index_exec(self.dims.as_slice(), p.as_slice());
                proof {
                    lemma_suffix_value_bounds(self.dims@, p@, self.dims@.len());
                }
                if b > f + 1 {
                    b - f - 1
                } else {
                    0
                }
            },
            None => b,
        }
    }

    /// Yields the next position from the front, or `None` once the front has met the back.
    /// Positions from the front carry the signs of the front bound (non-negative at first).
    pub fn next(&mut self) -> (r: Option<Position>)
        ensures
            skipped_front(*old(self), *final(self), 0, r),
    {
        proof {
            use_type_invariant(&*self);
            if let Some(b) = &self.back {
                lemma_suffix_value_bounds(self.dims@, b@, self.dims@.len());
            }
        }
        let ghost dv = self.dims@;
        let rank = self.dims.len();
        let taken = self.front();
        let mut f: Position = match taken {
            Some(mut f) => {
                let ghost f0 = f@;
                let c = f.increment(self.dims.as_slice());
                proof {
                    lemma_suffix_value_bounds(dv, f@, dv.len());
                    lemma_suffix_value_bounds(dv, f0, dv.len());
                }
                proof {
                    lemma_step_up(linear_index(dv, f@), linear_index(dv, f0), count_of(dv), c as int);
                }
                if c > 0 {
                    let ghost f1 = f@;
                    let c2 = f.decrement(self.dims.as_slice());
                    proof {
                        lemma_suffix_value_bounds(dv, f@, dv.len());
                        lemma_step_down(linear_index(dv, f@), linear_index(dv, f1), count_of(dv), c2 as int);
                    }
                    self.front = Some(f);
                    return None;
                }
                f
            },
            None => {
                if dims_contain_zero(self.dims.as_slice()) {
                    proof {
                        let z = choose|z: int| 0 <= z < dv.len() && dv[z] == 0;
                        lemma_suffix_count_zero(dv, z, dv.len());
                        if let Some(b) = &self.back {
                            assert(coord_in_bounds(dv[z] as int, b@[z] as int));
                        }
                    }
                    return None;
                }
                let f = Position::new(rank);
                proof {
                    lemma_zero_position(dv, f@, dv.len());
                    assert(f@ =~= Seq::new(dv.len(), |i: int| 0isize));
                }
                f
            },
        };
        let at_end = match &self.back {
            Some(b) => greater_equals_position(self.dims.as_slice(), f.as_slice(), b.as_slice()),
            None => false,
        };
        if at_end {
            let ghost f1 = f@;
            let c = f.decrement(self.dims.as_slice());
            proof {
                lemma_suffix_value_bounds(dv, f@, dv.len());
                lemma_suffix_value_bounds(dv, f1, dv.len());
                lemma_step_down(linear_index(dv, f@), linear_index(dv, f1), count_of(dv), c as int);
            }
            self.front = Some(f);
            return None;
        }
        proof {
            lemma_suffix_value_bounds(dv, f@, dv.len());
        }
        let r = f.clone();
        self.front = Some(f);
        Some(r)
    }

    /// A non-empty iteration has no zero dim.
    proof fn lemma_nonempty(&self)
        requires
            self.inv(),
            self.remaining() > 0,
        ensures
            forall|i: int| 0 <= i < self.dims@.len() ==> #[trigger] self.dims@[i] >= 1,
            count_of(self.dims@) >= 1,
    {
        if self.dims@.contains(0) {
            let z = choose|z: int| 0 <= z < self.dims@.len() && self.dims@[z] == 0;
            lemma_suffix_count_zero(self.dims@, z, self.dims@.len());
            if let Some(b) = &self.back {
                assert(coord_in_bounds(self.dims@[z] as int, b@[z] as int));
            }
            if let Some(f) = &self.front {
                assert(coord_in_bounds(self.dims@[z] as int, f@[z] as int));
            }
        }
        assert forall|i: int| 0 <= i < self.dims@.len() implies #[trigger] self.dims@[i] >= 1 by {
            if self.dims@[i] == 0 {
                assert(self.dims@.contains(0));
            }
        }
        lemma_suffix_count_pos(self.dims@, self.dims@.len());
    }

    /// Yields the next position from the back, or `None` once the back has met the front.
    /// Positions from the back carry the signs of the back bound (all -1 at first).
    pub fn next_back(&mut self) -> (r: Option<Position>)
        ensures
            skipped_back(*old(self), *final(self), 0, r),
    {
        proof {
            use_type_invariant(&*self);
            if let Some(f) = &self.front {
                lemma_suffix_value_bounds(self.dims@, f@, self.dims@.len());
            }
        }
        let ghost dv = self.dims@;
        let rank = self.dims.len();
        let taken = self.back();
        let mut b: Position = match taken {
            Some(mut b) => {
                let ghost b0 = b@;
                let c = b.decrement(self.dims.as_slice());
                proof {
                    lemma_suffix_value_bounds(dv, b@, dv.len());
                    lemma_suffix_value_bounds(dv, b0, dv.len());
                    lemma_step_down(linear_index(dv, b@), linear_index(dv, b0), count_of(dv), c as int);
                }
                if c > 0 {
                    let ghost b1 = b@;
                    let c2 = b.increment(self.dims.as_slice());
                    proof {
                        lemma_suffix_value_bounds(dv, b@, dv.len());
                        lemma_step_up(linear_index(dv, b@), linear_index(dv, b1), count_of(dv), c2 as int);
                    }
                    self.back = Some(b);
                    return None;
                }
                b
            },
            None => {
                if dims_contain_zero(self.dims.as_slice()) {
                    proof {
                        let z = choose|z: int| 0 <= z < dv.len() && dv[z] == 0;
                        lemma_suffix_count_zero(dv, z, dv.len());
                        if let Some(f) = &self.front {
                            assert(coord_in_bounds(dv[z] as int, f@[z] as int));
                        }
                    }
                    return None;
                }
                let b = Position::end(rank);
                proof {
                    assert forall|i: int| 0 <= i < dv.len() implies #[trigger] dv[i] >= 1 by {
                        if dv[i] == 0 {
                            assert(dv.contains(0));
                        }
                    }
                    lemma_end_position(dv, b@, dv.len());
                    assert(b@ =~= Seq::new(dv.len(), |i: int| -1isize));
                    assert(position_in_bounds(dv, b@));
                }
                b
            },
        };
        let at_end = match &self.front {
            Some(f) => greater_equals_position(self.dims.as_slice(), f.as_slice(), b.as_slice()),
            None => false,
        };
        if at_end {
            let ghost b1 = b@;
            let c = b.increment(self.dims.as_slice());
            proof {
                lemma_suffix_value_bounds(dv, b@, dv.len());
                lemma_suffix_value_bounds(dv, b1, dv.len());
                lemma_step_up(linear_index(dv, b@), linear_index(dv, b1), count_of(dv), c as int);
            }
            self.back = Some(b);
            return None;
        }
        proof {
            lemma_suffix_value_bounds(dv, b@, dv.len());
        }
        let r = b.clone();
        self.back = Some(b);
        Some(r)
    }

    /// Skips `n` positions from the front and yields the one after, or `None` (ending the
    /// iteration) when fewer than `n + 1` remain.
    pub fn nth(&mut self, n: usize) -> (r: Option<Position>)
        ensures
            skipped_front(*old(self), *final(self), n as int, r),
    {
        if n == 0 {
            return self.next();
        }
        proof {
            use_type_invariant(&*self);
            if let Some(b) = &self.back {
                lemma_suffix_value_bounds(self.dims@, b@, self.dims@.len());
            }
        }
        let len = self.len();
        if len == 0 {
            return None;
        }
        proof {
            self.lemma_nonempty();
        }
        let ghost dv = self.dims@;
        let rank = self.dims.len();
        let k: usize = if n < len - 1 { n } else { len - 1 };
        let taken = self.front();
        match taken {
            Some(mut f) => {
                let ghost f0 = f@;
                let c = f.advance(self.dims.as_slice(), k + 1);
                proof {
                    lemma_suffix_value_bounds(dv, f@, dv.len());
                    lemma_suffix_value_bounds(dv, f0, dv.len());
                    lemma_no_wrap_up(linear_index(dv, f@), linear_index(dv, f0), count_of(dv), c as int, k + 1);
                }
                self.front = Some(f);
            },
            None => {
                let mut f = Position::new(rank);
                proof {
                    lemma_zero_position(dv, f@, dv.len());
                    assert(f@ =~= Seq::new(dv.len(), |i: int| 0isize));
                    assert(position_in_bounds(dv, f@));
                }
                let ghost f0 = f@;
                let c = f.advance(self.dims.as_slice(), k);
                proof {
                    lemma_suffix_value_bounds(dv, f@, dv.len());
                    lemma_no_wrap_up(linear_index(dv, f@), 0, count_of(dv), c as int, k as int);
                }
                self.front = Some(f);
            },
        }
        if n >= len {
            return None;
        }
        self.front()
    }

    /// Skips `n` positions from the back and yields the one before, or `None` (ending the
    /// iteration) when fewer than `n + 1` remain.
    pub fn nth_back(&mut self, n: usize) -> (r: Option<Position>)
        ensures
            skipped_back(*old(self), *final(self), n as int, r),
    {
        if n == 0 {
            return self.next_back();
        }
        proof {
            use_type_invariant(&*self);
            if let Some(f) = &self.front {
                lemma_suffix_value_bounds(self.dims@, f@, self.dims@.len());
            }
        }
        let len = self.len();
        if len == 0 {
            return None;
        }
        proof {
            self.lemma_nonempty();
        }
        let ghost dv = self.dims@;
        let rank = self.dims.len();
        let k: usize = if n < len - 1 { n } else { len - 1 };
        let taken = self.back();
        match taken {
            Some(mut b) => {
                let ghost b0 = b@;
                let c = b.rewind(self.dims.as_slice(), k + 1);
                proof {
                    lemma_suffix_value_bounds(dv, b@, dv.len());
                    lemma_suffix_value_bounds(dv, b0, dv.len());
                    lemma_no_wrap_down(linear_index(dv, b@), linear_index(dv, b0), count_of(dv), c as int, k + 1);
                }
                self.back = Some(b);
            },
            None => {
                let mut b = Position::end(rank);
                proof {
                    lemma_end_position(dv, b@, dv.len());
                    assert(b@ =~= Seq::new(dv.len(), |i: int| -1isize));
                    assert(position_in_bounds(dv, b@));
                }
                let ghost b0 = b@;
                let c = b.rewind(self.dims.as_slice(), k);
                proof {
                    lemma_suffix_value_bounds(dv, b@, dv.len());
                    lemma_no_wrap_down(linear_index(dv, b@), count_of(dv) - 1, count_of(dv), c as int, k as int);
                }
                self.back = Some(b);
            },
        }
        if n >= len {
            return None;
        }
        self.back()
    }
}

/// Computes the buffer offset of the component at `position`, or `None` when it does not fit
/// in `usize`.
pub fn checked_offset(dims: &[usize], position: &[isize], strides: &[isize]) -> (r: Option<usize>)
    requires
        position_in_bounds(dims@, position@),
        strides@.len() == dims@.len(),
    ensures
        r is Some <==> offset_of(dims@, position@, strides@) <= usize::MAX,
        r matches Some(o) ==> o == offset_of(dims@, position@, strides@),
{
    let rank = dims.len();
    let mut acc: usize = 0;
    let mut k: usize = 0;
    while k < rank
        invariant
            k <= rank == dims@.len(),
            position_in_bounds(dims@, position@),
            strides@.len() == rank,
            acc == suffix_offset(dims@, position@, strides@, k as nat),
        decreases rank - k,
    {
        let a = rank - 1 - k;
        let dim = dims[a];
        let px = position[a];
        let stride = strides[a];
        assert(coord_in_bounds(dim as int, px as int));
        let n = unsign_position(dim, px).unwrap();
        let m: usize = if stride < 0 { dim - 1 - n } else { n };
        let mag = stride_magnitude(stride);
        proof {
            lemma_suffix_offset_mono(dims@, position@, strides@, (k + 1) as nat, rank as nat);
            assert(m * mag >= 0) by (nonlinear_arith)
                requires
                    m >= 0,
                    mag >= 0,
            ;
        }
        let term = match m.checked_mul(mag) {
            Some(t) => t,
            None => {
                return None;
            },
        };
        if acc > usize::MAX - term {
            return None;
        }
        acc = acc + term;
        k = k + 1;
    }
    Some(acc)
}

} // verus!
