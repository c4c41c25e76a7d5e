//! Searching and filling tensors: binary search over positions, arg max, hole filling,
//! template comparison and fuzzy string search.
use crate::error;
use crate::layout::{
    range_fits, slice_checks_pass, slice_computable, slice_offset, slice_origin, sliced_dims,
    AxisRange, Layout, RangeBound,
};
use crate::position::{
    self, buffer_len_of, coord_in_bounds, count_of, dims_fit_isize, flat_offset, linear_index,
    norm_coord, offset_of, offsets_injective, position_in_bounds, Position,
};
use crate::tensor::{components_in, layout_fits, swap_axes, taken_before, View};
use crate::view::ViewRef;
use crate::xmatch::{further, reaches, total_toward};
use b_k_tree::metrics::Levenshtein;
use b_k_tree::DiscreteMetric;
use vstd::prelude::*;
use vstd::std_specs::cmp::PartialOrdSpec;
use vstd::view::View as _;

verus! {


/// Place `k` of a walk, with the given components `oc` and the filled ones `nc`: if
/// `is_hole` accepts its given component and it is not first along the last axis (of
/// extent `l`), it holds `fill_hole` of its filled predecessor, otherwise its given
/// component.
pub open spec fn filled_at<E, F: Fn(&E) -> E, G: Fn(&E) -> bool>(
    fill_hole: F,
    is_hole: G,
    oc: Seq<E>,
    nc: Seq<E>,
    k: int,
    l: int,
) -> bool {
    exists|h: bool| #[trigger] call_ensures(is_hole, (&oc[k],), h) && if h && k % l != 0 {
        call_ensures(fill_hole, (&nc[k - 1],), nc[k])
    } else {
        nc[k] == oc[k]
    }
}

/// The places of a walk before `k` hold their filled values.
#[verifier::opaque]
spec fn filled_upto<E, F: Fn(&E) -> E, G: Fn(&E) -> bool>(
    fill_hole: F,
    is_hole: G,
    sd: Seq<usize>,
    ss: Seq<isize>,
    oc: Seq<E>,
    b: Seq<E>,
    k: int,
    l: int,
) -> bool {
    forall|m: int| 0 <= m < k ==> #[trigger] filled_at(fill_hole, is_hole, oc, components_in(sd, ss, b), m, l)
}

/// Buffer elements at no place of a walk before `k` are as they were.
#[verifier::opaque]
spec fn untouched_upto<E>(sd: Seq<usize>, ss: Seq<isize>, ob: Seq<E>, b: Seq<E>, k: int) -> bool {
    forall|j: int| 0 <= j < b.len() && !taken_before(sd, ss, k, j) ==> #[trigger] b[j] == ob[j]
}

/// Distinct places of a walk sit at distinct offsets.
#[verifier::opaque]
spec fn distinct_places(sd: Seq<usize>, ss: Seq<isize>) -> bool {
    offsets_injective(sd, ss)
}

/// Distinct places `j` and `k` of a walk sit at distinct offsets.
proof fn lemma_distinct(sd: Seq<usize>, ss: Seq<isize>, j: int, k: int)
    requires
        distinct_places(sd, ss),
        0 <= j < count_of(sd),
        0 <= k < count_of(sd),
        j != k,
    ensures
        flat_offset(sd, ss, j) != flat_offset(sd, ss, k),
{
    reveal(distinct_places);
}

/// After writing at the offset `o` of place `k` (or nothing), the elements at no place before
/// `k + 1` are still as they were, and the element at `o` was.
proof fn lemma_untouched_step<E>(sd: Seq<usize>, ss: Seq<isize>, ob: Seq<E>, b0: Seq<E>, b1: Seq<E>, k: int, o: int)
    requires
        0 <= k < count_of(sd),
        dims_fit_isize(sd),
        sd.len() == ss.len(),
        distinct_places(sd, ss),
        buffer_len_of(sd, ss) <= b0.len() == ob.len(),
        o == flat_offset(sd, ss, k),
        untouched_upto(sd, ss, ob, b0, k),
        b1 == b0 || b1 == b0.update(o, b1[o]),
    ensures
        b0[o] == ob[o],
        untouched_upto(sd, ss, ob, b1, k + 1),
{
    reveal(untouched_upto);
    position::lemma_flat_offset_below_len(sd, ss, k);
    if taken_before(sd, ss, k, o) {
        let j = choose|j: int| 0 <= j < k && flat_offset(sd, ss, j) == o;
        lemma_distinct(sd, ss, j, k);
    }
    assert forall|j: int| 0 <= j < b1.len() && !taken_before(sd, ss, k + 1, j) implies #[trigger] b1[j] == ob[j] by {
        assert(flat_offset(sd, ss, k) != j);
        if taken_before(sd, ss, k, j) {
            let jj = choose|jj: int| 0 <= jj < k && flat_offset(sd, ss, jj) == j;
            assert(taken_before(sd, ss, k + 1, j));
        }
    }
}

/// After filling place `k` (or leaving it), the places before `k + 1` hold their filled
/// values.
proof fn lemma_filled_step<E, F: Fn(&E) -> E, G: Fn(&E) -> bool>(
    fill_hole: F,
    is_hole: G,
    sd: Seq<usize>,
    ss: Seq<isize>,
    oc: Seq<E>,
    b0: Seq<E>,
    b1: Seq<E>,
    k: int,
    o: int,
    h: bool,
    l: int,
)
    requires
        0 <= k < count_of(sd),
        dims_fit_isize(sd),
        sd.len() == ss.len(),
        distinct_places(sd, ss),
        buffer_len_of(sd, ss) <= b0.len(),
        oc.len() == count_of(sd),
        l >= 1,
        o == flat_offset(sd, ss, k),
        b0[o] == oc[k],
        filled_upto(fill_hole, is_hole, sd, ss, oc, b0, k, l),
        call_ensures(is_hole, (&oc[k],), h),
        h && k % l != 0 ==> k > 0 && call_ensures(fill_hole, (&b0[flat_offset(sd, ss, k - 1)],), b1[o])
            && b1 == b0.update(o, b1[o]),
        !(h && k % l != 0) ==> b1 == b0,
    ensures
        filled_upto(fill_hole, is_hole, sd, ss, oc, b1, k + 1, l),
{
    reveal(filled_upto);
    assert(0int % l == 0) by (nonlinear_arith)
        requires
            l >= 1,
    ;
    let c0 = components_in(sd, ss, b0);
    let c1 = components_in(sd, ss, b1);
    position::lemma_flat_offset_below_len(sd, ss, k);
    if k > 0 {
        position::lemma_flat_offset_below_len(sd, ss, k - 1);
        lemma_distinct(sd, ss, k - 1, k);
    }
    assert forall|m: int| 0 <= m < k + 1 implies #[trigger] filled_at(fill_hole, is_hole, oc, c1, m, l) by {
        if m < k {
            position::lemma_flat_offset_below_len(sd, ss, m);
            lemma_distinct(sd, ss, m, k);
            assert(c1[m] == c0[m]);
            if m > 0 {
                position::lemma_flat_offset_below_len(sd, ss, m - 1);
                lemma_distinct(sd, ss, m - 1, k);
                assert(c1[m - 1] == c0[m - 1]);
            }
            assert(filled_at(fill_hole, is_hole, oc, c0, m, l));
            let hh = choose|hh: bool| #[trigger] call_ensures(is_hole, (&oc[m],), hh) && if hh && m % l != 0 {
                call_ensures(fill_hole, (&c0[m - 1],), c0[m])
            } else {
                c0[m] == oc[m]
            };
            assert(call_ensures(is_hole, (&oc[m],), hh));
        } else {
            assert(m == k);
            assert(c1[k] == b1[o]);
            if k > 0 {
                assert(c1[k - 1] == b1[flat_offset(sd, ss, k - 1)]);
                assert(c1[k - 1] == b0[flat_offset(sd, ss, k - 1)]);
            }
            assert(call_ensures(is_hole, (&oc[m],), h));
        }
    }
}

/// The walk done: the components of the filled buffer, place by place.
proof fn lemma_fill_done<E, F: Fn(&E) -> E, G: Fn(&E) -> bool>(
    fill_hole: F,
    is_hole: G,
    sd: Seq<usize>,
    ss: Seq<isize>,
    ob: Seq<E>,
    oc: Seq<E>,
    nb: Seq<E>,
    count: int,
    l: int,
)
    requires
        count == count_of(sd),
        untouched_upto(sd, ss, ob, nb, count),
        filled_upto(fill_hole, is_hole, sd, ss, oc, nb, count, l),
    ensures
        forall|k: int| 0 <= k < count_of(sd) ==> #[trigger] filled_at(fill_hole, is_hole, oc, components_in(sd, ss, nb), k, l),
        forall|j: int| 0 <= j < nb.len() && !taken_before(sd, ss, count_of(sd), j) ==> #[trigger] nb[j] == ob[j],
{
    reveal(untouched_upto);
    reveal(filled_upto);
}

/// Fills holes along the axis `dim`: walking the positions with that axis last, each component
/// `is_hole` accepts, and that has a predecessor along the axis, becomes `fill_hole` of its
/// predecessor (as filled so far). Holes at the start of the axis remain.
pub fn fill_holes<E, F: Fn(&E) -> E, G: Fn(&E) -> bool>(data: &mut View<E>, dim: isize, fill_hole: F, is_hole: G)
    requires
        old(data).valid_mut(),
        coord_in_bounds(old(data).dims_of().len() as int, dim as int),
        ({
            let d = old(data).dims_of();
            let i = norm_coord(d.len() as int, dim as int);
            let sd = swap_axes(d, i, d.len() - 1);
            let ss = swap_axes(old(data).strides_of(), i, d.len() - 1);
            &&& offsets_injective(sd, ss)
            &&& count_of(sd) <= usize::MAX
            &&& buffer_len_of(sd, ss) <= old(data).buffer_view().len()
        }),
        forall|x: E| call_requires(is_hole, (&x,)),
        forall|x: E| call_requires(fill_hole, (&x,)),
    ensures
        final(data).dims_of() == old(data).dims_of(),
        final(data).strides_of() == old(data).strides_of(),
        final(data).buffer_view().len() == old(data).buffer_view().len(),
        ({
            let d = old(data).dims_of();
            let i = norm_coord(d.len() as int, dim as int);
            let sd = swap_axes(d, i, d.len() - 1);
            let ss = swap_axes(old(data).strides_of(), i, d.len() - 1);
            let oc = components_in(sd, ss, old(data).buffer_view());
            let nc = components_in(sd, ss, final(data).buffer_view());
            let l = sd[d.len() - 1] as int;
            &&& forall|k: int| 0 <= k < count_of(sd) ==> #[trigger] filled_at(fill_hole, is_hole, oc, nc, k, l)
            &&& forall|j: int| 0 <= j < old(data).buffer_view().len() && !taken_before(sd, ss, count_of(sd), j)
                ==> #[trigger] final(data).buffer_view()[j] == old(data).buffer_view()[j]
        }),
{
    let ghost d = data.dims_of();
    let ghost ob = data.buffer_view();
    let ghost i = norm_coord(d.len() as int, dim as int);
    let ghost sd = swap_axes(d, i, d.len() - 1);
    let ghost ss = swap_axes(data.strides_of(), i, d.len() - 1);
    let ghost oc = components_in(sd, ss, ob);
    proof {
        error::lemma_layout_ok_bounds(d, data.strides_of());
        assert(dims_fit_isize(sd)) by {
            assert forall|j: int| 0 <= j < sd.len() implies #[trigger] sd[j] <= isize::MAX by {
                assert(d[i] <= isize::MAX && d[d.len() - 1] <= isize::MAX && d[j] <= isize::MAX);
            }
        }
        assert(distinct_places(sd, ss)) by {
            reveal(distinct_places);
        }
    }
    let mut layout = data.get_layout();
    layout.swap_dims(dim, -1);
    assert(layout.dims_view() =~= sd);
    assert(layout.strides_view() =~= ss);
    let rank = layout.rank();
    let count = layout.count();
    if count == 0 {
        proof {
            position::lemma_suffix_count_pos_any(sd, sd.len());
        }
        return;
    }
    proof {
        position::lemma_count_pos_no_zero(sd);
    }
    let sdims = layout.dims();
    let sstrides = layout.strides();
    let l = sdims[rank - 1];
    let b = data.buf_mut();
    let n = b.len();
    let mut p = Position::new(rank);
    proof {
        position::lemma_zeros_in_bounds(sdims@, p@);
        assert(untouched_upto(sd, ss, ob, b@, 0)) by {
            reveal(untouched_upto);
        }
        assert(filled_upto(fill_hole, is_hole, sd, ss, oc, b@, 0, l as int)) by {
            reveal(filled_upto);
        }
    }
    let mut prev: usize = 0;
    let mut col: usize = 0;
    let mut k: usize = 0;
    while k < count
        invariant
            sdims@ == sd,
            sstrides@ == ss,
            sd.len() == ss.len() == rank,
            rank >= 1,
            l == sd[rank - 1],
            l >= 1,
            dims_fit_isize(sd),
            count == count_of(sd),
            distinct_places(sd, ss),
            buffer_len_of(sd, ss) <= n == ob.len() == b@.len(),
            oc == components_in(sd, ss, ob),
            forall|x: E| call_requires(is_hole, (&x,)),
            forall|x: E| call_requires(fill_hole, (&x,)),
            k <= count,
            col == (k as int) % (l as int),
            k > 0 ==> prev == flat_offset(sd, ss, k - 1),
            untouched_upto(sd, ss, ob, b@, k as int),
            filled_upto(fill_hole, is_hole, sd, ss, oc, b@, k as int, l as int),
            position_in_bounds(sd, p@),
            k < count ==> linear_index(sd, p@) == k,
        decreases count - k,
    {
        proof {
            position::lemma_offset_below_len(sd, p@, ss);
            position::lemma_flat_offset(sd, ss, p@);
            if k > 0 {
                position::lemma_flat_offset_below_len(sd, ss, k - 1);
            } else {
                assert(0int % (l as int) == 0) by (nonlinear_arith)
                    requires
                        l >= 1,
                ;
            }
        }
        let o = position::compute_offset(sdims, p.as_slice(), sstrides);
        proof {
            lemma_untouched_step(sd, ss, ob, b@, b@, k as int, o as int);
        }
        let ghost b0 = b@;
        let h = is_hole(&b[o]);
        if h && col != 0 {
            let v = fill_hole(&b[prev]);
            b[o] = v;
        }
        proof {
            lemma_untouched_step(sd, ss, ob, b0, b@, k as int, o as int);
            position::lemma_suffix_count_pos_any(sd, sd.len());
            lemma_filled_step(fill_hole, is_hole, sd, ss, oc, b0, b@, k as int, o as int, h, l as int);
            assert(((k + 1) as int) % (l as int) == if col + 1 == l { 0 } else { col + 1 }) by (nonlinear_arith)
                requires
                    col == (k as int) % (l as int),
                    l >= 1,
                    k >= 0,
            ;
        }
        prev = o;
        col = if col + 1 == l { 0 } else { col + 1 };
        if k + 1 < count {
            let c = p.increment(sdims);
            proof {
                position::lemma_suffix_value_bounds(sd, p@, sd.len());
                position::lemma_no_wrap_up(linear_index(sd, p@), k as int, count as int, c as int, 1);
            }
        }
        k = k + 1;
    }
    proof {
        lemma_fill_done(fill_hole, is_hole, sd, ss, ob, oc, b@, count as int, l as int);
    }
}


/// The length of a sequence as an integer.
pub open spec fn len_of<T>(s: Seq<T>) -> int {
    s.len() as int
}

/// The value of a `usize` as an integer.
pub open spec fn wide(x: usize) -> int {
    x as int
}

/// No key after place `m` and before place `k` is greater than the key at `m`, as far as the
/// keys' order follows its specification.
pub open spec fn none_greater<K: PartialOrd>(keys: Seq<K>, m: int, k: int) -> bool {
    K::obeys_partial_cmp_spec() ==> forall|j: int| m < j < k ==> (#[trigger] keys[j]).partial_cmp_spec(&keys[m]) != Some(core::cmp::Ordering::Greater)
}

/// The keys of the components agree with `f`, and no component after the one at place `m`
/// has a key greater than its key.
pub open spec fn max_key_at<E, K: PartialOrd, F: Fn(&E) -> K>(f: F, comps: Seq<E>, keys: Seq<K>, m: int) -> bool {
    &&& keys.len() == comps.len()
    &&& 0 <= m < comps.len()
    &&& forall|k: int| 0 <= k < comps.len() ==> call_ensures(f, (&comps[k],), #[trigger] keys[k])
    &&& none_greater(keys, m, comps.len() as int)
    &&& first_greatest(keys, m)
}

/// When the keys' order follows its specification and is total, every key before place `m`
/// is less than the key at `m`: it is the first of the greatest keys.
pub open spec fn first_greatest<K: PartialOrd>(keys: Seq<K>, m: int) -> bool {
    K::obeys_partial_cmp_spec() && total_toward::<K>(true) ==> forall|j: int|
        0 <= j < m ==> further::<K>(keys[m], #[trigger] keys[j], true)
}

/// The position of the component with the greatest key: walking the positions in order, the
/// first whose key no later key exceeds, and which (for a total order) exceeds every key
/// before it. The tensor must be valid and have a
/// component.
pub fn arg_max_by_key<E, K: PartialOrd, F: Fn(&E) -> K>(data: &View<E>, f: F) -> (r: Position)
    requires
        data.valid(),
        count_of(data.dims_of()) > 0,
        forall|k: int| 0 <= k < count_of(data.dims_of()) ==> call_requires(f, (&#[trigger] data.components()[k],)),
    ensures
        position_in_bounds(data.dims_of(), r@),
        position::from_start(r@),
        exists|keys: Seq<K>| max_key_at(f, data.components(), keys, linear_index(data.dims_of(), r@)),
{
    proof {
        error::lemma_layout_ok_bounds(data.dims_of(), data.strides_of());
    }
    let ghost comps = data.components();
    let ghost d = data.dims_of();
    let ghost st = data.strides_of();
    let layout = data.get_layout();
    let dims = layout.dims();
    let strides = layout.strides();
    let count = layout.count();
    let buf = data.buf();
    let n = buf.len();
    let mut p = Position::new(dims.len());
    proof {
        position::lemma_zeros_in_bounds(dims@, p@);
    }
    let mut best: Option<K> = None;
    let mut at = p.clone();
    let ghost mut keys: Seq<K> = Seq::empty();
    let ghost mut m: int = 0;
    let mut k: usize = 0;
    while k < count
        invariant
            dims@ == d,
            strides@ == st,
            d.len() == st.len(),
            dims_fit_isize(d),
            count == count_of(d),
            buffer_len_of(d, st) <= n == buf@.len(),
            comps == components_in(d, st, buf@),
            forall|j: int| 0 <= j < count ==> call_requires(f, (&#[trigger] comps[j],)),
            k <= count,
            keys.len() == k,
            forall|j: int| 0 <= j < k ==> call_ensures(f, (&comps[j],), #[trigger] keys[j]),
            k == 0 <==> best is None,
            k > 0 ==> 0 <= m < k && best == Some(keys[m]) && position_in_bounds(d, at@) && linear_index(d, at@) == m,
            none_greater(keys, m, wide(k)),
            k > 0 ==> first_greatest(keys, m),
            position_in_bounds(d, p@),
            position::from_start(p@),
            position::from_start(at@),
            k < count ==> linear_index(d, p@) == k,
        decreases count - k,
    {
        proof {
            position::lemma_offset_below_len(d, p@, st);
            position::lemma_flat_offset(d, st, p@);
        }
        let o = position::compute_offset(dims, p.as_slice(), strides);
        assert(comps[wide(k)] == buf@[wide(o)]);
        let key = f(&buf[o]);
        let better = match &best {
            None => true,
            Some(b) => key > *b,
        };
        proof {
            keys = keys.push(key);
        }
        if better {
            proof {
                let kk = wide(k);
                if k > 0 && K::obeys_partial_cmp_spec() && total_toward::<K>(true) {
                    assert(further::<K>(keys[kk], keys[m], true));
                    assert forall|j: int| 0 <= j < kk implies further::<K>(keys[kk], #[trigger] keys[j], true) by {
                        if j < m {
                            assert(further::<K>(keys[m], keys[j], true));
                            assert(reaches::<K>(keys[m], keys[j], true));
                        } else if j > m {
                            assert(keys[j].partial_cmp_spec(&keys[m]) != Some(core::cmp::Ordering::Greater));
                            assert(!further::<K>(keys[j], keys[m], true));
                            assert(reaches::<K>(keys[m], keys[j], true));
                        }
                    }
                }
            }
            best = Some(key);
            at = p.clone();
            proof {
                m = wide(k);
            }
        }
        if k + 1 < count {
            let ghost p0 = p@;
            let c = p.increment(dims);
            proof {
                position::lemma_signs_keep_ends(p0, p@);
                position::lemma_suffix_value_bounds(d, p@, d.len());
                position::lemma_no_wrap_up(linear_index(d, p@), wide(k), wide(count), wide(c), 1);
            }
        }
        k = k + 1;
    }
    proof {
        position::lemma_suffix_count_pos_any(d, d.len());
        assert(keys.len() == comps.len());
        assert(max_key_at(f, comps, keys, m));
    }
    at
}


/// The least of three numbers.
pub open spec fn min3(a: nat, b: nat, c: nat) -> nat {
    if a <= b && a <= c {
        a
    } else if b <= c {
        b
    } else {
        c
    }
}

/// The Levenshtein distance of two sequences of characters: the least number of insertions,
/// deletions and substitutions of single characters that turn one into the other.
pub open spec fn levenshtein(a: Seq<char>, b: Seq<char>) -> nat
    decreases a.len() + b.len(),
{
    if a.len() == 0 {
        b.len()
    } else if b.len() == 0 {
        a.len()
    } else {
        min3(
            levenshtein(a.drop_last(), b.drop_last()) + if a.last() == b.last() { 0nat } else { 1nat },
            levenshtein(a.drop_last(), b) + 1,
            levenshtein(a, b.drop_last()) + 1,
        )
    }
}

/// The Levenshtein distance of two strings, counted in characters, as
/// `b_k_tree::metrics::Levenshtein::distance` computes it (its dynamic programme over the
/// characters of both strings); the contract claims that this is the distance defined by
/// `levenshtein`.
#[verifier::external_body]
fn levenshtein_distance(a: &str, b: &str) -> (r: usize)
    ensures
        r == levenshtein(a@, b@),
{
    Levenshtein::new().distance(a, b)
}

/// The position of the string component nearest to `query` by Levenshtein distance; of equally
/// near ones, the first in walking order. The tensor must be valid and have a component.
pub fn fuzzy_str_pos(data: &View<String>, query: &str) -> (r: Position)
    requires
        data.valid(),
        count_of(data.dims_of()) > 0,
    ensures
        position_in_bounds(data.dims_of(), r@),
        position::from_start(r@),
        ({
            let comps = data.components();
            let m = linear_index(data.dims_of(), r@);
            &&& forall|k: int| 0 <= k < comps.len() ==> levenshtein((#[trigger] comps[k])@, query@) >= levenshtein(comps[m]@, query@)
            &&& forall|k: int| 0 <= k < m ==> levenshtein((#[trigger] comps[k])@, query@) > levenshtein(comps[m]@, query@)
        }),
{
    proof {
        error::lemma_layout_ok_bounds(data.dims_of(), data.strides_of());
    }
    let ghost comps = data.components();
    let ghost d = data.dims_of();
    let ghost st = data.strides_of();
    let layout = data.get_layout();
    let dims = layout.dims();
    let strides = layout.strides();
    let count = layout.count();
    let buf = data.buf();
    let n = buf.len();
    let mut p = Position::new(dims.len());
    proof {
        position::lemma_zeros_in_bounds(dims@, p@);
    }
    let mut best: usize = 0;
    let mut at = p.clone();
    let ghost mut m: int = 0;
    let mut k: usize = 0;
    while k < count
        invariant
            dims@ == d,
            strides@ == st,
            d.len() == st.len(),
            dims_fit_isize(d),
            count == count_of(d),
            buffer_len_of(d, st) <= n == buf@.len(),
            comps == components_in(d, st, buf@),
            k <= count,
            k > 0 ==> 0 <= m < k && best == levenshtein(comps[m]@, query@) && position_in_bounds(d, at@) && linear_index(d, at@) == m,
            forall|j: int| 0 <= j < k ==> levenshtein((#[trigger] comps[j])@, query@) >= best,
            forall|j: int| 0 <= j < m ==> levenshtein((#[trigger] comps[j])@, query@) > best,
            position_in_bounds(d, p@),
            position::from_start(p@),
            position::from_start(at@),
            k < count ==> linear_index(d, p@) == k,
        decreases count - k,
    {
        proof {
            position::lemma_offset_below_len(d, p@, st);
            position::lemma_flat_offset(d, st, p@);
        }
        let o = position::compute_offset(dims, p.as_slice(), strides);
        assert(comps[wide(k)] == buf@[wide(o)]);
        let dist = levenshtein_distance(buf[o].as_str(), query);
        if k == 0 || dist < best {
            best = dist;
            at = p.clone();
            proof {
                m = wide(k);
            }
        }
        if k + 1 < count {
            let ghost p0 = p@;
            let c = p.increment(dims);
            proof {
                position::lemma_signs_keep_ends(p0, p@);
                position::lemma_suffix_value_bounds(d, p@, d.len());
                position::lemma_no_wrap_up(linear_index(d, p@), wide(k), wide(count), wide(c), 1);
            }
        }
        k = k + 1;
    }
    proof {
        position::lemma_suffix_count_pos_any(d, d.len());
    }
    at
}


/// `a - b`, or 0 when `b` exceeds `a`.
pub open spec fn sat_sub(a: int, b: int) -> int {
    if a >= b { a - b } else { 0 }
}

/// The dims of the places a template with dims `tdims` can take within a tensor with dims
/// `dims`: along each axis, the dim less one less than the template's dim (neither below 0).
pub open spec fn window_dims(dims: Seq<usize>, tdims: Seq<usize>) -> Seq<usize> {
    Seq::new(dims.len(), |i: int| sat_sub(dims[i] as int, sat_sub(tdims[i] as int, 1)) as usize)
}

/// The ranges that cut out the window at `origin` for a template with dims `tdims`: along each
/// axis, from the origin's coordinate, as many as the template's dim.
pub open spec fn window_ranges(origin: Seq<isize>, tdims: Seq<usize>) -> Seq<AxisRange> {
    Seq::new(
        origin.len(),
        |i: int| AxisRange { start: RangeBound::Included(origin[i]), end: RangeBound::Excluded((origin[i] + tdims[i]) as isize) },
    )
}

/// `w` is the window of `data` at `origin` for a template with dims `tdims`: it has the
/// template's dims and the data's strides, and reaches the data's buffer from the offset of
/// the origin on.
pub open spec fn is_window<E>(data: View<E>, tdims: Seq<usize>, origin: Seq<isize>, w: ViewRef<E>) -> bool {
    &&& w.dims_of() == tdims
    &&& w.strides_of() == data.strides_of()
    &&& w.buffer_view() == data.buffer_view().subrange(
        offset_of(data.dims_of(), origin, data.strides_of()),
        data.buffer_view().len() as int,
    )
}

/// `y` is what `f` gave for the window at place `k` of the walk over the windows of `data` the
/// size of `template`: some window `w` of `data` at an origin `p` (with non-negative
/// coordinates, at place `k` among the windows' origins) such that `f` may give `y` for `w`,
/// the template and `p`.
pub open spec fn window_result<'a, E, X, Y, F: Fn(&ViewRef<'a, E>, &View<X>, Position) -> Y>(
    f: F,
    data: &View<E>,
    template: &View<X>,
    k: int,
    y: Y,
) -> bool {
    let wd = window_dims(data.dims_of(), template.dims_of());
    exists|w: ViewRef<'a, E>, p: Position| {
        &&& position_in_bounds(wd, p@)
        &&& linear_index(wd, p@) == k
        &&& forall|i: int| 0 <= i < p@.len() ==> #[trigger] p@[i] >= 0
        &&& is_window(*data, template.dims_of(), p@, w)
        &&& #[trigger] call_ensures(f, (&w, template, p), y)
    }
}

/// Dims no greater than other dims, axis by axis, count no more components.
proof fn lemma_suffix_count_le(a: Seq<usize>, b: Seq<usize>, k: nat)
    requires
        a.len() == b.len(),
        k <= a.len(),
        forall|i: int| 0 <= i < a.len() ==> #[trigger] a[i] <= b[i],
    ensures
        position::suffix_count(a, k) <= position::suffix_count(b, k),
    decreases k,
{
    if k > 0 {
        lemma_suffix_count_le(a, b, (k - 1) as nat);
        position::lemma_suffix_count_pos_any(a, (k - 1) as nat);
        let i = a.len() - k;
        let x = a[i] as int;
        let y = b[i] as int;
        let u = position::suffix_count(a, (k - 1) as nat);
        let v = position::suffix_count(b, (k - 1) as nat);
        assert(x * u <= y * v) by (nonlinear_arith)
            requires
                0 <= x <= y,
                0 <= u <= v,
        ;
    }
}

/// The window at a non-negative origin among the places of a template can be sliced out of a
/// valid layout, and the slice has the template's dims and starts at the origin's offset.
proof fn lemma_window(dims: Seq<usize>, strides: Seq<isize>, len: int, tdims: Seq<usize>, origin: Seq<isize>)
    requires
        layout_fits(dims, strides, len),
        tdims.len() == dims.len(),
        position_in_bounds(window_dims(dims, tdims), origin),
        forall|i: int| 0 <= i < origin.len() ==> #[trigger] origin[i] >= 0,
    ensures
        ({
            let ranges = window_ranges(origin, tdims);
            &&& forall|i: int| 0 <= i < ranges.len() ==> #[trigger] range_fits(ranges[i])
            &&& slice_checks_pass(dims, strides, ranges)
            &&& slice_computable(dims, strides, ranges, 0)
            &&& offset_of(dims, slice_origin(dims, ranges), strides) <= len
            &&& sliced_dims(dims, ranges) == tdims
            &&& slice_offset(dims, strides, ranges) == offset_of(dims, origin, strides)
        }),
        forall|i: int| 0 <= i < dims.len() ==> origin[i] + #[trigger] tdims[i] <= dims[i],
{
    error::lemma_layout_ok_bounds(dims, strides);
    let wd = window_dims(dims, tdims);
    let ranges = window_ranges(origin, tdims);
    assert forall|i: int| 0 <= i < dims.len() implies origin[i] + tdims[i] <= dims[i] && #[trigger] tdims[i] <= dims[i] && origin[i] < dims[i] by {
        assert(coord_in_bounds(wd[i] as int, origin[i] as int));
        assert(origin[i] >= 0);
    }
    assert(slice_origin(dims, ranges) =~= origin);
    assert(position_in_bounds(dims, origin)) by {
        assert forall|i: int| 0 <= i < dims.len() implies #[trigger] coord_in_bounds(dims[i] as int, origin[i] as int) by {
            assert(origin[i] + tdims[i] <= dims[i]);
        }
    }
    position::lemma_offset_below_len(dims, origin, strides);
    assert(sliced_dims(dims, ranges) =~= tdims);
}

/// `origin` places a template with dims `tdims` inside a tensor with dims `dims`: its
/// coordinates count from the start, and along every axis the template, starting there, ends
/// within the tensor (a template dim of 0 still needs the origin to be a coordinate).
pub open spec fn placement(dims: Seq<usize>, tdims: Seq<usize>, origin: Seq<isize>) -> bool {
    &&& origin.len() == dims.len()
    &&& forall|i: int|
        0 <= i < dims.len() ==> 0 <= #[trigger] origin[i] && origin[i] + tdims[i] <= dims[i] && origin[i] < dims[i]
}

/// `y` is what `f` may give for the window of `data` at `origin`, the size of `template`.
pub open spec fn window_at<'a, E, X, Y, F: Fn(&ViewRef<'a, E>, &View<X>, Position) -> Y>(
    f: F,
    data: &View<E>,
    template: &View<X>,
    origin: Seq<isize>,
    y: Y,
) -> bool {
    exists|w: ViewRef<'a, E>, p: Position| {
        &&& p@ == origin
        &&& is_window(*data, template.dims_of(), origin, w)
        &&& #[trigger] call_ensures(f, (&w, template, p), y)
    }
}

/// The position in the data of position `q` of the window at `origin`: each coordinate,
/// counted from the start of the window's axis, moved on by the origin's.
pub open spec fn in_data(tdims: Seq<usize>, origin: Seq<isize>, q: Seq<isize>) -> Seq<isize> {
    Seq::new(q.len(), |i: int| (origin[i] + norm_coord(tdims[i] as int, q[i] as int)) as isize)
}

proof fn lemma_window_offsets(dims: Seq<usize>, strides: Seq<isize>, tdims: Seq<usize>, origin: Seq<isize>, q: Seq<isize>, k: nat)
    requires
        dims.len() == strides.len() == tdims.len(),
        dims_fit_isize(dims),
        placement(dims, tdims, origin),
        forall|i: int| 0 <= i < strides.len() ==> 0 <= #[trigger] strides[i],
        position_in_bounds(tdims, q),
        k <= dims.len(),
    ensures
        position::suffix_offset(dims, origin, strides, k) + position::suffix_offset(tdims, q, strides, k)
            == position::suffix_offset(dims, in_data(tdims, origin, q), strides, k),
    decreases k,
{
    if k > 0 {
        lemma_window_offsets(dims, strides, tdims, origin, q, (k - 1) as nat);
        let i = dims.len() - k;
        let u = in_data(tdims, origin, q);
        assert(coord_in_bounds(tdims[i] as int, q[i] as int));
        assert(0 <= origin[i] && origin[i] + tdims[i] <= dims[i] && origin[i] < dims[i]);
        let a = origin[i] as int;
        let b = norm_coord(tdims[i] as int, q[i] as int);
        assert(0 <= a + b < dims[i]);
        assert(u[i] as int == a + b);
        let m = strides[i] as int;
        assert(a * m + b * m == (a + b) * m) by (nonlinear_arith);
    }
}

/// A window reads the data it covers: where no stride is negative, position `q` of the
/// window at a placement `origin` holds the data's component at `q` moved on by the origin.
pub proof fn law_window_reads_the_covered_data<'a, E>(data: View<E>, tdims: Seq<usize>, origin: Seq<isize>, w: ViewRef<'a, E>, q: Seq<isize>)
    requires
        data.valid(),
        tdims.len() == data.dims_of().len(),
        placement(data.dims_of(), tdims, origin),
        forall|i: int| 0 <= i < data.strides_of().len() ==> 0 <= #[trigger] data.strides_of()[i],
        is_window(data, tdims, origin, w),
        position_in_bounds(tdims, q),
    ensures
        position_in_bounds(data.dims_of(), in_data(tdims, origin, q)),
        offset_of(tdims, q, w.strides_of()) < w.buffer_view().len(),
        w.buffer_view()[offset_of(tdims, q, w.strides_of())] == data.buffer_view()[offset_of(
            data.dims_of(),
            in_data(tdims, origin, q),
            data.strides_of(),
        )],
{
    let d = data.dims_of();
    let st = data.strides_of();
    error::lemma_layout_ok_bounds(d, st);
    lemma_window_offsets(d, st, tdims, origin, q, d.len());
    let u = in_data(tdims, origin, q);
    assert forall|i: int| 0 <= i < d.len() implies #[trigger] coord_in_bounds(d[i] as int, u[i] as int) by {
        assert(coord_in_bounds(tdims[i] as int, q[i] as int));
        assert(0 <= origin[i] && origin[i] + tdims[i] <= d[i]);
    }
    position::lemma_offset_below_len(d, u, st);
    let o = offset_of(d, origin, st);
    assert forall|i: int| 0 <= i < d.len() implies #[trigger] coord_in_bounds(d[i] as int, origin[i] as int) by {
        assert(0 <= origin[i] && origin[i] < d[i]);
    }
    position::lemma_offset_below_len(d, origin, st);
    position::lemma_offset_below_len(tdims, q, st);
}

/// `y` is what `f` may give for the window of `data` at some placement of `template`.
pub open spec fn placed_result<'a, E, X, Y, F: Fn(&ViewRef<'a, E>, &View<X>, Position) -> Y>(
    f: F,
    data: &View<E>,
    template: &View<X>,
    y: Y,
) -> bool {
    exists|origin: Seq<isize>|
        placement(data.dims_of(), template.dims_of(), origin) && #[trigger] window_at(f, data, template, origin, y)
}

/// The results of `compare_subtensors` cover the placements of the template exactly: every
/// placement of the template inside the data has a result for its window, and every result
/// is for the window at some placement. Along an axis there are `dim - tdim + 1` placements
/// (none if the template is longer), so a template dim of 1 gives one per coordinate.
pub proof fn law_windows_cover_every_placement<'a, E, X, Y, F: Fn(&ViewRef<'a, E>, &View<X>, Position) -> Y>(
    f: F,
    data: &View<E>,
    template: &View<X>,
    r: Seq<Y>,
)
    requires
        template.dims_of().len() == data.dims_of().len(),
        r.len() == count_of(window_dims(data.dims_of(), template.dims_of())),
        forall|k: int| 0 <= k < r.len() ==> #[trigger] window_result(f, data, template, k, r[k]),
    ensures
        forall|origin: Seq<isize>| #[trigger] placement(data.dims_of(), template.dims_of(), origin) ==> exists|k: int|
            0 <= k < r.len() && #[trigger] window_at(f, data, template, origin, r[k]),
        forall|k: int| 0 <= k < r.len() ==> #[trigger] placed_result(f, data, template, r[k]),
{
    let d = data.dims_of();
    let td = template.dims_of();
    let wd = window_dims(d, td);
    assert forall|origin: Seq<isize>| #[trigger] placement(d, td, origin) implies exists|k: int|
        0 <= k < r.len() && #[trigger] window_at(f, data, template, origin, r[k]) by {
        assert forall|i: int| 0 <= i < wd.len() implies #[trigger] coord_in_bounds(wd[i] as int, origin[i] as int) by {
            assert(0 <= origin[i] && origin[i] + td[i] <= d[i] && origin[i] < d[i]);
        }
        position::lemma_suffix_value_bounds(wd, origin, wd.len());
        let k = linear_index(wd, origin);
        assert(window_result(f, data, template, k, r[k]));
        let (w, p) = choose|w: ViewRef<'a, E>, p: Position| {
            &&& position_in_bounds(wd, p@)
            &&& linear_index(wd, p@) == k
            &&& forall|i: int| 0 <= i < p@.len() ==> #[trigger] p@[i] >= 0
            &&& is_window(*data, td, p@, w)
            &&& #[trigger] call_ensures(f, (&w, template, p), r[k])
        };
        position::lemma_linear_index_unique(wd, p@, origin);
        assert forall|i: int| 0 <= i < origin.len() implies p@[i] == origin[i] by {
            assert(position::norm_at(wd, p@, i) == position::norm_at(wd, origin, i));
            assert(p@[i] >= 0);
            assert(origin[i] >= 0);
        }
        assert(p@ =~= origin);
        assert(window_at(f, data, template, origin, r[k]));
    }
    assert forall|k: int| 0 <= k < r.len() implies #[trigger] placed_result(f, data, template, r[k]) by {
        assert(window_result(f, data, template, k, r[k]));
        let (w, p) = choose|w: ViewRef<'a, E>, p: Position| {
            &&& position_in_bounds(wd, p@)
            &&& linear_index(wd, p@) == k
            &&& forall|i: int| 0 <= i < p@.len() ==> #[trigger] p@[i] >= 0
            &&& is_window(*data, td, p@, w)
            &&& #[trigger] call_ensures(f, (&w, template, p), r[k])
        };
        assert forall|i: int| 0 <= i < d.len() implies 0 <= #[trigger] p@[i] && p@[i] + td[i] <= d[i] && p@[i] < d[i] by {
            assert(coord_in_bounds(wd[i] as int, p@[i] as int));
            assert(p@[i] >= 0);
        }
        assert(placement(d, td, p@));
        assert(window_at(f, data, template, p@, r[k]));
    }
}

/// Applies `f` to every window of `data` the size of `template` (every placement of the
/// template within the data), in walking order of the windows' origins, with the template and
/// the origin, and collects the results. The ranks must agree.
pub fn compare_subtensors<'a, E, X, Y, F: Fn(&ViewRef<'a, E>, &View<X>, Position) -> Y>(
    data: &'a View<E>,
    f: F,
    template: &View<X>,
) -> (r: Vec<Y>)
    requires
        data.valid(),
        template.dims_of().len() == data.dims_of().len(),
        forall|w: ViewRef<'a, E>, p: Position| call_requires(f, (&w, template, p)),
    ensures
        r@.len() == count_of(window_dims(data.dims_of(), template.dims_of())),
        forall|k: int| 0 <= k < r@.len() ==> #[trigger] window_result(f, data, template, k, r@[k]),
        forall|origin: Seq<isize>| #[trigger] placement(data.dims_of(), template.dims_of(), origin) ==> exists|k: int|
            0 <= k < r@.len() && #[trigger] window_at(f, data, template, origin, r@[k]),
        forall|k: int| 0 <= k < r@.len() ==> #[trigger] placed_result(f, data, template, r@[k]),
{
    proof {
        error::lemma_layout_ok_bounds(data.dims_of(), data.strides_of());
    }
    let ghost d = data.dims_of();
    let ghost td = template.dims_of();
    let layout = data.get_layout();
    let dims = layout.dims();
    let tlayout = template.get_layout();
    let tdims = tlayout.dims();
    let rank = dims.len();
    let mut wdv: Vec<usize> = Vec::new();
    let mut i: usize = 0;
    while i < rank
        invariant
            i <= rank == d.len() == td.len(),
            dims@ == d,
            tdims@ == td,
            wdv@ == window_dims(d, td).subrange(0, i as int),
        decreases rank - i,
    {
        let t = if tdims[i] >= 1 { tdims[i] - 1 } else { 0 };
        let w = if dims[i] >= t { dims[i] - t } else { 0 };
        wdv.push(w);
        i = i + 1;
    }
    let ghost wd = window_dims(d, td);
    assert(wdv@ =~= wd);
    proof {
        assert forall|j: int| 0 <= j < wd.len() implies #[trigger] wd[j] <= d[j] by {}
        lemma_suffix_count_le(wd, d, wd.len());
        assert forall|j: int| 0 <= j < wd.len() implies #[trigger] wd[j] <= isize::MAX by {
            assert(d[j] <= isize::MAX);
        }
    }
    let wcount = position::component_count(wdv.as_slice());
    let mut out: Vec<Y> = Vec::new();
    if wcount == 0 {
        proof {
            law_windows_cover_every_placement(f, data, template, out@);
        }
        return out;
    }
    let mut p = Position::new(rank);
    proof {
        position::lemma_zeros_in_bounds(wd, p@);
    }
    let ghost mut ws: Seq<ViewRef<'a, E>> = Seq::empty();
    let ghost mut qs: Seq<Position> = Seq::empty();
    let mut k: usize = 0;
    while k < wcount
        invariant
            rank == d.len() == td.len() == wd.len(),
            dims@ == d,
            tdims@ == td,
            wdv@ == wd,
            d == data.dims_of(),
            td == template.dims_of(),
            wd == window_dims(d, td),
            data.valid(),
            dims_fit_isize(d),
            dims_fit_isize(wd),
            wcount == count_of(wd),
            forall|w: ViewRef<'a, E>, q: Position| call_requires(f, (&w, template, q)),
            k <= wcount,
            out@.len() == k,
            ws.len() == k,
            qs.len() == k,
            position_in_bounds(wd, p@),
            forall|j: int| 0 <= j < p@.len() ==> #[trigger] p@[j] >= 0,
            k < wcount ==> linear_index(wd, p@) == k,
            forall|j: int| 0 <= j < k ==> {
                &&& position_in_bounds(wd, (#[trigger] qs[j])@)
                &&& linear_index(wd, qs[j]@) == j
                &&& forall|i: int| 0 <= i < qs[j]@.len() ==> #[trigger] qs[j]@[i] >= 0
                &&& is_window(*data, td, qs[j]@, ws[j])
                &&& call_ensures(f, (&ws[j], template, qs[j]), out@[j])
            },
        decreases wcount - k,
    {
        proof {
            lemma_window(d, data.strides_of(), data.buffer_view().len() as int, td, p@);
        }
        let mut ranges: Vec<AxisRange> = Vec::new();
        let mut j: usize = 0;
        while j < rank
            invariant
                j <= rank == d.len() == td.len() == p@.len(),
                dims@ == d,
                tdims@ == td,
                forall|a: int| 0 <= a < rank ==> p@[a] + #[trigger] td[a] <= d[a],
                forall|a: int| 0 <= a < rank ==> #[trigger] p@[a] >= 0,
                dims_fit_isize(d),
                ranges@ == window_ranges(p@, td).subrange(0, j as int),
            decreases rank - j,
        {
            let c = p.as_slice()[j];
            assert(p@[j as int] + td[j as int] <= d[j as int]);
            let e = c + tdims[j] as isize;
            ranges.push(AxisRange { start: RangeBound::Included(c), end: RangeBound::Excluded(e) });
            j = j + 1;
        }
        assert(ranges@ =~= window_ranges(p@, td));
        let w = data.view_ref().slice(ranges.as_slice());
        let q = p.clone();
        proof {
            ws = ws.push(w);
            qs = qs.push(q);
        }
        let y = f(&w, template, q);
        out.push(y);
        if k + 1 < wcount {
            let ghost before = p@;
            let c = p.increment(wdv.as_slice());
            proof {
                position::lemma_suffix_value_bounds(wd, p@, wd.len());
                position::lemma_no_wrap_up(linear_index(wd, p@), k as int, wcount as int, c as int, 1);
                assert forall|a: int| 0 <= a < p@.len() implies #[trigger] p@[a] >= 0 by {
                    assert((before[a] < 0) == (p@[a] < 0));
                }
            }
        }
        k = k + 1;
    }
    assert forall|kk: int| 0 <= kk < out@.len() implies #[trigger] window_result(f, data, template, kk, out@[kk]) by {
        assert(position_in_bounds(wd, qs[kk]@));
    }
    proof {
        law_windows_cover_every_placement(f, data, template, out@);
    }
    out
}


/// The position at place `k` of a walk over `dims`.
pub(crate) fn place(dims: &[usize], k: usize) -> (r: Position)
    requires
        dims_fit_isize(dims@),
        k < count_of(dims@),
    ensures
        position_in_bounds(dims@, r@),
        linear_index(dims@, r@) == k,
        position::from_start(r@),
{
    let mut p = Position::new(dims.len());
    proof {
        position::lemma_zeros_in_bounds(dims@, p@);
    }
    let ghost p0 = p@;
    let c = p.advance(dims, k);
    proof {
        position::lemma_signs_keep_ends(p0, p@);
        position::lemma_suffix_value_bounds(dims@, p@, dims@.len());
        let n = count_of(dims@);
        let l = linear_index(dims@, p@);
        assert(c == 0) by (nonlinear_arith)
            requires
                l + n * c == k,
                0 <= l < n,
                0 <= k < n,
                c >= 0,
        ;
    }
    p
}

/// The last place of a full iteration over `dims`, as a reverse walk reaches it first: every
/// coordinate is -1, counted from the end of its axis.
pub(crate) fn last_place(dims: &[usize]) -> (r: Position)
    requires
        dims_fit_isize(dims@),
        count_of(dims@) > 0,
    ensures
        position_in_bounds(dims@, r@),
        linear_index(dims@, r@) == count_of(dims@) - 1,
        position::from_end(r@),
{
    let rank = dims.len();
    let mut v: Vec<isize> = Vec::new();
    let mut i: usize = 0;
    while i < rank
        invariant
            i <= rank,
            v@ == Seq::new(i as nat, |j: int| -1isize),
        decreases rank - i,
    {
        v.push(-1);
        i = i + 1;
    }
    proof {
        position::lemma_count_pos_no_zero(dims@);
        assert forall|i: int| 0 <= i < dims@.len() implies #[trigger] position::coord_in_bounds(dims@[i] as int, v@[i] as int) by {
            assert(dims@[i] >= 1);
        }
        position::lemma_end_position(dims@, v@, dims@.len());
    }
    Position::try_from_coordinates(v.as_slice()).unwrap()
}

/// The position one place before `p`, which is not the first place.
pub(crate) fn place_before(dims: &[usize], p: &Position) -> (r: Position)
    requires
        dims_fit_isize(dims@),
        position_in_bounds(dims@, p@),
        linear_index(dims@, p@) > 0,
    ensures
        position_in_bounds(dims@, r@),
        linear_index(dims@, r@) == linear_index(dims@, p@) - 1,
        position::same_signs(p@, r@),
        position::from_start(p@) ==> position::from_start(r@),
        position::from_end(p@) ==> position::from_end(r@),
{
    let mut q = p.clone();
    let c = q.decrement(dims);
    proof {
        position::lemma_signs_keep_ends(p@, q@);
        position::lemma_suffix_value_bounds(dims@, q@, dims@.len());
        position::lemma_suffix_value_bounds(dims@, p@, dims@.len());
        let n = count_of(dims@);
        let l = linear_index(dims@, q@);
        let k = linear_index(dims@, p@);
        assert(c == 0) by (nonlinear_arith)
            requires
                l - n * c == k - 1,
                0 <= l < n,
                0 < k < n,
                c >= 0,
        ;
    }
    q
}

/// The position one past the last along the first axis.
fn end_place(dims: &[usize]) -> (r: Position)
    requires
        dims@.len() > 0,
        dims_fit_isize(dims@),
    ensures
        r@ == end_position(dims@),
        position::from_start(r@),
{
    let mut e = Position::new(dims.len());
    let d0 = dims[0] as isize;
    e.as_mut_slice()[0] = d0;
    assert(e@ =~= end_position(dims@));
    e
}

/// Some position at place `k` of a walk over `dims` was checked, and the check gave `o`.
pub open spec fn checked_as<F: Fn(Position) -> Option<core::cmp::Ordering>>(
    check: F,
    dims: Seq<usize>,
    k: int,
    o: Option<core::cmp::Ordering>,
) -> bool {
    exists|q: Position| #[trigger] call_ensures(check, (q,), o) && position_in_bounds(dims, q@) && linear_index(dims, q@) == k
}

/// Place `k` counts as before the query: its check gave `Less`, or gave nothing (a failed
/// comparison takes the ordering of the nearest earlier success, or `Less`).
pub open spec fn below_query<F: Fn(Position) -> Option<core::cmp::Ordering>>(check: F, dims: Seq<usize>, k: int) -> bool {
    checked_as(check, dims, k, Some(core::cmp::Ordering::Less)) || checked_as(check, dims, k, None)
}

/// The position one past the last along the first axis: `dims[0]` there, 0 elsewhere.
pub open spec fn end_position(dims: Seq<usize>) -> Seq<isize> {
    Seq::new(dims.len(), |i: int| if i == 0 { dims[0] as isize } else { 0isize })
}

/// Binary search over the positions of a tensor with the given dims, in last-axis-fastest
/// order. `check(p)` compares the component at `p` with the query. A failed comparison takes
/// the ordering of the nearest successful one before it within the searched range, or `Less`.
/// `Ok(p)`: the check at `p` gave `Equal`. `Err(p)`: no equal component was found, and `p` is
/// where the query would go: the place before it counted as less and the check at `p` gave
/// `Greater`, or `p` is one past the last position (`dims[0]` on the first axis, 0 elsewhere).
/// A tensor with a zero dim gives `Err` of the zero position; a scalar gives `Ok([])` if its
/// check gives `Equal`, else `Err([])`.
pub fn binary_search_by<F: Fn(Position) -> Option<core::cmp::Ordering>>(check: F, dims: &[usize]) -> (r: Result<Position, Position>)
    requires
        dims_fit_isize(dims@),
        count_of(dims@) <= usize::MAX,
        forall|p: Position| call_requires(check, (p,)),
    ensures
        dims@.contains(0) ==> (r matches Err(p) && p@ == Seq::new(dims@.len(), |i: int| 0isize)),
        !dims@.contains(0) && dims@.len() == 0 ==> (r matches Ok(p) ==> p@.len() == 0 && checked_as(check, dims@, 0, Some(core::cmp::Ordering::Equal))),
        !dims@.contains(0) && dims@.len() == 0 ==> (r matches Err(p) ==> p@.len() == 0 && exists|o: Option<core::cmp::Ordering>|
            o != Some(core::cmp::Ordering::Equal) && #[trigger] checked_as(check, dims@, 0, o)),
        !dims@.contains(0) && dims@.len() > 0 ==> (r matches Ok(p) ==> position_in_bounds(dims@, p@) && checked_as(check, dims@, linear_index(dims@, p@), Some(core::cmp::Ordering::Equal))),
        r matches Ok(p) ==> exists|q: Position| q@ == p@ && #[trigger] call_ensures(check, (q,), Some(core::cmp::Ordering::Equal)),
        r matches Ok(p) ==> position::from_start(p@),
        r matches Err(p) ==> position::from_start(p@),
        !dims@.contains(0) && dims@.len() > 0 ==> (r matches Err(p) ==> {
            ||| p@ == end_position(dims@) && below_query(check, dims@, count_of(dims@) - 1)
            ||| position_in_bounds(dims@, p@) && checked_as(check, dims@, linear_index(dims@, p@), Some(core::cmp::Ordering::Greater))
                && (linear_index(dims@, p@) == 0 || below_query(check, dims@, linear_index(dims@, p@) - 1))
        }),
{
    let rank = dims.len();
    if position::dims_contain_zero(dims) {
        let z = Position::new(rank);
        assert(position::from_start(z@));
        return Err(z);
    }
    if rank == 0 {
        let p = Position::new(0);
        let q = Position::new(0);
        let ghost gq = q;
        let c = check(q);
        proof {
            assert(position_in_bounds(dims@, gq@));
            assert(linear_index(dims@, gq@) == 0);
            assert(checked_as(check, dims@, 0, c));
        }
        return match c {
            Some(core::cmp::Ordering::Equal) => {
                assert(gq@ == p@ && call_ensures(check, (gq,), Some(core::cmp::Ordering::Equal)));
                Ok(p)
            },
            _ => Err(p),
        };
    }
    proof {
        assert forall|i: int| 0 <= i < dims@.len() implies #[trigger] dims@[i] >= 1 by {
            if dims@[i] == 0 {
                assert(dims@.contains(0));
            }
        }
        position::lemma_suffix_count_pos(dims@, dims@.len());
    }
    let count = position::component_count(dims);
    let mut lo: usize = 0;
    let mut hi: usize = count;
    while lo < hi
        invariant
            dims_fit_isize(dims@),
            !dims@.contains(0),
            count == count_of(dims@),
            count >= 1,
            forall|p: Position| call_requires(check, (p,)),
            lo <= hi <= count,
            lo == 0 || below_query(check, dims@, lo - 1),
            hi == count || checked_as(check, dims@, wide(hi), Some(core::cmp::Ordering::Greater)),
        decreases hi - lo,
    {
        let mid = lo + (hi - lo) / 2;
        let pm = place(dims, mid);
        let q = pm.clone();
        let ghost gq = q;
        match check(q) {
            Some(core::cmp::Ordering::Equal) => {
                assert(gq@ == pm@ && call_ensures(check, (gq,), Some(core::cmp::Ordering::Equal)));
                return Ok(pm);
            },
            Some(core::cmp::Ordering::Less) => {
                lo = mid + 1;
            },
            Some(core::cmp::Ordering::Greater) => {
                hi = mid;
            },
            None => {
                let mut j = mid;
                let mut pj = pm.clone();
                let mut found = false;
                while j > lo
                    invariant_except_break
                        !found,
                    invariant
                        dims_fit_isize(dims@),
                        !dims@.contains(0),
                        count == count_of(dims@),
                        forall|p: Position| call_requires(check, (p,)),
                        lo <= j <= mid < hi <= count,
                        position_in_bounds(dims@, pj@),
                        position::from_start(pj@),
                        linear_index(dims@, pj@) == j,
                    ensures
                        found ==> lo <= j < mid && checked_as(check, dims@, wide(j), Some(core::cmp::Ordering::Greater)),
                    decreases j,
                {
                    pj = place_before(dims, &pj);
                    j = j - 1;
                    let qj = pj.clone();
                    let ghost gqj = qj;
                    match check(qj) {
                        Some(core::cmp::Ordering::Equal) => {
                            assert(gqj@ == pj@ && call_ensures(check, (gqj,), Some(core::cmp::Ordering::Equal)));
                            return Ok(pj);
                        },
                        Some(core::cmp::Ordering::Less) => {
                            break;
                        },
                        Some(core::cmp::Ordering::Greater) => {
                            found = true;
                            break;
                        },
                        None => {},
                    }
                }
                if found {
                    hi = j;
                } else {
                    lo = mid + 1;
                }
            },
        }
    }
    if lo == count {
        Err(end_place(dims))
    } else {
        Err(place(dims, lo))
    }
}

} // verus!
