//! Nearest matches of a query among a tensor's components: ceilings, floors and an
//! Excel-style match.
use crate::error;
use crate::match_tensor::{last_place, len_of, place, place_before, wide};
use crate::position::{
    self, buffer_len_of, count_of, dims_fit_isize, linear_index, position_in_bounds, Position,
};
use crate::tensor::{components_in, View};
use core::cmp::Ordering;
use vstd::prelude::*;
use vstd::std_specs::cmp::PartialOrdSpec;
use vstd::view::View as _;

verus! {

/// The order between the two types follows its specification.
pub open spec fn orders<E: PartialOrd<X>, X>() -> bool {
    E::obeys_partial_cmp_spec()
}

/// How `e` compares with `x`, by the specification of their order.
pub open spec fn order_of<E: PartialOrd<X>, X>(e: E, x: X) -> Option<Ordering> {
    e.partial_cmp_spec(&x)
}

/// `e` is at least `x` (or, with `above` false, at most `x`).
pub open spec fn on_side<E: PartialOrd<X>, X>(e: E, x: X, above: bool) -> bool {
    if above {
        order_of(e, x) matches Some(Ordering::Greater | Ordering::Equal)
    } else {
        order_of(e, x) matches Some(Ordering::Less | Ordering::Equal)
    }
}

/// `a` lies strictly further out than `b` (greater, or with `above` false, less).
pub open spec fn further<E: PartialOrd<E>>(a: E, b: E, above: bool) -> bool {
    order_of(a, b) == if above { Some(Ordering::Greater) } else { Some(Ordering::Less) }
}

/// `a` lies at or beyond `b` toward the `above` side: further, or equal.
pub open spec fn reaches<E: PartialOrd<E>>(a: E, b: E, above: bool) -> bool {
    further::<E>(a, b, above) || order_of(a, b) == Some(Ordering::Equal)
}

/// The order of `E` behaves as a total order toward the `above` side: of two elements, when
/// the first does not lie further than the second, the second reaches the first; and lying
/// further carries through reaching, on either side.
pub open spec fn total_toward<E: PartialOrd<E>>(above: bool) -> bool {
    &&& forall|a: E, b: E| !#[trigger] further::<E>(a, b, above) ==> reaches::<E>(b, a, above)
    &&& forall|a: E, b: E, c: E|
        #![trigger further::<E>(a, b, above), reaches::<E>(b, c, above)]
        further::<E>(a, b, above) && reaches::<E>(b, c, above) ==> further::<E>(a, c, above)
    &&& forall|a: E, b: E, c: E|
        #![trigger reaches::<E>(a, b, above), further::<E>(b, c, above)]
        reaches::<E>(a, b, above) && further::<E>(b, c, above) ==> further::<E>(a, c, above)
}

/// Under a total order, every element before place `m` on the `above` side of `x` lies
/// strictly further than the one at `m`.
pub open spec fn earlier_further<E: PartialOrd<E> + PartialOrd<X>, X>(comps: Seq<E>, x: X, above: bool, m: int) -> bool {
    total_toward::<E>(above) ==> forall|j: int|
        0 <= j < m && on_side::<E, X>(#[trigger] comps[j], x, above) ==> further::<E>(comps[j], comps[m], above)
}

/// Place `m` holds the nearest component on the `above` side of `x` among places `0..k`: it
/// is on that side, no later one on that side lies nearer than it, and (when the order is
/// total) every earlier one on that side lies strictly further: it is the nearest, the first
/// of equals.
pub open spec fn nearest_upto<E: PartialOrd<E> + PartialOrd<X>, X>(comps: Seq<E>, x: X, above: bool, m: int, k: int) -> bool {
    &&& 0 <= m < k
    &&& on_side::<E, X>(comps[m], x, above)
    &&& forall|j: int| m < j < k && on_side::<E, X>(#[trigger] comps[j], x, above) ==> !further::<E>(comps[m], comps[j], above)
    &&& earlier_further::<E, X>(comps, x, above, m)
}

/// No component among places `0..k` is on the `above` side of `x`.
pub open spec fn none_on_side<E: PartialOrd<X>, X>(comps: Seq<E>, x: X, above: bool, k: int) -> bool {
    forall|j: int| 0 <= j < k ==> !on_side::<E, X>(#[trigger] comps[j], x, above)
}

/// The buffer offset and position of the nearest component on the `above` side of `x`
/// (the least at least `x`, or the greatest at most `x`), walking the positions in order and
/// keeping the first of equals.
fn nearest<E: PartialOrd<E> + PartialOrd<X>, X>(e: &View<E>, x: &X, above: bool) -> (r: Option<(usize, Position)>)
    requires
        e.valid(),
    ensures
        r matches Some((o, p)) ==> o < e.buffer_view().len() && position_in_bounds(e.dims_of(), p@)
            && position::from_start(p@)
            && e.buffer_view()[wide(o)] == e.components()[linear_index(e.dims_of(), p@)],
        orders::<E, X>() && orders::<E, E>() ==> match r {
            None => none_on_side::<E, X>(e.components(), *x, above, count_of(e.dims_of())),
            Some((o, p)) => nearest_upto::<E, X>(e.components(), *x, above, linear_index(e.dims_of(), p@), count_of(e.dims_of())),
        },
{
    proof {
        error::lemma_layout_ok_bounds(e.dims_of(), e.strides_of());
    }
    let ghost comps = e.components();
    let ghost d = e.dims_of();
    let ghost st = e.strides_of();
    let layout = e.get_layout();
    let dims = layout.dims();
    let strides = layout.strides();
    let count = layout.count();
    let buf = e.buf();
    let n = buf.len();
    let mut best: Option<(usize, Position)> = None;
    if count == 0 {
        return None;
    }
    let mut p = Position::new(dims.len());
    proof {
        position::lemma_zeros_in_bounds(dims@, p@);
    }
    let mut k: usize = 0;
    while k < count
        invariant
            dims@ == d,
            strides@ == st,
            d.len() == st.len(),
            dims_fit_isize(d),
            count == count_of(d),
            buffer_len_of(d, st) <= n == buf@.len(),
            comps == components_in(d, st, buf@),
            k <= count,
            best matches Some((o, q)) ==> o < n && position_in_bounds(d, q@) && buf@[wide(o)] == comps[linear_index(d, q@)]
                && position::from_start(q@)
                && linear_index(d, q@) < k,
            orders::<E, X>() && orders::<E, E>() ==> match best {
                None => none_on_side::<E, X>(comps, *x, above, wide(k)),
                Some((o, q)) => nearest_upto::<E, X>(comps, *x, above, linear_index(d, q@), wide(k)),
            },
            position_in_bounds(d, p@),
            position::from_start(p@),
            k < count ==> linear_index(d, p@) == k,
        decreases count - k,
    {
        proof {
            position::lemma_offset_below_len(d, p@, st);
            position::lemma_flat_offset(d, st, p@);
        }
        let o = position::compute_offset(dims, p.as_slice(), strides);
        let c = &buf[o];
        let side = if above { *c >= *x } else { *c <= *x };
        if side {
            let replace = match &best {
                None => true,
                Some((bo, _)) => if above { buf[*bo] > *c } else { buf[*bo] < *c },
            };
            if replace {
                proof {
                    let kk = wide(k);
                    if orders::<E, X>() && orders::<E, E>() && total_toward::<E>(above) {
                        match best {
                            None => {},
                            Some((bo, bq)) => {
                                let m = linear_index(d, bq@);
                                assert(further::<E>(comps[m], comps[kk], above));
                                assert forall|j: int| 0 <= j < kk && on_side::<E, X>(#[trigger] comps[j], *x, above)
                                    implies further::<E>(comps[j], comps[kk], above) by {
                                    if j < m {
                                        assert(further::<E>(comps[j], comps[m], above));
                                        assert(reaches::<E>(comps[m], comps[kk], above));
                                    } else if j > m {
                                        assert(!further::<E>(comps[m], comps[j], above));
                                        assert(reaches::<E>(comps[j], comps[m], above));
                                    }
                                }
                            },
                        }
                    }
                }
                best = Some((o, p.clone()));
            }
        }
        if k + 1 < count {
            let ghost p0 = p@;
            let carry = p.increment(dims);
            proof {
                position::lemma_signs_keep_ends(p0, p@);
                position::lemma_suffix_value_bounds(d, p@, d.len());
                position::lemma_no_wrap_up(linear_index(d, p@), wide(k), wide(count), wide(carry), 1);
            }
        }
        k = k + 1;
    }
    best
}

/// The least component at least `x`, the first of equals in walking order; `None` if there
/// is none. The tensor must be valid.
pub fn ceil<'a, E: PartialOrd<E> + PartialOrd<X>, X>(e: &'a View<E>, x: &X) -> (r: Option<&'a E>)
    requires
        e.valid(),
    ensures
        orders::<E, X>() && orders::<E, E>() ==> match r {
            None => none_on_side::<E, X>(e.components(), *x, true, count_of(e.dims_of())),
            Some(c) => exists|m: int| nearest_upto::<E, X>(e.components(), *x, true, m, count_of(e.dims_of())) && *c == e.components()[m],
        },
{
    match nearest(e, x, true) {
        None => None,
        Some((o, _)) => Some(&e.buf()[o]),
    }
}

/// The least component at least `x` and its position, as `ceil` finds it.
pub fn ceil_index<'a, E: PartialOrd<E> + PartialOrd<X>, X>(e: &'a View<E>, x: &X) -> (r: Option<(&'a E, Position)>)
    requires
        e.valid(),
    ensures
        r matches Some((c, p)) ==> position_in_bounds(e.dims_of(), p@) && position::from_start(p@),
        orders::<E, X>() && orders::<E, E>() ==> match r {
            None => none_on_side::<E, X>(e.components(), *x, true, count_of(e.dims_of())),
            Some((c, p)) => position_in_bounds(e.dims_of(), p@) && position::from_start(p@) && nearest_upto::<E, X>(e.components(), *x, true, linear_index(e.dims_of(), p@), count_of(e.dims_of()))
                && *c == e.components()[linear_index(e.dims_of(), p@)],
        },
{
    match nearest(e, x, true) {
        None => None,
        Some((o, p)) => Some((&e.buf()[o], p)),
    }
}

/// The greatest component at most `x`, the first of equals in walking order; `None` if there
/// is none. The tensor must be valid.
pub fn floor<'a, E: PartialOrd<E> + PartialOrd<X>, X>(e: &'a View<E>, x: &X) -> (r: Option<&'a E>)
    requires
        e.valid(),
    ensures
        orders::<E, X>() && orders::<E, E>() ==> match r {
            None => none_on_side::<E, X>(e.components(), *x, false, count_of(e.dims_of())),
            Some(c) => exists|m: int| nearest_upto::<E, X>(e.components(), *x, false, m, count_of(e.dims_of())) && *c == e.components()[m],
        },
{
    match nearest(e, x, false) {
        None => None,
        Some((o, _)) => Some(&e.buf()[o]),
    }
}

/// The greatest component at most `x` and its position, as `floor` finds it.
pub fn floor_index<'a, E: PartialOrd<E> + PartialOrd<X>, X>(e: &'a View<E>, x: &X) -> (r: Option<(&'a E, Position)>)
    requires
        e.valid(),
    ensures
        r matches Some((c, p)) ==> position_in_bounds(e.dims_of(), p@) && position::from_start(p@),
        orders::<E, X>() && orders::<E, E>() ==> match r {
            None => none_on_side::<E, X>(e.components(), *x, false, count_of(e.dims_of())),
            Some((c, p)) => position_in_bounds(e.dims_of(), p@) && position::from_start(p@) && nearest_upto::<E, X>(e.components(), *x, false, linear_index(e.dims_of(), p@), count_of(e.dims_of()))
                && *c == e.components()[linear_index(e.dims_of(), p@)],
        },
{
    match nearest(e, x, false) {
        None => None,
        Some((o, p)) => Some((&e.buf()[o], p)),
    }
}


/// The coordinates a walk gives: counted from the start of each axis going forwards, from
/// the end going backwards.
pub open spec fn walk_coords(forward: bool, p: Seq<isize>) -> bool {
    if forward {
        position::from_start(p)
    } else {
        position::from_end(p)
    }
}

/// The place visited at step `t` of a walk over `count` places, forwards or backwards.
pub open spec fn walk_place(count: int, forward: bool, t: int) -> int {
    if forward { t } else { count - 1 - t }
}

/// `e` qualifies as a match candidate in match mode `mmode`: it compares with the query, and
/// is not below it for mode 1 nor above it for mode -1.
pub open spec fn qualifies<E: PartialOrd<X>, X>(e: E, x: X, mmode: i32) -> bool {
    &&& order_of(e, x) is Some
    &&& mmode > 0 ==> order_of(e, x) != Some(Ordering::Less)
    &&& mmode < 0 ==> order_of(e, x) != Some(Ordering::Greater)
}

/// A candidate `b` is replaced by `e` in match mode `mmode`: a nearer ceiling or floor.
pub open spec fn displaces<E: PartialOrd<E>>(b: E, e: E, mmode: i32) -> bool {
    ||| mmode > 0 && order_of(b, e) == Some(Ordering::Greater)
    ||| mmode < 0 && order_of(b, e) == Some(Ordering::Less)
}

/// Walking steps `0..k` (visiting `walk_place`), step `s` gave the candidate: it qualified,
/// and no later qualifying step displaced it; no step was an exact match.
pub open spec fn match_upto<E: PartialOrd<E> + PartialOrd<X>, X>(comps: Seq<E>, x: X, mmode: i32, forward: bool, s: int, k: int) -> bool {
    let n = len_of(comps);
    &&& 0 <= s < k
    &&& qualifies::<E, X>(comps[walk_place(n, forward, s)], x, mmode)
    &&& forall|t: int| s < t < k && qualifies::<E, X>(#[trigger] comps[walk_place(n, forward, t)], x, mmode)
        ==> !displaces::<E>(comps[walk_place(n, forward, s)], comps[walk_place(n, forward, t)], mmode)
    &&& forall|t: int| 0 <= t < s && qualifies::<E, X>(#[trigger] comps[walk_place(n, forward, t)], x, mmode) ==> mmode != 0
    &&& mmode != 0 && total_toward::<E>(mmode > 0) ==> forall|t: int|
        0 <= t < s && qualifies::<E, X>(#[trigger] comps[walk_place(n, forward, t)], x, mmode) ==> further::<E>(
            comps[walk_place(n, forward, t)],
            comps[walk_place(n, forward, s)],
            mmode > 0,
        )
}

/// No step among `0..k` of the walk was an exact match.
pub open spec fn no_equal_upto<E: PartialOrd<X>, X>(comps: Seq<E>, x: X, forward: bool, k: int) -> bool {
    forall|t: int| 0 <= t < k ==> order_of(#[trigger] comps[walk_place(len_of(comps), forward, t)], x) != Some(Ordering::Equal)
}

/// No step among `0..k` of the walk qualified.
pub open spec fn none_qualify_upto<E: PartialOrd<X>, X>(comps: Seq<E>, x: X, mmode: i32, forward: bool, k: int) -> bool {
    forall|t: int| 0 <= t < k ==> !qualifies::<E, X>(#[trigger] comps[walk_place(len_of(comps), forward, t)], x, mmode)
}

/// Step `s` of the walk gives the match: the first exact match, or, with none at all, the
/// candidate of `match_upto`.
pub open spec fn matched_at<E: PartialOrd<E> + PartialOrd<X>, X>(comps: Seq<E>, x: X, mmode: i32, smode: i32, s: int) -> bool {
    let n = len_of(comps);
    let forward = smode > 0;
    ||| 0 <= s < n && no_equal_upto::<E, X>(comps, x, forward, s) && order_of(comps[walk_place(n, forward, s)], x) == Some(Ordering::Equal)
    ||| no_equal_upto::<E, X>(comps, x, forward, n) && match_upto::<E, X>(comps, x, mmode, forward, s, n)
}

/// With no exact match and a total order, a floor match (mode -1) is a component below the
/// query and a ceiling match (mode 1) one above it; no component on that side of the query
/// met later in the walk lies nearer to it, and every one met earlier lies strictly further:
/// the match is the nearest, the first met of equals.
pub proof fn law_match_is_nearest<E: PartialOrd<E> + PartialOrd<X>, X>(comps: Seq<E>, x: X, mmode: i32, smode: i32, forward: bool, s: int)
    requires
        mmode == 1 || mmode == -1,
        smode != 0,
        forward == (smode > 0),
        total_toward::<E>(mmode > 0),
        no_equal_upto::<E, X>(comps, x, forward, len_of(comps)),
        matched_at::<E, X>(comps, x, mmode, smode, s),
    ensures
        ({
            let n = len_of(comps);
            let c = comps[walk_place(n, forward, s)];
            &&& 0 <= s < n
            &&& order_of(c, x) == if mmode > 0 { Some(Ordering::Greater) } else { Some(Ordering::Less) }
            &&& forall|t: int| s < t < n && qualifies::<E, X>(#[trigger] comps[walk_place(n, forward, t)], x, mmode)
                ==> !further::<E>(c, comps[walk_place(n, forward, t)], mmode > 0)
            &&& forall|t: int| 0 <= t < s && qualifies::<E, X>(#[trigger] comps[walk_place(n, forward, t)], x, mmode)
                ==> further::<E>(comps[walk_place(n, forward, t)], c, mmode > 0)
        }),
{
    let n = len_of(comps);
    let fwd = smode > 0;
    if 0 <= s < n && order_of(comps[walk_place(n, fwd, s)], x) == Some(Ordering::Equal) {
        assert(order_of(comps[walk_place(n, fwd, s)], x) != Some(Ordering::Equal));
    }
    assert(match_upto::<E, X>(comps, x, mmode, fwd, s, n));
    assert(order_of(comps[walk_place(n, fwd, s)], x) != Some(Ordering::Equal));
}

/// Excel-style match of `query` among the components, walking forwards (`smode` 1) or
/// backwards (`smode` -1); with `smode` 0 nothing is walked. The first exact match wins.
/// Otherwise match mode 1 gives the least component above the query, -1 the greatest below it,
/// and 0 the first component that compares with it; each the first found of equals.
/// Incomparable components are skipped. Modes of magnitude 2 are not supported.
pub fn xmatch<E: PartialOrd<E> + PartialOrd<X>, X>(query: &X, values: &View<E>, mmode: i32, smode: i32) -> (r: Option<Position>)
    requires
        values.valid(),
        mmode != 2 && mmode != -2,
        smode != 2 && smode != -2,
    ensures
        smode == 0 ==> r is None,
        r matches Some(p) ==> position_in_bounds(values.dims_of(), p@) && walk_coords(smode > 0, p@),
        orders::<E, X>() && orders::<E, E>() && smode != 0 && r is None ==> no_equal_upto::<E, X>(
            values.components(),
            *query,
            smode > 0,
            count_of(values.dims_of()),
        ) && none_qualify_upto::<E, X>(values.components(), *query, mmode, smode > 0, count_of(values.dims_of())),
        orders::<E, X>() && orders::<E, E>() && smode != 0 ==> (r matches Some(p) ==> exists|s: int| #[trigger] matched_at::<E, X>(values.components(), *query, mmode, smode, s)
            && walk_place(count_of(values.dims_of()), smode > 0, s) == linear_index(values.dims_of(), p@)),
{
    proof {
        error::lemma_layout_ok_bounds(values.dims_of(), values.strides_of());
        position::lemma_suffix_count_pos_any(values.dims_of(), values.dims_of().len());
    }
    if smode == 0 {
        return None;
    }
    let forward = smode > 0;
    let ghost comps = values.components();
    let ghost d = values.dims_of();
    let ghost st = values.strides_of();
    let layout = values.get_layout();
    let dims = layout.dims();
    let strides = layout.strides();
    let count = layout.count();
    if count == 0 {
        return None;
    }
    let buf = values.buf();
    let n = buf.len();
    let mut p = if forward { place(dims, 0) } else { last_place(dims) };
    let mut best: Option<(usize, Position)> = None;
    let ghost mut s: int = 0;
    let mut t: usize = 0;
    while t < count
        invariant
            dims@ == d,
            strides@ == st,
            d.len() == st.len(),
            dims_fit_isize(d),
            count == count_of(d),
            count == comps.len(),
            buffer_len_of(d, st) <= n == buf@.len(),
            comps == components_in(d, st, buf@),
            forward == (smode > 0),
            smode != 0,
            d == values.dims_of(),
            comps == values.components(),
            t <= count,
            position_in_bounds(d, p@),
            walk_coords(forward, p@),
            best matches Some((o, q)) ==> walk_coords(forward, q@),
            t < count ==> linear_index(d, p@) == walk_place(wide(count), forward, wide(t)),
            best matches Some((o, q)) ==> o < n && position_in_bounds(d, q@) && 0 <= s < t
                && linear_index(d, q@) == walk_place(wide(count), forward, s)
                && buf@[wide(o)] == comps[walk_place(wide(count), forward, s)],
            orders::<E, X>() && orders::<E, E>() ==> no_equal_upto::<E, X>(comps, *query, forward, wide(t)),
            orders::<E, X>() && orders::<E, E>() ==> match best {
                None => none_qualify_upto::<E, X>(comps, *query, mmode, forward, wide(t)),
                Some(_) => match_upto::<E, X>(comps, *query, mmode, forward, s, wide(t)),
            },
        decreases count - t,
    {
        proof {
            position::lemma_offset_below_len(d, p@, st);
            position::lemma_flat_offset(d, st, p@);
        }
        let o = position::compute_offset(dims, p.as_slice(), strides);
        let e = &buf[o];
        let c = e.partial_cmp(query);
        let keep = match c {
            None => false,
            Some(Ordering::Equal) => {
                proof {
                    let nn = count_of(values.dims_of());
                    let fwd = smode > 0;
                    assert(walk_place(nn, fwd, wide(t)) == linear_index(values.dims_of(), p@));
                    if orders::<E, X>() && orders::<E, E>() {
                        assert(order_of(comps[walk_place(nn, fwd, wide(t))], *query) == Some(Ordering::Equal));
                        assert(matched_at::<E, X>(comps, *query, mmode, smode, wide(t)));
                    }
                }
                return Some(p);
            },
            Some(Ordering::Greater) => mmode >= 0,
            Some(Ordering::Less) => mmode <= 0,
        };
        if keep {
            let replace = match &best {
                None => true,
                Some((bo, _)) => (mmode > 0 && buf[*bo] > *e) || (mmode < 0 && buf[*bo] < *e),
            };
            if replace {
                proof {
                    let nn = wide(count);
                    let tt = wide(t);
                    let up = mmode > 0;
                    if orders::<E, X>() && orders::<E, E>() && mmode != 0 && total_toward::<E>(up) {
                        match best {
                            None => {},
                            Some((bo, bq)) => {
                                let cs = comps[walk_place(nn, forward, s)];
                                let ct = comps[walk_place(nn, forward, tt)];
                                assert(further::<E>(cs, ct, up));
                                assert forall|j: int| 0 <= j < tt && qualifies::<E, X>(#[trigger] comps[walk_place(nn, forward, j)], *query, mmode)
                                    implies further::<E>(comps[walk_place(nn, forward, j)], ct, up) by {
                                    let cj = comps[walk_place(nn, forward, j)];
                                    if j < s {
                                        assert(further::<E>(cj, cs, up));
                                        assert(reaches::<E>(cs, ct, up));
                                    } else if j > s {
                                        assert(!displaces::<E>(cs, cj, mmode));
                                        assert(!further::<E>(cs, cj, up));
                                        assert(reaches::<E>(cj, cs, up));
                                    }
                                }
                            },
                        }
                    }
                }
                best = Some((o, p.clone()));
                proof {
                    s = wide(t);
                }
            }
        }
        if t + 1 < count {
            if forward {
                let ghost p0 = p@;
                let carry = p.increment(dims);
                proof {
                    position::lemma_signs_keep_ends(p0, p@);
                    position::lemma_suffix_value_bounds(d, p@, d.len());
                    position::lemma_no_wrap_up(linear_index(d, p@), wide(t), wide(count), wide(carry), 1);
                }
            } else {
                p = place_before(dims, &p);
            }
        }
        t = t + 1;
    }
    match best {
        None => None,
        Some((_, q)) => {
            proof {
                let fwd = smode > 0;
                let nn = count_of(values.dims_of());
                assert(walk_place(nn, fwd, s) == linear_index(values.dims_of(), q@));
                if orders::<E, X>() && orders::<E, E>() {
                    assert(no_equal_upto::<E, X>(comps, *query, fwd, nn) && match_upto::<E, X>(comps, *query, mmode, fwd, s, nn));
                    assert(matched_at::<E, X>(comps, *query, mmode, smode, s));
                }
            }
            Some(q)
        },
    }
}

} // verus!
