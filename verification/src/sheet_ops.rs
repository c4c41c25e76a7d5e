//! Spreadsheet-style lookups over tensors.
use crate::error;
use crate::match_tensor::{self, binary_search_by, last_place, len_of, place, place_before, wide};
use crate::position::{
    self, buffer_len_of, coord_in_bounds, count_of, dims_fit_isize, linear_index, offset_of,
    position_in_bounds, Position,
};
use crate::tensor::{components_in, View};
use crate::xmatch::{further, no_equal_upto, order_of, orders, reaches, total_toward, walk_coords, walk_place};
use core::cmp::Ordering;
use vstd::prelude::*;
use vstd::view::View as _;

verus! {

/// The ordering a component must have against the query to be a candidate: `Greater` for
/// match mode 1, `Less` for -1, none for 0.
pub open spec fn wanted(mmode: i32) -> Option<Ordering> {
    if mmode == 1 {
        Some(Ordering::Greater)
    } else if mmode == -1 {
        Some(Ordering::Less)
    } else {
        None
    }
}

/// `e` is a candidate for match mode `mmode`: the mode is 1 or -1, and `e` compares with the
/// query as it wants.
pub open spec fn is_wanted<X: PartialOrd<E>, E>(e: X, x: E, mmode: i32) -> bool {
    mmode != 0 && order_of(e, x) == wanted(mmode)
}

/// The mode given, or the default.
pub open spec fn mode_or(mode: Option<i32>, default: i32) -> i32 {
    match mode {
        Some(m) => m,
        None => default,
    }
}

/// Walking steps `0..k`, step `s` gave the candidate: its component compares with the query as
/// `wanted`; no later such component compares with it as `wanted` too (lies nearer); and, when
/// the order of the components is total, every earlier such component lies strictly further
/// than it. So it is the nearest candidate, the first of equals.
pub open spec fn lookup_upto<X: PartialOrd<E> + PartialOrd<X>, E>(comps: Seq<X>, x: E, mmode: i32, forward: bool, s: int, k: int) -> bool {
    let n = len_of(comps);
    &&& 0 <= s < k
    &&& is_wanted::<X, E>(comps[walk_place(n, forward, s)], x, mmode)
    &&& forall|t: int| s < t < k && is_wanted::<X, E>(#[trigger] comps[walk_place(n, forward, t)], x, mmode)
        ==> order_of(comps[walk_place(n, forward, s)], comps[walk_place(n, forward, t)]) != wanted(mmode)
    &&& total_toward::<X>(mmode == 1) ==> forall|t: int| 0 <= t < s && is_wanted::<X, E>(#[trigger] comps[walk_place(n, forward, t)], x, mmode)
        ==> further::<X>(comps[walk_place(n, forward, t)], comps[walk_place(n, forward, s)], mmode == 1)
}

/// With a total order, the candidate a walk keeps in match mode 1 (or -1) compares as above
/// (or below) the query; no candidate met later lies nearer to it, and every candidate met
/// earlier lies strictly further: it is the nearest, the first met of equals.
pub proof fn law_lookup_is_nearest<X: PartialOrd<E> + PartialOrd<X>, E>(comps: Seq<X>, x: E, mmode: i32, forward: bool, s: int)
    requires
        mmode == 1 || mmode == -1,
        total_toward::<X>(mmode == 1),
        lookup_upto::<X, E>(comps, x, mmode, forward, s, len_of(comps)),
    ensures
        ({
            let n = len_of(comps);
            let c = comps[walk_place(n, forward, s)];
            &&& 0 <= s < n
            &&& order_of(c, x) == if mmode == 1 { Some(Ordering::Greater) } else { Some(Ordering::Less) }
            &&& forall|t: int| s < t < n && is_wanted::<X, E>(#[trigger] comps[walk_place(n, forward, t)], x, mmode)
                ==> !further::<X>(c, comps[walk_place(n, forward, t)], mmode == 1)
            &&& forall|t: int| 0 <= t < s && is_wanted::<X, E>(#[trigger] comps[walk_place(n, forward, t)], x, mmode)
                ==> further::<X>(comps[walk_place(n, forward, t)], c, mmode == 1)
        }),
{
}

/// No component among steps `0..k` compares with the query as `wanted`.
pub open spec fn none_wanted_upto<X: PartialOrd<E>, E>(comps: Seq<X>, x: E, mmode: i32, forward: bool, k: int) -> bool {
    forall|t: int| 0 <= t < k ==> !is_wanted::<X, E>(#[trigger] comps[walk_place(len_of(comps), forward, t)], x, mmode)
}

/// Step `s` gives the lookup's match: the first exact match, or with none at all the candidate
/// of `lookup_upto`.
pub open spec fn looked_up_at<X: PartialOrd<E> + PartialOrd<X>, E>(comps: Seq<X>, x: E, mmode: i32, smode: i32, s: int) -> bool {
    let n = len_of(comps);
    let forward = smode > 0;
    ||| 0 <= s < n && no_equal_upto::<X, E>(comps, x, forward, s) && order_of(comps[walk_place(n, forward, s)], x) == Some(Ordering::Equal)
    ||| no_equal_upto::<X, E>(comps, x, forward, n) && lookup_upto::<X, E>(comps, x, mmode, forward, s, n)
}

/// `p` is a match `xmatch` may give for `x` among `values`: a position in bounds, its
/// coordinates counted from the end of each axis for a backwards walk (search mode -1) and
/// from the start otherwise; for a walk
/// (search modes 1 and -1), the place of a step that `looked_up_at` accepts; for a binary
/// search (2 and -2) of a tensor with at least one axis, a place `binary_match_at` accepts.
pub open spec fn lookup_found<X: PartialOrd<E> + PartialOrd<X>, E>(
    values: View<X>,
    x: E,
    mmode: Option<i32>,
    smode: Option<i32>,
    p: Seq<isize>,
) -> bool {
    let comps = values.components();
    let dims = values.dims_of();
    let sm = mode_or(smode, 1);
    let m = mode_or(mmode, 0);
    &&& position_in_bounds(dims, p)
    &&& walk_coords(sm != -1, p)
    &&& orders::<X, E>() && orders::<X, X>() && (sm == 1 || sm == -1) ==> exists|s: int|
        #[trigger] looked_up_at::<X, E>(comps, x, m, sm, s) && walk_place(count_of(dims), sm > 0, s) == linear_index(dims, p)
    &&& orders::<X, E>() && (sm == 2 || sm == -2) && dims.len() > 0 ==> binary_match_at::<X, E>(comps, x, m, sm < 0, linear_index(dims, p))
}

/// `xmatch` may find nothing for `x` among `values`: the tensor is empty; or a walk met no
/// equal component and no candidate; or a binary search, not on the floor side, found a place
/// where the query would go (after the last component, unless in exact mode) and no equal
/// component.
pub open spec fn lookup_missed<X: PartialOrd<E> + PartialOrd<X>, E>(values: View<X>, x: E, mmode: Option<i32>, smode: Option<i32>) -> bool {
    let comps = values.components();
    let dims = values.dims_of();
    let sm = mode_or(smode, 1);
    let m = mode_or(mmode, 0);
    let rev = sm < 0;
    ||| dims.contains(0)
    ||| {
        &&& orders::<X, E>() && orders::<X, X>() && (sm == 1 || sm == -1) ==> no_equal_upto::<X, E>(comps, x, sm > 0, count_of(dims))
            && none_wanted_upto::<X, E>(comps, x, m, sm > 0, count_of(dims))
        &&& orders::<X, E>() && (sm == 2 || sm == -2) && dims.len() > 0 ==> !floor_side(m, sm < 0)
            && exists|k: int| #[trigger] binary_gap::<X, E>(comps, x, rev, k) && (m != 0 ==> k == comps.len())
    }
}

/// The position of the component of `lookupvalues` that matches `lookupquery`. Match modes
/// (default 0): 0 exact, 1 the least component above the query, -1 the greatest below it.
/// Search modes (default 1): 1 forwards, -1 backwards, 2 binary over ascending components,
/// -2 binary over descending ones. An empty tensor gives `None`.
pub fn xmatch<E, X: PartialOrd<E> + PartialOrd<X>>(
    lookupquery: &E,
    lookupvalues: &View<X>,
    mmode: Option<i32>,
    smode: Option<i32>,
) -> (r: Option<Position>)
    requires
        lookupvalues.valid(),
        count_of(lookupvalues.dims_of()) <= usize::MAX,
        match mmode {
            Some(m) => -1 <= m <= 1,
            None => true,
        },
        match smode {
            Some(m) => m == 1 || m == -1 || m == 2 || m == -2,
            None => true,
        },
    ensures
        lookupvalues.dims_of().contains(0) ==> r is None,
        r matches Some(p) ==> lookup_found::<X, E>(*lookupvalues, *lookupquery, mmode, smode, p@),
        r is None ==> lookup_missed::<X, E>(*lookupvalues, *lookupquery, mmode, smode),
        ({
            let sm = mode_or(smode, 1);
            let comps = lookupvalues.components();
            orders::<X, E>() && (sm == 2 || sm == -2) && lookupvalues.dims_of().len() > 0
                && arranged_for::<X, E>(comps, *lookupquery, sm < 0) ==> (r matches Some(p) ==> on_wanted_side::<X, E>(
                comps[linear_index(lookupvalues.dims_of(), p@)],
                *lookupquery,
                mode_or(mmode, 0),
            ) || forall|j: int| 0 <= j < comps.len() ==> !#[trigger] on_wanted_side::<X, E>(comps[j], *lookupquery, mode_or(mmode, 0)))
        }),
        ({
            let sm = mode_or(smode, 1);
            let comps = lookupvalues.components();
            orders::<X, E>() && (sm == 2 || sm == -2) && lookupvalues.dims_of().len() > 0
                && arranged_for::<X, E>(comps, *lookupquery, sm < 0) && r is None ==> forall|j: int|
                0 <= j < comps.len() ==> !#[trigger] on_wanted_side::<X, E>(comps[j], *lookupquery, mode_or(mmode, 0))
        }),
{
    proof {
        error::lemma_layout_ok_bounds(lookupvalues.dims_of(), lookupvalues.strides_of());
        position::lemma_suffix_count_pos_any(lookupvalues.dims_of(), lookupvalues.dims_of().len());
    }
    let sm = match smode {
        Some(v) => v,
        None => 1,
    };
    let m = match mmode {
        Some(v) => v,
        None => 0,
    };
    let binary = sm == 2 || sm == -2;
    let reverse = sm < 0;
    let layout = lookupvalues.get_layout();
    let dims = layout.dims();
    if position::dims_contain_zero(dims) {
        proof {
            let z = choose|z: int| 0 <= z < dims@.len() && dims@[z] == 0;
            position::lemma_suffix_count_zero(dims@, z, dims@.len());
        }
        return None;
    }
    if binary {
        let r = binary_lookup(lookupquery, lookupvalues, m, reverse);
        proof {
            let comps = lookupvalues.components();
            if r is None && orders::<X, E>() && lookupvalues.dims_of().len() > 0 {
                let k = choose|k: int| #[trigger] binary_gap::<X, E>(comps, *lookupquery, reverse, k) && (m != 0 ==> k == comps.len());
                assert(binary_gap::<X, E>(comps, *lookupquery, mode_or(smode, 1) < 0, k));
                if arranged_for::<X, E>(comps, *lookupquery, reverse) {
                    law_binary_miss_leaves_none_wanted::<X, E>(comps, *lookupquery, m, reverse, k);
                }
            }
            if orders::<X, E>() && lookupvalues.dims_of().len() > 0 && arranged_for::<X, E>(comps, *lookupquery, reverse) {
                if r is Some {
                    let p = r->0;
                    let d = lookupvalues.dims_of();
                    position::lemma_suffix_value_bounds(d, p@, d.len());
                    law_binary_match_on_wanted_side::<X, E>(comps, *lookupquery, m, reverse, linear_index(d, p@));
                }
            }
        }
        return r;
    }
    let r = linear_lookup(lookupquery, lookupvalues, m, sm);
    proof {
        if orders::<X, E>() && orders::<X, X>() {
            if r is Some {
                let p = r->0;
                let comps = lookupvalues.components();
                let s0 = choose|s0: int| #[trigger] looked_up_at::<X, E>(comps, *lookupquery, m, sm, s0)
                    && walk_place(count_of(lookupvalues.dims_of()), sm > 0, s0) == linear_index(lookupvalues.dims_of(), p@);
                assert(looked_up_at::<X, E>(comps, *lookupquery, mode_or(mmode, 0), mode_or(smode, 1), s0));
            }
        }
    }
    r
}

/// An ordering as seen in the search direction: reversed when searching descending
/// components.
pub open spec fn directed(o: Option<Ordering>, reverse: bool) -> Option<Ordering> {
    match o {
        Some(Ordering::Less) => if reverse { Some(Ordering::Greater) } else { Some(Ordering::Less) },
        Some(Ordering::Greater) => if reverse { Some(Ordering::Less) } else { Some(Ordering::Greater) },
        _ => o,
    }
}

/// How the component at place `k` compares with the query in the search direction.
pub open spec fn directed_at<X: PartialOrd<E>, E>(comps: Seq<X>, x: E, reverse: bool, k: int) -> Option<Ordering> {
    directed(order_of(comps[k], x), reverse)
}

/// The component at place `k` counts as before the query for binary search: it compares as
/// less in the search direction, or not at all.
pub open spec fn binary_below<X: PartialOrd<E>, E>(comps: Seq<X>, x: E, reverse: bool, k: int) -> bool {
    directed_at(comps, x, reverse, k) == Some(Ordering::Less) || directed_at(comps, x, reverse, k) is None
}

/// The binary lookup takes the place before the insertion point (match mode -1 over ascending
/// components, 1 over descending ones).
pub open spec fn floor_side(mmode: i32, reverse: bool) -> bool {
    if reverse { mmode == 1 } else { mmode == -1 }
}

/// Place `k` is what the binary lookup gives, by what binary search found among the `n`
/// components: a component equal to the query; or, on the floor side, the place before the
/// insertion point (the last place when the query goes first or last); or, on the ceiling
/// side, the insertion point itself. In exact mode only an equal component is a match.
pub open spec fn binary_match_at<X: PartialOrd<E>, E>(comps: Seq<X>, x: E, mmode: i32, reverse: bool, k: int) -> bool {
    let n = len_of(comps);
    let floor = floor_side(mmode, reverse);
    ||| 0 <= k < n && directed_at(comps, x, reverse, k) == Some(Ordering::Equal)
    ||| floor && 0 <= k < n - 1 && binary_below(comps, x, reverse, k) && directed_at(comps, x, reverse, k + 1) == Some(Ordering::Greater)
    ||| floor && k == n - 1 && binary_below(comps, x, reverse, n - 1)
    ||| floor && k == n - 1 && directed_at(comps, x, reverse, 0) == Some(Ordering::Greater)
    ||| !floor && mmode != 0 && binary_gap(comps, x, reverse, k) && k < n
}

/// Place `k` is where binary search would insert the query: the component there (if any)
/// compares as greater in the search direction, and the one before it (if any) as before
/// the query.
pub open spec fn binary_gap<X: PartialOrd<E>, E>(comps: Seq<X>, x: E, reverse: bool, k: int) -> bool {
    let n = len_of(comps);
    &&& 0 <= k <= n
    &&& k < n ==> directed_at(comps, x, reverse, k) == Some(Ordering::Greater)
    &&& k > 0 ==> binary_below(comps, x, reverse, k - 1)
}

/// Where an ordering puts a component relative to the query in a sorted run: 0 before it,
/// 1 equal, 2 after it, for ascending runs (and the other way round for descending runs);
/// -1 when the comparison fails.
pub open spec fn rank_in(o: Option<Ordering>, descending: bool) -> int {
    match o {
        Some(Ordering::Less) => if descending { 2 } else { 0 },
        Some(Ordering::Equal) => 1,
        Some(Ordering::Greater) => if descending { 0 } else { 2 },
        None => -1,
    }
}

/// The components are arranged as a binary search assumes: every one compares with the
/// query, and read in order they are first below it, then equal to it, then above it
/// (above, equal, below when `descending`).
pub open spec fn arranged_for<X: PartialOrd<E>, E>(comps: Seq<X>, x: E, descending: bool) -> bool {
    &&& forall|i: int| 0 <= i < comps.len() ==> (#[trigger] order_of(comps[i], x)) is Some
    &&& forall|i: int, j: int|
        0 <= i < j < comps.len() ==> rank_in(#[trigger] order_of(comps[i], x), descending) <= rank_in(
            #[trigger] order_of(comps[j], x),
            descending,
        )
}

/// `c` compares with the query as match mode `m` asks: equal to it, or above it for mode 1,
/// or below it for mode -1.
pub open spec fn on_wanted_side<X: PartialOrd<E>, E>(c: X, x: E, m: i32) -> bool {
    ||| order_of(c, x) == Some(Ordering::Equal)
    ||| m == 1 && order_of(c, x) == Some(Ordering::Greater)
    ||| m == -1 && order_of(c, x) == Some(Ordering::Less)
}

/// On components arranged as binary search assumes, whichever direction they run, the place
/// a binary lookup gives holds a component on the side of the query that the match mode
/// asks for (equal, at or above for 1, at or below for -1), unless no component is on that
/// side at all.
pub proof fn law_binary_match_on_wanted_side<X: PartialOrd<E>, E>(comps: Seq<X>, x: E, m: i32, descending: bool, k: int)
    requires
        -1 <= m <= 1,
        0 <= k < comps.len(),
        binary_match_at::<X, E>(comps, x, m, descending, k),
        arranged_for::<X, E>(comps, x, descending),
    ensures
        on_wanted_side::<X, E>(comps[k], x, m) || forall|j: int| 0 <= j < comps.len() ==> !#[trigger] on_wanted_side::<X, E>(comps[j], x, m),
{
    let n = len_of(comps);
    let floor = floor_side(m, descending);
    assert(order_of(comps[k], x) is Some);
    if floor && k == n - 1 && directed_at::<X, E>(comps, x, descending, 0) == Some(Ordering::Greater)
        && !(0 <= k < n && directed_at::<X, E>(comps, x, descending, k) == Some(Ordering::Equal))
        && !(binary_below::<X, E>(comps, x, descending, n - 1)) {
        assert forall|j: int| 0 <= j < comps.len() implies !#[trigger] on_wanted_side::<X, E>(comps[j], x, m) by {
            assert(order_of(comps[0], x) is Some);
            assert(order_of(comps[j], x) is Some);
            if j > 0 {
                assert(rank_in(order_of(comps[0], x), descending) <= rank_in(order_of(comps[j], x), descending));
            }
        }
    }
}

/// On components arranged as binary search assumes, a binary lookup that finds nothing
/// leaves no component on the side of the query the match mode asks for: none equal in exact
/// mode, none at or above for mode 1, none at or below for mode -1.
pub proof fn law_binary_miss_leaves_none_wanted<X: PartialOrd<E>, E>(comps: Seq<X>, x: E, m: i32, descending: bool, k: int)
    requires
        -1 <= m <= 1,
        !floor_side(m, descending),
        binary_gap::<X, E>(comps, x, descending, k),
        m != 0 ==> k == comps.len(),
        arranged_for::<X, E>(comps, x, descending),
    ensures
        forall|j: int| 0 <= j < comps.len() ==> !#[trigger] on_wanted_side::<X, E>(comps[j], x, m),
{
    let n = len_of(comps);
    assert forall|j: int| 0 <= j < comps.len() implies !#[trigger] on_wanted_side::<X, E>(comps[j], x, m) by {
        assert(order_of(comps[j], x) is Some);
        if j < k {
            assert(order_of(comps[k - 1], x) is Some);
            if j < k - 1 {
                assert(rank_in(order_of(comps[j], x), descending) <= rank_in(order_of(comps[k - 1], x), descending));
            }
        } else {
            assert(order_of(comps[k], x) is Some);
            if j > k {
                assert(rank_in(order_of(comps[k], x), descending) <= rank_in(order_of(comps[j], x), descending));
            }
        }
    }
}

/// The binary-search lookup of `xmatch`.
fn binary_lookup<E, X: PartialOrd<E> + PartialOrd<X>>(lookupquery: &E, lookupvalues: &View<X>, m: i32, reverse: bool) -> (r: Option<Position>)
    requires
        lookupvalues.valid(),
        count_of(lookupvalues.dims_of()) <= usize::MAX,
        !lookupvalues.dims_of().contains(0),
        -1 <= m <= 1,
    ensures
        r matches Some(p) ==> position_in_bounds(lookupvalues.dims_of(), p@) && position::from_start(p@),
        orders::<X, E>() && lookupvalues.dims_of().len() > 0 ==> {
            let comps = lookupvalues.components();
            &&& r matches Some(p) ==> binary_match_at::<X, E>(comps, *lookupquery, m, reverse, linear_index(lookupvalues.dims_of(), p@))
            &&& r is None ==> !floor_side(m, reverse) && exists|k: int| #[trigger] binary_gap::<X, E>(comps, *lookupquery, reverse, k)
                && (m != 0 ==> k == comps.len())
        },
{
    proof {
        error::lemma_layout_ok_bounds(lookupvalues.dims_of(), lookupvalues.strides_of());
    }
    let ghost d = lookupvalues.dims_of();
    let ghost st = lookupvalues.strides_of();
    let ghost comps = lookupvalues.components();
    let layout = lookupvalues.get_layout();
    let dims = layout.dims();
    let rank = dims.len();
    let check = |ix: Position| -> (o: Option<Ordering>)
        ensures
            orders::<X, E>() && position_in_bounds(lookupvalues.dims_of(), ix@) ==> o == directed(
                order_of(lookupvalues.components()[linear_index(lookupvalues.dims_of(), ix@)], *lookupquery),
                reverse,
            ),
        {
            proof {
                let dd = lookupvalues.dims_of();
                let ss = lookupvalues.strides_of();
                if position_in_bounds(dd, ix@) {
                    position::lemma_offset_below_len(dd, ix@, ss);
                    position::lemma_flat_offset(dd, ss, ix@);
                    position::lemma_suffix_value_bounds(dd, ix@, dd.len());
                }
            }
            match lookupvalues.component(ix.as_slice()) {
                Err(_) => None,
                Ok(v) => match v.partial_cmp(lookupquery) {
                    None => None,
                    Some(Ordering::Less) => if reverse { Some(Ordering::Greater) } else { Some(Ordering::Less) },
                    Some(Ordering::Greater) => if reverse { Some(Ordering::Less) } else { Some(Ordering::Greater) },
                    Some(Ordering::Equal) => Some(Ordering::Equal),
                },
            }
        };
    let floor = if reverse { m == 1 } else { m == -1 };
    let found = binary_search_by(check, dims);
    proof {
        if rank > 0 {
            assert forall|i: int| 0 <= i < d.len() implies #[trigger] d[i] >= 1 by {
                if d[i] == 0 {
                    assert(d.contains(0));
                }
            }
            position::lemma_suffix_count_pos(d, d.len());
        }
    }
    match found {
        Ok(ix) => {
            proof {
                if rank > 0 && orders::<X, E>() {
                    let k = linear_index(d, ix@);
                    let q = choose|q: Position| #[trigger] call_ensures(check, (q,), Some(Ordering::Equal)) && position_in_bounds(d, q@) && linear_index(d, q@) == k;
                    assert(directed_at::<X, E>(comps, *lookupquery, reverse, k) == Some(Ordering::Equal));
                    position::lemma_suffix_value_bounds(d, ix@, d.len());
                    assert(binary_match_at::<X, E>(comps, *lookupquery, m, reverse, k));
                }
            }
            Some(ix)
        },
        Err(ix) => {
            if rank == 0 {
                return None;
            }
            let ghost n = len_of(comps);
            let ghost k0 = linear_index(d, ix@);
            proof {
                assert(n == count_of(d));
                if orders::<X, E>() {
                    if ix@ == match_tensor::end_position(d) {
                        assert(!coord_in_bounds(wide(d[0]), signed(ix@[0])));
                        assert(!position_in_bounds(d, ix@));
                        assert(match_tensor::below_query(check, d, count_of(d) - 1));
                        if match_tensor::checked_as(check, d, n - 1, Some(Ordering::Less)) {
                            let q = choose|q: Position| #[trigger] call_ensures(check, (q,), Some(Ordering::Less)) && position_in_bounds(d, q@) && linear_index(d, q@) == n - 1;
                        } else {
                            let q = choose|q: Position| #[trigger] call_ensures(check, (q,), None::<Ordering>) && position_in_bounds(d, q@) && linear_index(d, q@) == n - 1;
                        }
                        assert(binary_below::<X, E>(comps, *lookupquery, reverse, n - 1));
                    } else {
                        let q = choose|q: Position| #[trigger] call_ensures(check, (q,), Some(Ordering::Greater)) && position_in_bounds(d, q@) && linear_index(d, q@) == k0;
                        assert(directed_at::<X, E>(comps, *lookupquery, reverse, k0) == Some(Ordering::Greater));
                        if k0 > 0 {
                            if match_tensor::checked_as(check, d, k0 - 1, Some(Ordering::Less)) {
                                let q1 = choose|q: Position| #[trigger] call_ensures(check, (q,), Some(Ordering::Less)) && position_in_bounds(d, q@) && linear_index(d, q@) == k0 - 1;
                            } else {
                                let q1 = choose|q: Position| #[trigger] call_ensures(check, (q,), None::<Ordering>) && position_in_bounds(d, q@) && linear_index(d, q@) == k0 - 1;
                            }
                            assert(binary_below::<X, E>(comps, *lookupquery, reverse, k0 - 1));
                        }
                    }
                }
            }
            if m == 0 {
                proof {
                    if orders::<X, E>() {
                        if ix@ == match_tensor::end_position(d) {
                            assert(binary_gap::<X, E>(comps, *lookupquery, reverse, n));
                        } else {
                            position::lemma_suffix_value_bounds(d, ix@, d.len());
                            assert(binary_gap::<X, E>(comps, *lookupquery, reverse, k0));
                        }
                    }
                }
                return None;
            }
            if ix.as_slice()[0] == dims_first(dims) {
                proof {
                    if ix@ != match_tensor::end_position(d) {
                        assert(coord_in_bounds(wide(d[0]), signed(ix@[0])));
                    }
                }
                if floor {
                    let count = position::component_count(dims);
                    let q = place(dims, count - 1);
                    assert(orders::<X, E>() ==> binary_match_at::<X, E>(comps, *lookupquery, m, reverse, linear_index(d, q@)));
                    Some(q)
                } else {
                    assert(orders::<X, E>() ==> binary_gap::<X, E>(comps, *lookupquery, reverse, len_of(comps)));
                    None
                }
            } else if floor {
                proof {
                    if ix@ == match_tensor::end_position(d) {
                        assert(ix@[0] == d[0]);
                    }
                    position::lemma_suffix_value_bounds(d, ix@, d.len());
                }
                let mut p = ix;
                let ghost p0 = p@;
                let c = p.decrement(dims);
                proof {
                    position::lemma_signs_keep_ends(p0, p@);
                    position::lemma_suffix_value_bounds(d, p@, d.len());
                    position::lemma_step_down(linear_index(d, p@), k0, n, wide(c));
                }
                assert(orders::<X, E>() ==> binary_match_at::<X, E>(comps, *lookupquery, m, reverse, linear_index(d, p@)));
                Some(p)
            } else {
                proof {
                    if ix@ == match_tensor::end_position(d) {
                        assert(ix@[0] == d[0]);
                    }
                    position::lemma_suffix_value_bounds(d, ix@, d.len());
                }
                assert(orders::<X, E>() ==> binary_match_at::<X, E>(comps, *lookupquery, m, reverse, linear_index(d, ix@)));
                Some(ix)
            }
        },
    }
}

/// The value of an `isize` as an integer.
pub open spec fn signed(x: isize) -> int {
    x as int
}

/// The first dim, as a coordinate.
fn dims_first(dims: &[usize]) -> (r: isize)
    requires
        dims@.len() > 0,
        dims_fit_isize(dims@),
    ensures
        r == dims@[0],
{
    dims[0] as isize
}

/// The walking lookup of `xmatch`.
fn linear_lookup<E, X: PartialOrd<E> + PartialOrd<X>>(lookupquery: &E, lookupvalues: &View<X>, m: i32, sm: i32) -> (r: Option<Position>)
    requires
        lookupvalues.valid(),
        count_of(lookupvalues.dims_of()) <= usize::MAX,
        -1 <= m <= 1,
        sm == 1 || sm == -1,
    ensures
        r matches Some(p) ==> position_in_bounds(lookupvalues.dims_of(), p@) && walk_coords(sm > 0, p@),
        ({
            let comps = lookupvalues.components();
            let n = count_of(lookupvalues.dims_of());
            &&& orders::<X, E>() && orders::<X, X>() && r is None ==> no_equal_upto::<X, E>(comps, *lookupquery, sm > 0, n)
                && none_wanted_upto::<X, E>(comps, *lookupquery, m, sm > 0, n)
            &&& orders::<X, E>() && orders::<X, X>() ==> (r matches Some(p) ==> exists|s: int| #[trigger] looked_up_at::<X, E>(comps, *lookupquery, m, sm, s)
                && walk_place(n, sm > 0, s) == linear_index(lookupvalues.dims_of(), p@))
        }),
{
    proof {
        error::lemma_layout_ok_bounds(lookupvalues.dims_of(), lookupvalues.strides_of());
        position::lemma_suffix_count_pos_any(lookupvalues.dims_of(), lookupvalues.dims_of().len());
    }
    let forward = sm > 0;
    let ghost comps = lookupvalues.components();
    let ghost d = lookupvalues.dims_of();
    let ghost st = lookupvalues.strides_of();
    let layout = lookupvalues.get_layout();
    let dims = layout.dims();
    let strides = layout.strides();
    let count = layout.count();
    if count == 0 {
        return None;
    }
    let want: Option<Ordering> = if m == 1 {
        Some(Ordering::Greater)
    } else if m == -1 {
        Some(Ordering::Less)
    } else {
        None
    };
    let buf = lookupvalues.buf();
    let n = buf.len();
    let mut p = if forward { place(dims, 0) } else { last_place(dims) };
    let mut best: Option<(usize, Position)> = None;
    let ghost mut s: int = 0;
    let mut t: usize = 0;
    while t < count
        invariant
            dims@ == d,
            strides@ == st,
            d == lookupvalues.dims_of(),
            comps == lookupvalues.components(),
            d.len() == st.len(),
            dims_fit_isize(d),
            count == count_of(d),
            count == comps.len(),
            buffer_len_of(d, st) <= n == buf@.len(),
            comps == components_in(d, st, buf@),
            forward == (sm > 0),
            want == wanted(m),
            -1 <= m <= 1,
            t <= count,
            position_in_bounds(d, p@),
            walk_coords(forward, p@),
            best matches Some((o, q)) ==> walk_coords(forward, q@),
            t < count ==> linear_index(d, p@) == walk_place(wide(count), forward, wide(t)),
            best matches Some((o, q)) ==> o < n && position_in_bounds(d, q@) && 0 <= s < t
                && linear_index(d, q@) == walk_place(wide(count), forward, s)
                && buf@[wide(o)] == comps[walk_place(wide(count), forward, s)],
            orders::<X, E>() && orders::<X, X>() ==> no_equal_upto::<X, E>(comps, *lookupquery, forward, wide(t)),
            orders::<X, E>() && orders::<X, X>() ==> match best {
                None => none_wanted_upto::<X, E>(comps, *lookupquery, m, forward, wide(t)),
                Some(_) => lookup_upto::<X, E>(comps, *lookupquery, m, forward, s, wide(t)),
            },
        decreases count - t,
    {
        proof {
            position::lemma_offset_below_len(d, p@, st);
            position::lemma_flat_offset(d, st, p@);
        }
        let o = position::compute_offset(dims, p.as_slice(), strides);
        let c = &buf[o];
        let r = c.partial_cmp(lookupquery);
        let keep = match r {
            None => false,
            Some(Ordering::Equal) => {
                proof {
                    let nn = count_of(lookupvalues.dims_of());
                    assert(walk_place(nn, forward, wide(t)) == linear_index(lookupvalues.dims_of(), p@));
                    if orders::<X, E>() && orders::<X, X>() {
                        assert(looked_up_at::<X, E>(comps, *lookupquery, m, sm, wide(t)));
                    }
                }
                return Some(p);
            },
            Some(Ordering::Greater) => m == 1,
            Some(Ordering::Less) => m == -1,
        };
        proof {
            assert(comps[walk_place(wide(count), forward, wide(t))] == buf@[wide(o)]);
            if orders::<X, E>() {
                let e = comps[walk_place(wide(count), forward, wide(t))];
                assert(order_of(e, *lookupquery) == r);
                assert(keep == is_wanted::<X, E>(e, *lookupquery, m));
            }
        }
        if keep {
            let replace = match &best {
                None => true,
                Some((bo, _)) => {
                    let b = &buf[*bo];
                    match b.partial_cmp(c) {
                        Some(Ordering::Greater) => m == 1,
                        Some(Ordering::Less) => m == -1,
                        _ => false,
                    }
                },
            };
            if replace {
                proof {
                    let nn = wide(count);
                    let tt = wide(t);
                    let up = m == 1;
                    if orders::<X, E>() && orders::<X, X>() && total_toward::<X>(up) {
                        match best {
                            None => {},
                            Some((bo, bq)) => {
                                let cs = comps[walk_place(nn, forward, s)];
                                let ct = comps[walk_place(nn, forward, tt)];
                                assert(further::<X>(cs, ct, up));
                                assert forall|j: int| 0 <= j < tt && is_wanted::<X, E>(#[trigger] comps[walk_place(nn, forward, j)], *lookupquery, m)
                                    implies further::<X>(comps[walk_place(nn, forward, j)], ct, up) by {
                                    let cj = comps[walk_place(nn, forward, j)];
                                    if j < s {
                                        assert(further::<X>(cj, cs, up));
                                        assert(reaches::<X>(cs, ct, up));
                                    } else if j > s {
                                        assert(order_of(cs, cj) != wanted(m));
                                        assert(!further::<X>(cs, cj, up));
                                        assert(reaches::<X>(cj, cs, up));
                                    }
                                }
                            },
                        }
                    }
                }
                best = Some((o, p.clone()));
                proof {
                    s = wide(t);
                }
            }
        }
        if t + 1 < count {
            if forward {
                let ghost p0 = p@;
                let carry = p.increment(dims);
                proof {
                    position::lemma_signs_keep_ends(p0, p@);
                    position::lemma_suffix_value_bounds(d, p@, d.len());
                    position::lemma_no_wrap_up(linear_index(d, p@), wide(t), wide(count), wide(carry), 1);
                }
            } else {
                p = place_before(dims, &p);
            }
        }
        t = t + 1;
    }
    match best {
        None => None,
        Some((_, q)) => {
            proof {
                let nn = count_of(lookupvalues.dims_of());
                assert(walk_place(nn, forward, s) == linear_index(lookupvalues.dims_of(), q@));
                if orders::<X, E>() && orders::<X, X>() {
                    assert(looked_up_at::<X, E>(comps, *lookupquery, m, sm, s));
                }
            }
            Some(q)
        },
    }
}

/// The component of `returnvalues` at the position where `lookupvalues` matches
/// `lookupquery` (see `xmatch`), or `notfound` when nothing matches. Every position of
/// `lookupvalues` must lie within `returnvalues`.
pub fn xlookup<'a, E, X: PartialOrd<E> + PartialOrd<X>>(
    lookupquery: &E,
    lookupvalues: &View<X>,
    returnvalues: &'a View<X>,
    notfound: Option<&'a X>,
    mmode: Option<i32>,
    smode: Option<i32>,
) -> (r: Option<&'a X>)
    requires
        lookupvalues.valid(),
        returnvalues.valid(),
        count_of(lookupvalues.dims_of()) <= usize::MAX,
        returnvalues.dims_of().len() == lookupvalues.dims_of().len(),
        forall|i: int| 0 <= i < lookupvalues.dims_of().len() ==> #[trigger] lookupvalues.dims_of()[i] <= returnvalues.dims_of()[i],
        match mmode {
            Some(m) => -1 <= m <= 1,
            None => true,
        },
        match smode {
            Some(m) => m == 1 || m == -1 || m == 2 || m == -2,
            None => true,
        },
    ensures
        ({
            ||| lookup_missed::<X, E>(*lookupvalues, *lookupquery, mmode, smode) && r == notfound
            ||| exists|p: Seq<isize>| #[trigger] lookup_found::<X, E>(*lookupvalues, *lookupquery, mmode, smode, p)
                && (r matches Some(v) && *v == returnvalues.at(p))
        }),
{
    match xmatch(lookupquery, lookupvalues, mmode, smode) {
        None => notfound,
        Some(ix) => {
            proof {
                error::lemma_layout_ok_bounds(returnvalues.dims_of(), returnvalues.strides_of());
                assert forall|i: int| 0 <= i < returnvalues.dims_of().len() implies #[trigger] coord_in_bounds(returnvalues.dims_of()[i] as int, ix@[i] as int) by {
                    assert(coord_in_bounds(lookupvalues.dims_of()[i] as int, ix@[i] as int));
                }
                position::lemma_offset_below_len(returnvalues.dims_of(), ix@, returnvalues.strides_of());
            }
            match returnvalues.component(ix.as_slice()) {
                Ok(v) => Some(v),
                Err(_) => notfound,
            }
        },
    }
}

} // verus!
