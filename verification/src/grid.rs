//! Tensors from grids of cells: sheets of columns of cells, as a spreadsheet holds them.
use crate::layout::row_major_strides;
use crate::position::{self, count_of, dims_fit_isize};
use crate::tensor::Tens;
use vstd::prelude::*;

verus! {

/// The most columns any of the sheets has.
pub open spec fn max_columns<E>(sheets: Seq<Vec<Vec<E>>>) -> nat
    decreases sheets.len(),
{
    if sheets.len() == 0 {
        0
    } else {
        let m = max_columns(sheets.drop_last());
        let l = sheets.last()@.len();
        if l > m { l } else { m }
    }
}

/// The most cells any of the columns has.
pub open spec fn max_cells<E>(columns: Seq<Vec<E>>) -> nat
    decreases columns.len(),
{
    if columns.len() == 0 {
        0
    } else {
        let m = max_cells(columns.drop_last());
        let l = columns.last()@.len();
        if l > m { l } else { m }
    }
}

/// The most cells any column of any of the sheets has.
pub open spec fn max_rows<E>(sheets: Seq<Vec<Vec<E>>>) -> nat
    decreases sheets.len(),
{
    if sheets.len() == 0 {
        0
    } else {
        let m = max_rows(sheets.drop_last());
        let l = max_cells(sheets.last()@);
        if l > m { l } else { m }
    }
}

/// The place of cell `w` of column `c` of sheet `s` in a row-major buffer of `cols` columns
/// of `rows` cells per sheet.
pub open spec fn grid_index(s: int, c: int, w: int, cols: int, rows: int) -> int {
    (s * cols + c) * rows + w
}

/// `v` is what the stacked tensor holds for cell `w` of column `c` of sheet `s`: a clone of
/// that cell, or of `fill` where the sheet has no such cell.
pub open spec fn stacked_cell<E: Clone>(sheets: Seq<Vec<Vec<E>>>, fill: E, s: int, c: int, w: int, v: E) -> bool {
    if c < sheets[s]@.len() && w < sheets[s]@[c]@.len() {
        cloned(sheets[s]@[c]@[w], v)
    } else {
        cloned(fill, v)
    }
}

proof fn lemma_max_columns<E>(sheets: Seq<Vec<Vec<E>>>, s: int)
    requires
        0 <= s < sheets.len(),
    ensures
        sheets[s]@.len() <= max_columns(sheets),
    decreases sheets.len(),
{
    if s < sheets.len() - 1 {
        lemma_max_columns(sheets.drop_last(), s);
    }
}

proof fn lemma_max_cells<E>(columns: Seq<Vec<E>>, c: int)
    requires
        0 <= c < columns.len(),
    ensures
        columns[c]@.len() <= max_cells(columns),
    decreases columns.len(),
{
    if c < columns.len() - 1 {
        lemma_max_cells(columns.drop_last(), c);
    }
}

proof fn lemma_max_rows<E>(sheets: Seq<Vec<Vec<E>>>, s: int)
    requires
        0 <= s < sheets.len(),
    ensures
        max_cells(sheets[s]@) <= max_rows(sheets),
    decreases sheets.len(),
{
    if s < sheets.len() - 1 {
        lemma_max_rows(sheets.drop_last(), s);
    }
}

/// Places in the grid follow the order of sheets, then columns, then cells.
proof fn lemma_grid_order(s: int, c: int, w: int, s2: int, c2: int, w2: int, cols: int, rows: int)
    requires
        0 <= c < cols,
        0 <= w < rows,
        0 <= c2 < cols,
        0 <= w2 < rows,
        s >= 0,
        s2 >= 0,
        s < s2 || (s == s2 && c < c2) || (s == s2 && c == c2 && w < w2),
    ensures
        grid_index(s, c, w, cols, rows) < grid_index(s2, c2, w2, cols, rows),
{
    if s < s2 {
        assert(grid_index(s, c, w, cols, rows) < grid_index(s2, c2, w2, cols, rows)) by (nonlinear_arith)
            requires
                0 <= c < cols,
                0 <= w < rows,
                0 <= c2,
                0 <= w2,
                0 <= s < s2,
        {
            assert((s * cols + c) * rows + w < (s * cols + c + 1) * rows);
            assert(s * cols + c + 1 <= s2 * cols) by {
                assert(s2 * cols >= (s + 1) * cols);
            }
            assert((s * cols + c + 1) * rows <= (s2 * cols) * rows);
        }
    } else if c < c2 {
        assert(grid_index(s, c, w, cols, rows) < grid_index(s2, c2, w2, cols, rows)) by (nonlinear_arith)
            requires
                s == s2,
                0 <= c < c2,
                0 <= w < rows,
                0 <= w2,
        {
            assert((s * cols + c) * rows + w < (s * cols + c + 1) * rows);
            assert((s * cols + c + 1) * rows <= (s * cols + c2) * rows);
        }
    }
}

/// Stacks sheets of columns of cells into a tensor with dims `[sheets, columns, rows]`: as
/// many columns as the sheet with the most, and as many rows as the longest column. Cells a
/// sheet lacks hold clones of `fill`. The layout is row-major.
pub fn stack_sheets<E: Clone>(sheets: &Vec<Vec<Vec<E>>>, fill: &E) -> (r: Tens<E>)
    requires
        sheets@.len() <= isize::MAX,
        sheets@.len() * max_columns(sheets@) <= isize::MAX,
        sheets@.len() * max_columns(sheets@) * max_rows(sheets@) <= isize::MAX,
    ensures
        r.dims_of() == seq![sheets@.len() as usize, max_columns(sheets@) as usize, max_rows(sheets@) as usize],
        r.strides_of() == row_major_strides(r.dims_of()),
        r.buffer_view().len() == sheets@.len() * max_columns(sheets@) * max_rows(sheets@),
        forall|s: int, c: int, w: int|
            0 <= s < sheets@.len() && 0 <= c < max_columns(sheets@) && 0 <= w < max_rows(sheets@) ==> stacked_cell(
                sheets@,
                *fill,
                s,
                c,
                w,
                #[trigger] r.buffer_view()[grid_index(s, c, w, max_columns(sheets@) as int, max_rows(sheets@) as int)],
            ),
{
    let ghost g = sheets@;
    let n = sheets.len();
    // the widest sheet and the longest column
    let mut cols: usize = 0;
    let mut rows: usize = 0;
    let mut k: usize = 0;
    proof {
        assert(g.subrange(0, 0) =~= Seq::<Vec<Vec<E>>>::empty());
    }
    while k < n
        invariant
            n == g.len(),
            g == sheets@,
            k <= n,
            cols == max_columns(g.subrange(0, k as int)),
            rows == max_rows(g.subrange(0, k as int)),
            max_columns(g.subrange(0, k as int)) <= max_columns(g),
            max_rows(g.subrange(0, k as int)) <= max_rows(g),
        decreases n - k,
    {
        let sheet = &sheets[k];
        let ghost cs = sheet@;
        let mut longest: usize = 0;
        let mut c: usize = 0;
        proof {
            assert(cs.subrange(0, 0) =~= Seq::<Vec<E>>::empty());
        }
        while c < sheet.len()
            invariant
                cs == sheet@,
                c <= cs.len(),
                longest == max_cells(cs.subrange(0, c as int)),
            decreases cs.len() - c,
        {
            let l = sheet[c].len();
            proof {
                assert(cs.subrange(0, c + 1).drop_last() =~= cs.subrange(0, c as int));
            }
            if l > longest {
                longest = l;
            }
            c = c + 1;
        }
        proof {
            assert(cs.subrange(0, cs.len() as int) =~= cs);
            assert(g.subrange(0, k + 1).drop_last() =~= g.subrange(0, k as int));
            assert(g.subrange(0, k + 1).last() == g[k as int]);
            lemma_max_columns(g, k as int);
            lemma_max_rows(g, k as int);
            lemma_prefix_max(g, k + 1);
        }
        if sheet.len() > cols {
            cols = sheet.len();
        }
        if longest > rows {
            rows = longest;
        }
        k = k + 1;
    }
    proof {
        assert(g.subrange(0, n as int) =~= g);
    }
    let ghost cc = cols as int;
    let ghost rr = rows as int;
    let mut data: Vec<E> = Vec::new();
    let mut s: usize = 0;
    assert(0 * cc * rr == 0) by (nonlinear_arith);
    while s < n
        invariant
            n == g.len(),
            g == sheets@,
            cc == cols == max_columns(g),
            rr == rows == max_rows(g),
            n * cc * rr <= isize::MAX,
            n * cc <= isize::MAX,
            n <= isize::MAX,
            s <= n,
            data@.len() == s * cc * rr,
            forall|s2: int, c2: int, w2: int|
                0 <= s2 < s && 0 <= c2 < cc && 0 <= w2 < rr ==> stacked_cell(
                    g,
                    *fill,
                    s2,
                    c2,
                    w2,
                    #[trigger] data@[grid_index(s2, c2, w2, cc, rr)],
                ),
        decreases n - s,
    {
        let sheet = &sheets[s];
        let mut c: usize = 0;
        proof {
            assert(s * cc * rr == (s * cc + 0) * rr) by (nonlinear_arith);
        }
        while c < cols
            invariant
                n == g.len(),
                g == sheets@,
                sheet == g[s as int],
                cc == cols,
                rr == rows,
                n * cc * rr <= isize::MAX,
                s < n,
                c <= cols,
                data@.len() == (s * cc + c) * rr,
                forall|s2: int, c2: int, w2: int|
                    0 <= s2 && 0 <= c2 < cc && 0 <= w2 < rr && (s2 < s || (s2 == s && c2 < c)) ==> stacked_cell(
                        g,
                        *fill,
                        s2,
                        c2,
                        w2,
                        #[trigger] data@[grid_index(s2, c2, w2, cc, rr)],
                    ),
            decreases cols - c,
        {
            let mut w: usize = 0;
            while w < rows
                invariant
                    n == g.len(),
                    g == sheets@,
                    sheet == g[s as int],
                    cc == cols,
                    rr == rows,
                    n * cc * rr <= isize::MAX,
                    s < n,
                    c < cols,
                    w <= rows,
                    data@.len() == grid_index(s as int, c as int, w as int, cc, rr),
                    forall|s2: int, c2: int, w2: int|
                        0 <= s2 && 0 <= c2 < cc && 0 <= w2 < rr && (s2 < s || (s2 == s && c2 < c) || (s2 == s && c2 == c && w2 < w))
                            ==> stacked_cell(
                            g,
                            *fill,
                            s2,
                            c2,
                            w2,
                            #[trigger] data@[grid_index(s2, c2, w2, cc, rr)],
                        ),
                decreases rows - w,
            {
                proof {
                    assert(grid_index(s as int, c as int, w as int, cc, rr) < n * cc * rr) by (nonlinear_arith)
                        requires
                            0 <= s < n,
                            0 <= c < cc,
                            0 <= w < rr,
                    {
                        assert((s * cc + c) * rr + w < (s * cc + c + 1) * rr);
                        assert(s * cc + c + 1 <= n * cc) by {
                            assert(n * cc >= (s + 1) * cc);
                        }
                        assert((s * cc + c + 1) * rr <= (n * cc) * rr);
                    }
                }
                let v = if c < sheet.len() && w < sheet[c].len() {
                    sheet[c][w].clone()
                } else {
                    fill.clone()
                };
                let ghost before = data@;
                data.push(v);
                proof {
                    assert forall|s2: int, c2: int, w2: int|
                        0 <= s2 && 0 <= c2 < cc && 0 <= w2 < rr && (s2 < s || (s2 == s && c2 < c) || (s2 == s && c2 == c && w2 < w + 1))
                            implies stacked_cell(
                            g,
                            *fill,
                            s2,
                            c2,
                            w2,
                            #[trigger] data@[grid_index(s2, c2, w2, cc, rr)],
                        ) by {
                        if s2 == s && c2 == c && w2 == w {
                        } else {
                            lemma_grid_order(s2, c2, w2, s as int, c as int, w as int, cc, rr);
                            assert(data@[grid_index(s2, c2, w2, cc, rr)] == before[grid_index(s2, c2, w2, cc, rr)]);
                        }
                    }
                }
                w = w + 1;
            }
            proof {
                assert((s * cc + c) * rr + rr == (s * cc + (c + 1)) * rr) by (nonlinear_arith);
                assert forall|s2: int, c2: int, w2: int|
                    0 <= s2 && 0 <= c2 < cc && 0 <= w2 < rr && (s2 < s || (s2 == s && c2 < c + 1)) implies stacked_cell(
                        g,
                        *fill,
                        s2,
                        c2,
                        w2,
                        #[trigger] data@[grid_index(s2, c2, w2, cc, rr)],
                    ) by {
                    if s2 == s && c2 == c {
                        assert(w2 < rows);
                    }
                }
            }
            c = c + 1;
        }
        proof {
            assert((s * cc + cc) * rr == (s + 1) * cc * rr) by (nonlinear_arith);
        }
        s = s + 1;
    }
    let dims: Vec<usize> = vec![n, cols, rows];
    proof {
        assert(n * cc * rr >= 0) by (nonlinear_arith)
            requires
                n >= 0,
                cc >= 0,
                rr >= 0,
        ;
        lemma_no_columns_no_rows(g);
        lemma_stack_layout(dims@);
    }
    let t = Tens::new(data, dims.as_slice());
    t
}

/// Prefixes of the sheets have no more columns or rows than all of them.
proof fn lemma_prefix_max<E>(g: Seq<Vec<Vec<E>>>, k: int)
    requires
        0 <= k <= g.len(),
    ensures
        max_columns(g.subrange(0, k)) <= max_columns(g),
        max_rows(g.subrange(0, k)) <= max_rows(g),
    decreases g.len() - k,
{
    if k < g.len() {
        lemma_prefix_max(g, k + 1);
        assert(g.subrange(0, k + 1).drop_last() =~= g.subrange(0, k));
    } else {
        assert(g.subrange(0, k) =~= g);
    }
}

/// Without columns there are no rows.
proof fn lemma_no_columns_no_rows<E>(g: Seq<Vec<Vec<E>>>)
    ensures
        g.len() == 0 ==> max_columns(g) == 0 && max_rows(g) == 0,
        max_columns(g) == 0 ==> max_rows(g) == 0,
    decreases g.len(),
{
    if g.len() > 0 {
        lemma_no_columns_no_rows(g.drop_last());
        if max_columns(g) == 0 {
            let cs = g.last()@;
            assert(cs.len() == 0);
            assert(max_cells(cs) == 0);
        }
    }
}

/// The row-major layout of three dims whose products fit in `isize` is valid, and its buffer
/// is as long as its count.
proof fn lemma_stack_layout(dims: Seq<usize>)
    requires
        dims.len() == 3,
        dims[0] <= isize::MAX,
        dims[0] * dims[1] <= isize::MAX,
        dims[0] * dims[1] * dims[2] <= isize::MAX,
        dims[0] == 0 ==> dims[1] == 0 && dims[2] == 0,
        dims[1] == 0 ==> dims[2] == 0,
    ensures
        crate::layout::suffix_counts_fit(dims),
        dims_fit_isize(dims),
        crate::error::layout_ok(dims, row_major_strides(dims)),
        position::buffer_len_of(dims, row_major_strides(dims)) <= dims[0] * dims[1] * dims[2],
        count_of(dims) == dims[0] * dims[1] * dims[2],
{
    let n = dims[0] as int;
    let c = dims[1] as int;
    let r = dims[2] as int;
    let st = row_major_strides(dims);
    assert(position::suffix_count(dims, 0) == 1);
    assert(position::suffix_count(dims, 1) == dims[2] * position::suffix_count(dims, 0));
    assert(position::suffix_count(dims, 1) == r);
    assert(position::suffix_count(dims, 2) == c * r) by (nonlinear_arith)
        requires
            position::suffix_count(dims, 2) == dims[1] * position::suffix_count(dims, 1),
            position::suffix_count(dims, 1) == r,
            dims[1] == c,
    ;
    assert(position::suffix_count(dims, 3) == n * c * r) by (nonlinear_arith)
        requires
            position::suffix_count(dims, 3) == dims[0] * position::suffix_count(dims, 2),
            position::suffix_count(dims, 2) == c * r,
            dims[0] == n,
    ;
    assert(c * r <= isize::MAX && r <= isize::MAX && c <= isize::MAX) by (nonlinear_arith)
        requires
            0 <= n <= isize::MAX,
            0 <= c,
            0 <= r,
            n * c <= isize::MAX,
            n * c * r <= isize::MAX,
            n == 0 ==> c == 0 && r == 0,
            c == 0 ==> r == 0,
    {
        if n > 0 && c > 0 && r > 0 {
            assert(c * r <= n * (c * r));
            assert(r <= c * r);
            assert(c <= n * c);
        }
    }
    assert(crate::layout::suffix_counts_fit(dims));
    assert(st[0] as int == c * r);
    assert(st[1] as int == r);
    assert(st[2] as int == 1);
    assert(crate::error::prefix_count(dims, 0) == 1);
    assert(crate::error::prefix_count(dims, 1) == 1 * n);
    assert(crate::error::prefix_count(dims, 2) == n * c);
    assert(crate::error::prefix_count(dims, 3) == n * c * r);
    assert(crate::error::count_ok(dims)) by {
        assert(position::count_of(dims) == n * c * r) by {
            assert(position::suffix_count(dims, 1) == r);
            assert(position::suffix_count(dims, 2) == c * r);
            assert(position::suffix_count(dims, 3) == n * (c * r));
        }
        assert(n * (c * r) == n * c * r) by (nonlinear_arith);
    }
    if n > 0 && c > 0 && r > 0 {
        assert(crate::error::prefix_span(dims, st, 0) == 0);
        assert(crate::error::prefix_span(dims, st, 1) == (n - 1) * (c * r));
        assert(crate::error::prefix_span(dims, st, 2) == (n - 1) * (c * r) + (c - 1) * r);
        assert(crate::error::prefix_span(dims, st, 3) == (n - 1) * (c * r) + (c - 1) * r + (r - 1) * 1);
        assert((n - 1) * (c * r) + (c - 1) * r + (r - 1) * 1 == n * c * r - 1) by (nonlinear_arith);
        assert((n - 1) * (c * r) + (c - 1) * r <= n * c * r - 1) by (nonlinear_arith)
            requires
                n >= 1,
                c >= 1,
                r >= 1,
        ;
        assert((n - 1) * (c * r) <= n * c * r - 1) by (nonlinear_arith)
            requires
                n >= 1,
                c >= 1,
                r >= 1,
        ;
        assert(position::suffix_span(dims, st, 0) == 0);
        assert(position::suffix_span(dims, st, 1) == (r - 1) * 1);
        assert(position::suffix_span(dims, st, 2) == (c - 1) * r + (r - 1) * 1);
        assert(position::suffix_span(dims, st, 3) == (n - 1) * (c * r) + (c - 1) * r + (r - 1) * 1);
    } else {
        assert(dims.contains(0)) by {
            if n == 0 {
                assert(dims[0] == 0);
            } else if c == 0 {
                assert(dims[1] == 0);
            } else {
                assert(dims[2] == 0);
            }
        }
    }
}

} // verus!
