//! The grid: how many columns, and which entries stand in which row.

use vstd::prelude::*;

verus! {

/// The number of columns of a grid of `n` entries where `fit` fit.
pub open spec fn columns_of(fit: int, n: int) -> int {
    if n == 0 || fit == 0 {
        1
    } else {
        fit
    }
}

/// The number of columns: as many as fit, but at least one, and one where there
/// is nothing to show.
pub fn columns(fit: usize, n: usize) -> (r: usize)
    ensures
        r == if n == 0 || fit == 0 {
            1
        } else {
            fit
        },
        r == columns_of(fit as int, n as int),
{
    if n == 0 || fit == 0 {
        1
    } else {
        fit
    }
}

/// The rows of `n` entries from the entry `from` on, with `cols` in each but
/// the last: the first entry of each row and the one behind its last.
pub open spec fn rows_from(from: int, n: int, cols: int) -> Seq<(int, int)>
    decreases n - from,
{
    if from >= n || cols < 1 {
        seq![]
    } else {
        let to = if from + cols < n {
            from + cols
        } else {
            n
        };
        seq![(from, to)] + rows_from(to, n, cols)
    }
}

/// The numbers that some rows stand for.
pub open spec fn rows_view(v: Seq<(usize, usize)>) -> Seq<(int, int)> {
    v.map_values(|r: (usize, usize)| (r.0 as int, r.1 as int))
}

/// The rows of a grid of `n` entries in `cols` columns: the first entry of each
/// row and the one behind its last.
pub fn grid_rows(n: usize, cols: usize) -> (r: Vec<(usize, usize)>)
    requires
        cols >= 1,
    ensures
        rows_view(r@) == rows_from(0, n as int, cols as int),
{
    let mut rows: Vec<(usize, usize)> = Vec::new();
    let mut from: usize = 0;
    assert(rows_view(rows@) =~= seq![]);
    assert(rows_view(rows@) + rows_from(0, n as int, cols as int) =~= rows_from(
        0,
        n as int,
        cols as int,
    ));
    while from < n
        invariant
            from <= n,
            cols >= 1,
            rows_from(0, n as int, cols as int) == rows_view(rows@) + rows_from(
                from as int,
                n as int,
                cols as int,
            ),
        decreases n - from,
    {
        let to = if cols < n - from {
            from + cols
        } else {
            n
        };
        let ghost before = rows@;
        rows.push((from, to));
        assert(rows_view(rows@) =~= rows_view(before).push((from as int, to as int)));
        assert(rows_from(0, n as int, cols as int) =~= rows_view(rows@) + rows_from(
            to as int,
            n as int,
            cols as int,
        ));
        from = to;
    }
    assert(rows_view(rows@) + rows_from(n as int, n as int, cols as int) =~= rows_view(rows@));
    rows
}

/// The rows follow each other without a gap and hold every entry: the row `r`
/// the entries from `r * cols` up to the next row, the last row the rest.
pub proof fn law_rows_cover_the_entries(n: int, cols: int)
    requires
        0 <= n,
        1 <= cols,
    ensures
        forall|r: int|
            0 <= r < rows_from(0, n, cols).len() ==> {
                let row = #[trigger] rows_from(0, n, cols)[r];
                &&& row.0 == r * cols
                &&& row.0 < row.1 <= n
                &&& row.1 == (if (r + 1) * cols < n {
                    (r + 1) * cols
                } else {
                    n
                })
            },
        n > 0 ==> rows_from(0, n, cols).len() > 0 && rows_from(0, n, cols).last().1 == n,
{
    lemma_rows(0, n, cols);
}

proof fn lemma_rows(k: int, n: int, cols: int)
    requires
        0 <= k,
        1 <= cols,
    ensures
        forall|r: int|
            0 <= r < rows_from(k * cols, n, cols).len() ==> {
                let row = #[trigger] rows_from(k * cols, n, cols)[r];
                &&& row.0 == (k + r) * cols
                &&& row.0 < row.1 <= n
                &&& row.1 == (if (k + r + 1) * cols < n {
                    (k + r + 1) * cols
                } else {
                    n
                })
            },
        n > k * cols ==> rows_from(k * cols, n, cols).len() > 0 && rows_from(
            k * cols,
            n,
            cols,
        ).last().1 == n,
    decreases n - k * cols,
{
    let from = k * cols;
    assert((k + 1) * cols == from + cols) by (nonlinear_arith)
        requires
            from == k * cols,
    ;
    if from < n {
        let rows = rows_from(from, n, cols);
        if from + cols < n {
            lemma_rows(k + 1, n, cols);
            let rest = rows_from((k + 1) * cols, n, cols);
            assert(rows =~= seq![(from, from + cols)] + rest);
            assert forall|r: int| 0 <= r < rows.len() implies {
                let row = #[trigger] rows[r];
                &&& row.0 == (k + r) * cols
                &&& row.0 < row.1 <= n
                &&& row.1 == (if (k + r + 1) * cols < n {
                    (k + r + 1) * cols
                } else {
                    n
                })
            } by {
                if r > 0 {
                    assert(rows[r] == rest[r - 1]);
                    assert(k + 1 + (r - 1) == k + r);
                }
            }
            assert(rows.last() == rest.last());
        } else {
            assert(rows_from(n, n, cols) =~= seq![]);
            assert(rows =~= seq![(from, n)]);
        }
    }
}

/// There is always a column; where something is shown there are never more than
/// fit, but for that one, and never fewer.
pub proof fn law_columns(fit: int, n: int)
    requires
        0 <= fit,
        0 < n,
    ensures
        columns_of(fit, n) >= 1,
        columns_of(fit, n) >= fit,
        columns_of(fit, n) <= 1 || columns_of(fit, n) <= fit,
        columns_of(fit, 0) == 1,
{
}

} // verus!
