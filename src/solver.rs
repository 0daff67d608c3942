//! The move advisor: enumeration of the completions of a partial board and
//! the choice of the safest hidden cell.
use vstd::prelude::*;
use crate::game::Game;
use crate::rules::{
    first_pass, full_domains_of, lemma_partial_sums, partial_sums, proven_safe, allows, completes, copy_domains, domains_of, full_domain, is_square_domains, lemma_propagated_sound,
    lemma_propagation_idempotent, propagate_to_fixpoint, propagated, prune, revealed_real, rule_inputs,
    sound, Domain, Domains,
};
use crate::board::{
    bomb, column, columns, copy_grid, grid_of, is_real, is_square, lemma_line_bounds, lemma_line_update,
    lemma_set_cell_square, line_bombs, line_sum, points, set_cell, sums_of, write_cell, Grid, SumData,
    TileValue,
};

verus! {

/// Largest dimension whose line sums fit the `u8` fields of `SumData`.
pub const MAX_DIM: usize = 85;

/// A square grid of rows, small enough for its sums to fit in `u8`.
pub open spec fn square_rows(tiles: Seq<Vec<TileValue>>) -> bool {
    &&& is_square(grid_of(tiles), tiles.len() as int)
    &&& tiles.len() <= MAX_DIM
}

pub open spec fn grids(s: Seq<Vec<Vec<TileValue>>>) -> Seq<Grid> {
    Seq::new(s.len(), |i: int| grid_of(s[i]@))
}

/// Every row and every column of `g` meets its published constraint.
pub open spec fn valid(g: Grid, rows: Seq<SumData>, cols: Seq<SumData>) -> bool {
    sums_of(rows, g) && sums_of(cols, columns(g))
}

pub open spec fn is_hidden(g: Grid, p: (usize, usize)) -> bool {
    &&& p.0 < g.len()
    &&& p.1 < g[p.0 as int].len()
    &&& g[p.0 as int][p.1 as int] == TileValue::Hidden
}

/// Row-major order of cells.
pub open spec fn lex_lt(a: (usize, usize), b: (usize, usize)) -> bool {
    a.0 < b.0 || (a.0 == b.0 && a.1 < b.1)
}

/// Hidden cells among the first `j` of row `r`, left to right.
pub open spec fn hidden_in_row(g: Grid, r: int, j: int) -> Seq<(usize, usize)>
    decreases j,
{
    if j <= 0 {
        seq![]
    } else if g[r][j - 1] == TileValue::Hidden {
        hidden_in_row(g, r, j - 1).push((r as usize, (j - 1) as usize))
    } else {
        hidden_in_row(g, r, j - 1)
    }
}

/// Hidden cells of the first `i` rows, in row-major order.
pub open spec fn hidden_upto(g: Grid, i: int) -> Seq<(usize, usize)>
    decreases i,
{
    if i <= 0 {
        seq![]
    } else {
        hidden_upto(g, i - 1) + hidden_in_row(g, i - 1, g[i - 1].len() as int)
    }
}

/// The hidden cells of `g`, in row-major order.
pub open spec fn hidden_cells(g: Grid) -> Seq<(usize, usize)> {
    hidden_upto(g, g.len() as int)
}

/// `cells` lists each hidden cell of `g` once, in row-major order.
pub open spec fn lists_hidden(g: Grid, cells: Seq<(usize, usize)>) -> bool {
    &&& forall|k: int| 0 <= k < cells.len() ==> is_hidden(g, #[trigger] cells[k])
    &&& forall|a: int, b: int| 0 <= a < b < cells.len() ==> lex_lt(#[trigger] cells[a], #[trigger] cells[b])
    &&& forall|p: (usize, usize)| is_hidden(g, p) ==> #[trigger] cells.contains(p)
}

/// The boards reached from `g` by giving each of `cells[k..]` every value in
/// the order bomb, One, Two, Three, that meet the constraints.
pub open spec fn fill(
    g: Grid,
    cells: Seq<(usize, usize)>,
    k: int,
    rows: Seq<SumData>,
    cols: Seq<SumData>,
) -> Seq<Grid>
    decreases cells.len() - k,
{
    if k >= cells.len() {
        if valid(g, rows, cols) {
            seq![g]
        } else {
            seq![]
        }
    } else {
        let r = cells[k].0 as int;
        let c = cells[k].1 as int;
        fill(set_cell(g, r, c, TileValue::Voltorb), cells, k + 1, rows, cols)
            + fill(set_cell(g, r, c, TileValue::One), cells, k + 1, rows, cols)
            + fill(set_cell(g, r, c, TileValue::Two), cells, k + 1, rows, cols)
            + fill(set_cell(g, r, c, TileValue::Three), cells, k + 1, rows, cols)
    }
}

/// Every completion of the partial board `g` that meets the constraints, in
/// the order of the exhaustive search.
pub open spec fn solutions(g: Grid, rows: Seq<SumData>, cols: Seq<SumData>) -> Seq<Grid> {
    fill(g, hidden_cells(g), 0, rows, cols)
}

/// The value sum and bomb count of one line.
fn line_totals(line: &Vec<TileValue>) -> (r: SumData)
    requires
        line@.len() <= MAX_DIM,
    ensures
        r.value_sum == line_sum(line@),
        r.voltorb_count == line_bombs(line@),
{
    let mut value_sum: u8 = 0;
    let mut voltorb_count: u8 = 0;
    let mut j: usize = 0;
    while j < line.len()
        invariant
            j <= line@.len() <= MAX_DIM,
            value_sum == line_sum(line@.take(j as int)),
            voltorb_count == line_bombs(line@.take(j as int)),
        decreases line.len() - j,
    {
        let ghost before = line@.take(j as int);
        let t = line[j];
        proof {
            assert(line@.take(j + 1).drop_last() == before);
            lemma_line_bounds(line@.take(j + 1));
        }
        match t {
            TileValue::One | TileValue::Two | TileValue::Three => {
                value_sum = value_sum + t.to_value();
            },
            TileValue::Voltorb => {
                voltorb_count = voltorb_count + 1;
            },
            _ => {},
        }
        j = j + 1;
    }
    assert(line@.take(j as int) == line@);
    SumData { value_sum, voltorb_count }
}

/// Column `c` of a square grid, top to bottom.
pub(crate) fn column_of(tiles: &Vec<Vec<TileValue>>, c: usize) -> (r: Vec<TileValue>)
    requires
        square_rows(tiles@),
        c < tiles@.len(),
    ensures
        r@ == column(grid_of(tiles@), c as int),
{
    let mut r: Vec<TileValue> = Vec::new();
    let mut i: usize = 0;
    while i < tiles.len()
        invariant
            square_rows(tiles@),
            c < tiles@.len(),
            i <= tiles@.len(),
            r@ == column(grid_of(tiles@), c as int).take(i as int),
        decreases tiles.len() - i,
    {
        assert(grid_of(tiles@)[i as int].len() == tiles@.len());
        r.push(tiles[i][c]);
        i = i + 1;
        assert(r@ =~= column(grid_of(tiles@), c as int).take(i as int));
    }
    assert(r@ =~= column(grid_of(tiles@), c as int));
    r
}

/// The value sum and bomb count of each row.
pub fn get_row_sums(tiles: &Vec<Vec<TileValue>>) -> (r: Vec<SumData>)
    requires
        square_rows(tiles@),
    ensures
        sums_of(r@, grid_of(tiles@)),
{
    let mut r: Vec<SumData> = Vec::new();
    let mut i: usize = 0;
    while i < tiles.len()
        invariant
            square_rows(tiles@),
            i <= tiles@.len(),
            r@.len() == i,
            forall|k: int| 0 <= k < i ==> (#[trigger] r@[k]).value_sum == line_sum(grid_of(tiles@)[k])
                && r@[k].voltorb_count == line_bombs(grid_of(tiles@)[k]),
        decreases tiles.len() - i,
    {
        assert(grid_of(tiles@)[i as int] == tiles@[i as int]@);
        let s = line_totals(&tiles[i]);
        r.push(s);
        i = i + 1;
    }
    r
}

/// The value sum and bomb count of each column.
pub fn get_col_sums(tiles: &Vec<Vec<TileValue>>) -> (r: Vec<SumData>)
    requires
        square_rows(tiles@),
    ensures
        sums_of(r@, columns(grid_of(tiles@))),
{
    let mut r: Vec<SumData> = Vec::new();
    let mut c: usize = 0;
    while c < tiles.len()
        invariant
            square_rows(tiles@),
            c <= tiles@.len(),
            r@.len() == c,
            forall|k: int| 0 <= k < c ==> (#[trigger] r@[k]).value_sum == line_sum(columns(grid_of(tiles@))[k])
                && r@[k].voltorb_count == line_bombs(columns(grid_of(tiles@))[k]),
        decreases tiles.len() - c,
    {
        let col = column_of(tiles, c);
        let s = line_totals(&col);
        r.push(s);
        c = c + 1;
    }
    r
}

/// The hidden cells of a grid in row-major order.
pub(crate) fn get_unflipped_tiles(tiles: &Vec<Vec<TileValue>>) -> (r: Vec<(usize, usize)>)
    requires
        square_rows(tiles@),
    ensures
        r@ == hidden_cells(grid_of(tiles@)),
        lists_hidden(grid_of(tiles@), r@),
{
    let ghost g = grid_of(tiles@);
    let n = tiles.len();
    let mut r: Vec<(usize, usize)> = Vec::new();
    let mut i: usize = 0;
    while i < n
        invariant
            n == tiles@.len(),
            g == grid_of(tiles@),
            square_rows(tiles@),
            i <= n,
            r@ == hidden_upto(g, i as int),
            forall|k: int| 0 <= k < r@.len() ==> is_hidden(g, #[trigger] r@[k]) && r@[k].0 < i,
            forall|a: int, b: int| 0 <= a < b < r@.len() ==> lex_lt(#[trigger] r@[a], #[trigger] r@[b]),
            forall|p: (usize, usize)| is_hidden(g, p) && p.0 < i ==> #[trigger] r@.contains(p),
        decreases n - i,
    {
        let ghost start = r@;
        let mut j: usize = 0;
        assert(g[i as int] == tiles@[i as int]@);
        while j < n
            invariant
                n == tiles@.len(),
                g == grid_of(tiles@),
                square_rows(tiles@),
                i < n,
                j <= n,
                g[i as int] == tiles@[i as int]@,
                start == hidden_upto(g, i as int),
                r@ == start + hidden_in_row(g, i as int, j as int),
                forall|k: int| 0 <= k < r@.len() ==> is_hidden(g, #[trigger] r@[k]) && lex_lt(r@[k], (i, j)),
                forall|a: int, b: int| 0 <= a < b < r@.len() ==> lex_lt(#[trigger] r@[a], #[trigger] r@[b]),
                forall|p: (usize, usize)|
                    is_hidden(g, p) && lex_lt(p, (i, j)) ==> #[trigger] r@.contains(p),
            decreases n - j,
        {
            if tiles[i][j] == TileValue::Hidden {
                let ghost before = r@;
                r.push((i, j));
                assert(r@ =~= start + hidden_in_row(g, i as int, j + 1));
                assert forall|p: (usize, usize)|
                    is_hidden(g, p) && lex_lt(p, (i, (j + 1) as usize)) implies #[trigger] r@.contains(p) by {
                    if p == (i, j) {
                        assert(r@[r@.len() - 1] == p);
                    } else {
                        assert(before.contains(p));
                        let w = choose|w: int| 0 <= w < before.len() && before[w] == p;
                        assert(r@[w] == p);
                    }
                }
            } else {
                assert(r@ =~= start + hidden_in_row(g, i as int, j + 1));
            }
            j = j + 1;
        }
        i = i + 1;
        assert(r@ =~= hidden_upto(g, i as int));
    }
    assert(r@ =~= hidden_cells(g));
    r
}

/// Whether every row and column of a filled grid meets its constraint.
fn is_board_valid(tiles: &Vec<Vec<TileValue>>, rows: &Vec<SumData>, cols: &Vec<SumData>) -> (r: bool)
    requires
        square_rows(tiles@),
        rows@.len() == tiles@.len(),
        cols@.len() == tiles@.len(),
    ensures
        r == valid(grid_of(tiles@), rows@, cols@),
{
    let row_sums = get_row_sums(tiles);
    let col_sums = get_col_sums(tiles);
    let n = tiles.len();
    let mut i: usize = 0;
    while i < n
        invariant
            n == tiles@.len(),
            rows@.len() == n,
            cols@.len() == n,
            i <= n,
            sums_of(row_sums@, grid_of(tiles@)),
            sums_of(col_sums@, columns(grid_of(tiles@))),
            forall|k: int| 0 <= k < i ==> #[trigger] rows@[k] == row_sums@[k],
            forall|k: int| 0 <= k < i ==> #[trigger] cols@[k] == col_sums@[k],
        decreases n - i,
    {
        if row_sums[i] != rows[i] || col_sums[i] != cols[i] {
            assert(!sums_of(rows@, grid_of(tiles@)) || !sums_of(cols@, columns(grid_of(tiles@)))) by {
                if row_sums@[i as int] != rows@[i as int] {
                    assert(row_sums@[i as int].value_sum != rows@[i as int].value_sum
                        || row_sums@[i as int].voltorb_count != rows@[i as int].voltorb_count);
                } else {
                    assert(col_sums@[i as int].value_sum != cols@[i as int].value_sum
                        || col_sums@[i as int].voltorb_count != cols@[i as int].voltorb_count);
                }
            }
            return false;
        }
        assert(rows@[i as int] == row_sums@[i as int]);
        assert(cols@[i as int] == col_sums@[i as int]);
        i = i + 1;
    }
    assert forall|k: int| 0 <= k < n implies (#[trigger] rows@[k]).value_sum == line_sum(grid_of(tiles@)[k])
        && rows@[k].voltorb_count == line_bombs(grid_of(tiles@)[k]) by {
        assert(rows@[k] == row_sums@[k]);
    }
    assert forall|k: int| 0 <= k < n implies (#[trigger] cols@[k]).value_sum == line_sum(columns(grid_of(tiles@))[k])
        && cols@[k].voltorb_count == line_bombs(columns(grid_of(tiles@))[k]) by {
        assert(rows@[k] == row_sums@[k]);
        assert(cols@[k] == col_sums@[k]);
    }
    true
}


/// A recommended move: the cell to reveal, and its chance of being safe as
/// `safe_count` completions out of `total`. With no cell safe in any
/// completion, the cell is `(usize::MAX, usize::MAX)` and `safe_count` is 0.
#[derive(Debug, Clone, Copy, PartialEq, Eq, Structural)]
pub struct Recommendation {
    pub row: usize,
    pub col: usize,
    pub safe_count: usize,
    pub total: usize,
}

/// How many boards of `sols` hold no bomb at (`r`, `c`).
pub open spec fn safe_count(sols: Seq<Grid>, r: int, c: int) -> nat
    decreases sols.len(),
{
    if sols.len() == 0 {
        0
    } else {
        safe_count(sols.drop_last(), r, c) + if sols.last()[r][c] != TileValue::Voltorb {
            1nat
        } else {
            0nat
        }
    }
}

/// Some hidden cell of `g` is safe in some board of `sols`.
pub open spec fn some_safe(g: Grid, sols: Seq<Grid>) -> bool {
    exists|p: (usize, usize)| is_hidden(g, p) && safe_count(sols, p.0 as int, p.1 as int) > 0
}

/// `rec` names the hidden cell of `g` that is safe in the most boards of
/// `sols`, the first in row-major order among equals, and counts the boards.
pub open spec fn is_best(g: Grid, sols: Seq<Grid>, rec: Recommendation) -> bool {
    &&& rec.total == sols.len()
    &&& if some_safe(g, sols) {
        &&& is_hidden(g, (rec.row, rec.col))
        &&& rec.safe_count == safe_count(sols, rec.row as int, rec.col as int)
        &&& forall|p: (usize, usize)|
            is_hidden(g, p) ==> #[trigger] safe_count(sols, p.0 as int, p.1 as int) <= rec.safe_count
        &&& forall|p: (usize, usize)|
            is_hidden(g, p) && lex_lt(p, (rec.row, rec.col)) ==> #[trigger] safe_count(
                sols,
                p.0 as int,
                p.1 as int,
            ) < rec.safe_count
    } else {
        rec.row == usize::MAX && rec.col == usize::MAX && rec.safe_count == 0
    }
}

pub proof fn lemma_safe_count_bound(sols: Seq<Grid>, r: int, c: int)
    ensures
        safe_count(sols, r, c) <= sols.len(),
    decreases sols.len(),
{
    if sols.len() > 0 {
        lemma_safe_count_bound(sols.drop_last(), r, c);
    }
}

/// A cell that is no bomb in any board is safe in all of them.
pub proof fn lemma_safe_count_all(sols: Seq<Grid>, r: int, c: int)
    requires
        forall|i: int| 0 <= i < sols.len() ==> (#[trigger] sols[i])[r][c] != TileValue::Voltorb,
    ensures
        safe_count(sols, r, c) == sols.len(),
    decreases sols.len(),
{
    if sols.len() > 0 {
        let s = sols.drop_last();
        assert forall|i: int| 0 <= i < s.len() implies (#[trigger] s[i])[r][c] != TileValue::Voltorb by {
            assert(s[i] == sols[i]);
        }
        lemma_safe_count_all(s, r, c);
    }
}

proof fn lemma_set_twice(g: Grid, r: int, c: int, v: TileValue, w: TileValue)
    requires
        0 <= r < g.len(),
        0 <= c < g[r].len(),
    ensures
        set_cell(set_cell(g, r, c, v), r, c, w) == set_cell(g, r, c, w),
        set_cell(g, r, c, g[r][c]) == g,
{
    assert(set_cell(set_cell(g, r, c, v), r, c, w) =~~= set_cell(g, r, c, w));
    assert(set_cell(g, r, c, g[r][c]) =~~= g);
}

pub open spec fn cells_in_grid(cells: Seq<(usize, usize)>, n: int) -> bool {
    forall|q: int| 0 <= q < cells.len() ==> #[trigger] cells[q].0 < n && cells[q].1 < n
}

/// Tries value `v` at `cells[k]`, then fills the remaining cells; the grid is
/// left with `v` at that cell.
fn try_value(
    work: &mut Vec<Vec<TileValue>>,
    cells: &Vec<(usize, usize)>,
    k: usize,
    v: TileValue,
    rows: &Vec<SumData>,
    cols: &Vec<SumData>,
    out: &mut Vec<Vec<Vec<TileValue>>>,
)
    requires
        square_rows(old(work)@),
        rows@.len() == old(work)@.len(),
        cols@.len() == old(work)@.len(),
        k < cells@.len(),
        cells_in_grid(cells@, old(work)@.len() as int),
    ensures
        final(work)@.len() == old(work)@.len(),
        grid_of(final(work)@) == set_cell(
            grid_of(old(work)@),
            cells@[k as int].0 as int,
            cells@[k as int].1 as int,
            v,
        ),
        grids(final(out)@) == grids(old(out)@) + fill(
            set_cell(grid_of(old(work)@), cells@[k as int].0 as int, cells@[k as int].1 as int, v),
            cells@,
            k + 1,
            rows@,
            cols@,
        ),
    decreases cells@.len() - k, 0nat,
{
    let (r, c) = cells[k];
    let ghost n = work@.len() as int;
    proof {
        assert(cells@[k as int].0 < n && cells@[k as int].1 < n);
        lemma_set_cell_square(grid_of(work@), n, r as int, c as int, v);
        assert(grid_of(work@)[r as int] == work@[r as int]@);
    }
    write_cell(work, r, c, v);
    let len = cells.len();
    assert(k < len);
    search_all(work, cells, k + 1, rows, cols, out);
}

/// Appends to `out` every board of `fill` from the grid held in `work`, which
/// is left as it was.
fn search_all(
    work: &mut Vec<Vec<TileValue>>,
    cells: &Vec<(usize, usize)>,
    k: usize,
    rows: &Vec<SumData>,
    cols: &Vec<SumData>,
    out: &mut Vec<Vec<Vec<TileValue>>>,
)
    requires
        square_rows(old(work)@),
        rows@.len() == old(work)@.len(),
        cols@.len() == old(work)@.len(),
        k <= cells@.len(),
        cells_in_grid(cells@, old(work)@.len() as int),
    ensures
        final(work)@.len() == old(work)@.len(),
        grid_of(final(work)@) == grid_of(old(work)@),
        grids(final(out)@) == grids(old(out)@) + fill(
            grid_of(old(work)@),
            cells@,
            k as int,
            rows@,
            cols@,
        ),
    decreases cells@.len() - k, 1nat,
{
    let ghost g = grid_of(work@);
    let ghost out0 = grids(out@);
    if k == cells.len() {
        if is_board_valid(work, rows, cols) {
            let b = copy_grid(work);
            out.push(b);
            assert(grids(out@) =~= out0 + seq![g]);
        } else {
            assert(grids(out@) =~= out0 + Seq::<Grid>::empty());
        }
        return;
    }
    let (r, c) = cells[k];
    let ghost n = work@.len() as int;
    proof {
        assert(cells@[k as int].0 < n && cells@[k as int].1 < n);
        assert(g[r as int] == work@[r as int]@);
    }
    let prev = work[r][c];
    assert(prev == g[r as int][c as int]);
    let ghost a = fill(set_cell(g, r as int, c as int, TileValue::Voltorb), cells@, k + 1, rows@, cols@);
    let ghost b = fill(set_cell(g, r as int, c as int, TileValue::One), cells@, k + 1, rows@, cols@);
    let ghost d = fill(set_cell(g, r as int, c as int, TileValue::Two), cells@, k + 1, rows@, cols@);
    let ghost e = fill(set_cell(g, r as int, c as int, TileValue::Three), cells@, k + 1, rows@, cols@);
    try_value(work, cells, k, TileValue::Voltorb, rows, cols, out);
    proof {
        lemma_set_cell_square(g, n, r as int, c as int, TileValue::Voltorb);
        lemma_set_twice(g, r as int, c as int, TileValue::Voltorb, TileValue::One);
    }
    assert(grids(out@) == out0 + a);
    try_value(work, cells, k, TileValue::One, rows, cols, out);
    proof {
        lemma_set_cell_square(g, n, r as int, c as int, TileValue::One);
        lemma_set_twice(g, r as int, c as int, TileValue::One, TileValue::Two);
    }
    assert(grid_of(work@) == set_cell(g, r as int, c as int, TileValue::One));
    assert(grids(out@) == out0 + a + b);
    try_value(work, cells, k, TileValue::Two, rows, cols, out);
    assert(grid_of(work@) == set_cell(g, r as int, c as int, TileValue::Two));
    assert(grids(out@) == out0 + a + b + d);
    proof {
        lemma_set_cell_square(g, n, r as int, c as int, TileValue::Two);
        lemma_set_twice(g, r as int, c as int, TileValue::Two, TileValue::Three);
        lemma_set_cell_square(g, n, r as int, c as int, TileValue::Three);
        assert(grid_of(work@)[r as int] == work@[r as int]@);
    }
    try_value(work, cells, k, TileValue::Three, rows, cols, out);
    assert(grid_of(work@) == set_cell(g, r as int, c as int, TileValue::Three));
    assert(grids(out@) == out0 + a + b + d + e);
    proof {
        assert(grid_of(work@)[r as int] == work@[r as int]@);
    }
    write_cell(work, r, c, prev);
    proof {
        lemma_set_twice(g, r as int, c as int, TileValue::Three, prev);
        assert(fill(g, cells@, k as int, rows@, cols@) == a + b + d + e);
        assert(grids(out@) =~= out0 + (a + b + d + e));
    }
}

/// Every completion of `tiles` that meets the constraints, in the order of
/// the exhaustive search.
fn get_possible_solutions(
    tiles: &Vec<Vec<TileValue>>,
    rows: &Vec<SumData>,
    cols: &Vec<SumData>,
) -> (r: Vec<Vec<Vec<TileValue>>>)
    requires
        square_rows(tiles@),
        rows@.len() == tiles@.len(),
        cols@.len() == tiles@.len(),
    ensures
        grids(r@) == solutions(grid_of(tiles@), rows@, cols@),
        all_square(grids(r@), tiles@.len() as int),
{
    let cells = get_unflipped_tiles(tiles);
    let mut work = copy_grid(tiles);
    let mut out: Vec<Vec<Vec<TileValue>>> = Vec::new();
    proof {
        assert forall|q: int| 0 <= q < cells@.len() implies #[trigger] cells@[q].0 < tiles@.len()
            && cells@[q].1 < tiles@.len() by {
            assert(is_hidden(grid_of(tiles@), cells@[q]));
        }
        assert(grid_of(work@).len() == work@.len());
        assert(grids(out@) =~= Seq::<Grid>::empty());
    }
    search_all(&mut work, &cells, 0, rows, cols, &mut out);
    assert(grids(out@) =~= solutions(grid_of(tiles@), rows@, cols@));
    proof {
        lemma_solutions_square(grid_of(tiles@), cells@, rows@, cols@, tiles@.len() as int);
    }
    out
}


/// Every board of `sols` is an `n`×`n` grid.
pub open spec fn all_square(sols: Seq<Grid>, n: int) -> bool {
    forall|i: int| 0 <= i < sols.len() ==> is_square(#[trigger] sols[i], n)
}

/// How many of the boards hold no bomb at (`r`, `c`).
fn count_safe(sols: &Vec<Vec<Vec<TileValue>>>, n: usize, r: usize, c: usize) -> (k: usize)
    requires
        all_square(grids(sols@), n as int),
        r < n,
        c < n,
    ensures
        k == safe_count(grids(sols@), r as int, c as int),
        k <= sols@.len(),
{
    let mut k: usize = 0;
    let mut i: usize = 0;
    while i < sols.len()
        invariant
            all_square(grids(sols@), n as int),
            r < n,
            c < n,
            i <= sols@.len(),
            k <= i,
            k == safe_count(grids(sols@).take(i as int), r as int, c as int),
        decreases sols.len() - i,
    {
        proof {
            let g = grids(sols@)[i as int];
            assert(is_square(g, n as int));
            assert(g == grid_of(sols@[i as int]@));
            assert(g[r as int] == sols@[i as int]@[r as int]@);
            assert(grids(sols@).take(i + 1).drop_last() == grids(sols@).take(i as int));
        }
        if sols[i][r][c] != TileValue::Voltorb {
            k = k + 1;
        }
        i = i + 1;
    }
    assert(grids(sols@).take(i as int) == grids(sols@));
    k
}

/// The hidden cell of `tiles` that is safe in the most boards, first in
/// row-major order among equals.
fn best_tile(tiles: &Vec<Vec<TileValue>>, sols: &Vec<Vec<Vec<TileValue>>>) -> (rec: Recommendation)
    requires
        square_rows(tiles@),
        all_square(grids(sols@), tiles@.len() as int),
    ensures
        is_best(grid_of(tiles@), grids(sols@), rec),
        rec.safe_count <= rec.total,
{
    let ghost g = grid_of(tiles@);
    let ghost ss = grids(sols@);
    let n = tiles.len();
    let mut best: usize = 0;
    let mut br: usize = usize::MAX;
    let mut bc: usize = usize::MAX;
    let mut i: usize = 0;
    while i < n
        invariant
            n == tiles@.len(),
            g == grid_of(tiles@),
            ss == grids(sols@),
            square_rows(tiles@),
            all_square(ss, n as int),
            i <= n,
            best <= sols@.len(),
            best == 0 ==> br == usize::MAX && bc == usize::MAX,
            best == 0 ==> forall|p: (usize, usize)|
                is_hidden(g, p) && p.0 < i ==> #[trigger] safe_count(ss, p.0 as int, p.1 as int) == 0,
            best > 0 ==> is_hidden(g, (br, bc)) && br < i && safe_count(ss, br as int, bc as int) == best,
            forall|p: (usize, usize)|
                is_hidden(g, p) && p.0 < i ==> #[trigger] safe_count(ss, p.0 as int, p.1 as int) <= best,
            best > 0 ==> forall|p: (usize, usize)|
                is_hidden(g, p) && p.0 < i && lex_lt(p, (br, bc)) ==> #[trigger] safe_count(
                    ss,
                    p.0 as int,
                    p.1 as int,
                ) < best,
        decreases n - i,
    {
        let mut j: usize = 0;
        assert(g[i as int] == tiles@[i as int]@);
        while j < n
            invariant
                n == tiles@.len(),
                g == grid_of(tiles@),
                ss == grids(sols@),
                square_rows(tiles@),
                all_square(ss, n as int),
                i < n,
                j <= n,
                g[i as int] == tiles@[i as int]@,
                best <= sols@.len(),
                best == 0 ==> br == usize::MAX && bc == usize::MAX,
                best == 0 ==> forall|p: (usize, usize)|
                    is_hidden(g, p) && lex_lt(p, (i, j)) ==> #[trigger] safe_count(ss, p.0 as int, p.1 as int)
                        == 0,
                best > 0 ==> is_hidden(g, (br, bc)) && lex_lt((br, bc), (i, j)) && safe_count(
                    ss,
                    br as int,
                    bc as int,
                ) == best,
                forall|p: (usize, usize)|
                    is_hidden(g, p) && lex_lt(p, (i, j)) ==> #[trigger] safe_count(ss, p.0 as int, p.1 as int)
                        <= best,
                best > 0 ==> forall|p: (usize, usize)|
                    is_hidden(g, p) && lex_lt(p, (i, j)) && lex_lt(p, (br, bc)) ==> #[trigger] safe_count(
                        ss,
                        p.0 as int,
                        p.1 as int,
                    ) < best,
            decreases n - j,
        {
            if tiles[i][j] == TileValue::Hidden {
                let k = count_safe(sols, n, i, j);
                if k > best {
                    best = k;
                    br = i;
                    bc = j;
                }
            }
            j = j + 1;
        }
        i = i + 1;
    }
    let rec = Recommendation { row: br, col: bc, safe_count: best, total: sols.len() };
    proof {
        if best > 0 {
            assert(some_safe(g, ss));
        } else {
            if some_safe(g, ss) {
                let p = choose|p: (usize, usize)| is_hidden(g, p) && safe_count(ss, p.0 as int, p.1 as int) > 0;
                assert(p.0 < n);
            }
        }
    }
    rec
}


/// `b` is `g` with real values at the cells of `cells[k..]`: an `n`×`n`
/// board that meets every constraint.
pub open spec fn filled_from(
    g: Grid,
    cells: Seq<(usize, usize)>,
    k: int,
    rows: Seq<SumData>,
    cols: Seq<SumData>,
    n: int,
    b: Grid,
) -> bool {
    &&& is_square(b, n)
    &&& valid(b, rows, cols)
    &&& forall|q: int|
        k <= q < cells.len() ==> is_real(b[(#[trigger] cells[q]).0 as int][cells[q].1 as int])
    &&& forall|r: int, c: int|
        0 <= r < n && 0 <= c < n && (forall|q: int|
            k <= q < cells.len() ==> #[trigger] cells[q] != (r as usize, c as usize)) ==> #[trigger] b[r][c]
            == g[r][c]
}

proof fn lemma_concat_filled(
    a: Seq<Grid>,
    b: Seq<Grid>,
    g: Grid,
    cells: Seq<(usize, usize)>,
    k: int,
    rows: Seq<SumData>,
    cols: Seq<SumData>,
    n: int,
)
    requires
        forall|i: int| 0 <= i < a.len() ==> filled_from(g, cells, k, rows, cols, n, #[trigger] a[i]),
        forall|i: int| 0 <= i < b.len() ==> filled_from(g, cells, k, rows, cols, n, #[trigger] b[i]),
    ensures
        forall|i: int|
            0 <= i < (a + b).len() ==> filled_from(g, cells, k, rows, cols, n, #[trigger] (a + b)[i]),
{
    assert forall|i: int| 0 <= i < (a + b).len() implies filled_from(
        g,
        cells,
        k,
        rows,
        cols,
        n,
        #[trigger] (a + b)[i],
    ) by {
        if i < a.len() {
            assert((a + b)[i] == a[i]);
        } else {
            assert((a + b)[i] == b[i - a.len()]);
        }
    }
}

proof fn lemma_fill_branch(
    g: Grid,
    cells: Seq<(usize, usize)>,
    k: int,
    rows: Seq<SumData>,
    cols: Seq<SumData>,
    n: int,
    v: TileValue,
)
    requires
        is_square(g, n),
        cells_in_grid(cells, n),
        0 <= k < cells.len(),
        is_real(v),
    ensures
        forall|i: int|
            0 <= i < fill(set_cell(g, cells[k].0 as int, cells[k].1 as int, v), cells, k + 1, rows, cols).len()
                ==> filled_from(
                g,
                cells,
                k,
                rows,
                cols,
                n,
                #[trigger] fill(set_cell(g, cells[k].0 as int, cells[k].1 as int, v), cells, k + 1, rows, cols)[i],
            ),
    decreases cells.len() - k, 0nat,
{
    let r0 = cells[k].0 as int;
    let c0 = cells[k].1 as int;
    let gv = set_cell(g, r0, c0, v);
    let f = fill(gv, cells, k + 1, rows, cols);
    assert(cells[k].0 < n && cells[k].1 < n);
    lemma_set_cell_square(g, n, r0, c0, v);
    lemma_fill_elements(gv, cells, k + 1, rows, cols, n);
    assert forall|i: int| 0 <= i < f.len() implies filled_from(g, cells, k, rows, cols, n, #[trigger] f[i]) by {
        let b = f[i];
        assert(filled_from(gv, cells, k + 1, rows, cols, n, b));
        assert forall|q: int| k <= q < cells.len() implies is_real(
            b[(#[trigger] cells[q]).0 as int][cells[q].1 as int],
        ) by {
            if q == k {
                if exists|q2: int| k + 1 <= q2 < cells.len() && cells[q2] == cells[k] {
                    let q2 = choose|q2: int| k + 1 <= q2 < cells.len() && cells[q2] == cells[k];
                    assert(is_real(b[cells[q2].0 as int][cells[q2].1 as int]));
                } else {
                    assert(forall|q2: int| k + 1 <= q2 < cells.len() ==> #[trigger] cells[q2] != (
                    r0 as usize, c0 as usize));
                    assert(b[r0][c0] == gv[r0][c0]);
                }
            }
        }
        assert forall|r: int, c: int|
            0 <= r < n && 0 <= c < n && (forall|q: int|
                k <= q < cells.len() ==> #[trigger] cells[q] != (r as usize, c as usize)) implies #[trigger] b[r][c]
            == g[r][c] by {
            assert(cells[k] != (r as usize, c as usize));
            assert(forall|q: int| k + 1 <= q < cells.len() ==> #[trigger] cells[q] != (r as usize, c as usize));
            assert(b[r][c] == gv[r][c]);
        }
    }
}

/// Every board of `fill` is `g` with real values at `cells[k..]`, and meets
/// every constraint.
pub proof fn lemma_fill_elements(
    g: Grid,
    cells: Seq<(usize, usize)>,
    k: int,
    rows: Seq<SumData>,
    cols: Seq<SumData>,
    n: int,
)
    requires
        is_square(g, n),
        cells_in_grid(cells, n),
        0 <= k <= cells.len(),
    ensures
        forall|i: int|
            0 <= i < fill(g, cells, k, rows, cols).len() ==> filled_from(
                g,
                cells,
                k,
                rows,
                cols,
                n,
                #[trigger] fill(g, cells, k, rows, cols)[i],
            ),
    decreases cells.len() - k, 1nat,
{
    if k < cells.len() {
        let r0 = cells[k].0 as int;
        let c0 = cells[k].1 as int;
        lemma_fill_branch(g, cells, k, rows, cols, n, TileValue::Voltorb);
        lemma_fill_branch(g, cells, k, rows, cols, n, TileValue::One);
        lemma_fill_branch(g, cells, k, rows, cols, n, TileValue::Two);
        lemma_fill_branch(g, cells, k, rows, cols, n, TileValue::Three);
        let a = fill(set_cell(g, r0, c0, TileValue::Voltorb), cells, k + 1, rows, cols);
        let b = fill(set_cell(g, r0, c0, TileValue::One), cells, k + 1, rows, cols);
        let d = fill(set_cell(g, r0, c0, TileValue::Two), cells, k + 1, rows, cols);
        let e = fill(set_cell(g, r0, c0, TileValue::Three), cells, k + 1, rows, cols);
        lemma_concat_filled(a, b, g, cells, k, rows, cols, n);
        lemma_concat_filled(a + b, d, g, cells, k, rows, cols, n);
        lemma_concat_filled(a + b + d, e, g, cells, k, rows, cols, n);
    } else {
        let f = fill(g, cells, k, rows, cols);
        assert forall|i: int| 0 <= i < f.len() implies filled_from(g, cells, k, rows, cols, n, #[trigger] f[i]) by {
            assert(f[i] == g);
        }
    }
}


/// The boards of `solutions` are `n`×`n`.
proof fn lemma_solutions_square(g: Grid, cells: Seq<(usize, usize)>, rows: Seq<SumData>, cols: Seq<SumData>, n: int)
    requires
        is_square(g, n),
        cells_in_grid(cells, n),
    ensures
        all_square(fill(g, cells, 0, rows, cols), n),
{
    lemma_fill_elements(g, cells, 0, rows, cols, n);
    let f = fill(g, cells, 0, rows, cols);
    assert forall|i: int| 0 <= i < f.len() implies is_square(#[trigger] f[i], n) by {
        assert(filled_from(g, cells, 0, rows, cols, n, f[i]));
    }
}

/// The list of hidden cells names cells of the grid.
proof fn lemma_listed_in_grid(g: Grid, cells: Seq<(usize, usize)>, n: int)
    requires
        is_square(g, n),
        lists_hidden(g, cells),
    ensures
        cells_in_grid(cells, n),
{
    assert forall|q: int| 0 <= q < cells.len() implies #[trigger] cells[q].0 < n && cells[q].1 < n by {
        assert(is_hidden(g, cells[q]));
    }
}

/// The safest hidden cell by exhaustive search: every completion of the
/// current board is tried, and the cell that holds no bomb in the most of
/// those that meet the constraints is recommended.
pub fn exhaustive(game: &mut Game) -> (r: Recommendation)
    requires
        old(game).wf(),
    ensures
        *final(game) == *old(game),
        is_best(old(game).current(), solutions(old(game).current(), old(game).target_rows(), old(game).target_cols()), r),
        r.safe_count <= r.total,
{
    let tiles = game.get_curr_board().get_tiles();
    let rows = game.get_row_sums();
    let cols = game.get_col_sums();
    let ghost n = tiles@.len() as int;
    proof {
        assert(game.current().len() == tiles@.len());
    }
    let solved_boards = get_possible_solutions(tiles, rows, cols);
    best_tile(tiles, &solved_boards)
}


/// The cells `cells[k..]` are the hidden cells of `g`, each once.
pub open spec fn pending(g: Grid, cells: Seq<(usize, usize)>, k: int) -> bool {
    &&& forall|q: int| k <= q < cells.len() ==> is_hidden(g, #[trigger] cells[q])
    &&& forall|q1: int, q2: int|
        k <= q1 < cells.len() && k <= q2 < cells.len() && q1 != q2 ==> #[trigger] cells[q1] != #[trigger] cells[q2]
    &&& forall|p: (usize, usize)| is_hidden(g, p) ==> exists|q: int| k <= q < cells.len() && #[trigger] cells[q] == p
}

proof fn lemma_pending_start(g: Grid, cells: Seq<(usize, usize)>)
    requires
        lists_hidden(g, cells),
    ensures
        pending(g, cells, 0),
{
    assert forall|q1: int, q2: int|
        0 <= q1 < cells.len() && 0 <= q2 < cells.len() && q1 != q2 implies #[trigger] cells[q1] != #[trigger] cells[q2] by {
        if q1 < q2 {
            assert(lex_lt(cells[q1], cells[q2]));
        } else {
            assert(lex_lt(cells[q2], cells[q1]));
        }
    }
    assert forall|p: (usize, usize)| is_hidden(g, p) implies exists|q: int| 0 <= q < cells.len() && #[trigger] cells[q] == p by {
        assert(cells.contains(p));
    }
}

proof fn lemma_pending_step(g: Grid, cells: Seq<(usize, usize)>, k: int, v: TileValue)
    requires
        is_square(g, g.len() as int),
        pending(g, cells, k),
        0 <= k < cells.len(),
        is_real(v),
    ensures
        pending(set_cell(g, cells[k].0 as int, cells[k].1 as int, v), cells, k + 1),
{
    let n = g.len() as int;
    let r0 = cells[k].0 as int;
    let c0 = cells[k].1 as int;
    let gv = set_cell(g, r0, c0, v);
    assert(is_hidden(g, cells[k]));
    lemma_set_cell_square(g, n, r0, c0, v);
    assert forall|q: int| k + 1 <= q < cells.len() implies is_hidden(gv, #[trigger] cells[q]) by {
        assert(is_hidden(g, cells[q]));
        assert(cells[q] != cells[k]);
        assert(gv[cells[q].0 as int][cells[q].1 as int] == g[cells[q].0 as int][cells[q].1 as int]);
    }
    assert forall|p: (usize, usize)| is_hidden(gv, p) implies exists|q: int| k + 1 <= q < cells.len() && #[trigger] cells[q] == p by {
        if p == cells[k] {
            assert(gv[r0][c0] == v);
        } else {
            assert(gv[p.0 as int][p.1 as int] == g[p.0 as int][p.1 as int]);
            assert(is_hidden(g, p));
            let q = choose|q: int| k <= q < cells.len() && #[trigger] cells[q] == p;
            assert(q != k);
        }
    }
}

/// A completion of `g` with `v` at the hidden cell (`r`, `c`) completes `g`.
proof fn lemma_completes_step(g: Grid, b: Grid, r: int, c: int, v: TileValue)
    requires
        is_square(g, g.len() as int),
        0 <= r < g.len(),
        0 <= c < g.len(),
        g[r][c] == TileValue::Hidden,
        is_real(v),
        completes(set_cell(g, r, c, v), b),
    ensures
        completes(g, b),
        b[r][c] == v,
{
    let n = g.len() as int;
    let gv = set_cell(g, r, c, v);
    lemma_set_cell_square(g, n, r, c, v);
    assert(b[r][c] == gv[r][c]);
    assert forall|x: int, y: int| 0 <= x < n && 0 <= y < n implies (if g[x][y] == TileValue::Hidden {
        is_real(#[trigger] b[x][y])
    } else {
        b[x][y] == g[x][y]
    }) by {
        if x != r || y != c {
            assert(gv[x][y] == g[x][y]);
        }
    }
}

proof fn lemma_sound_step(g: Grid, d: Domains, rows: Seq<SumData>, cols: Seq<SumData>, r: int, c: int, v: TileValue)
    requires
        is_square(g, g.len() as int),
        0 <= r < g.len(),
        0 <= c < g.len(),
        g[r][c] == TileValue::Hidden,
        is_real(v),
        sound(g, d, rows, cols),
    ensures
        sound(set_cell(g, r, c, v), d, rows, cols),
{
    let n = g.len() as int;
    let gv = set_cell(g, r, c, v);
    lemma_set_cell_square(g, n, r, c, v);
    assert forall|b: Grid, x: int, y: int|
        completes(gv, b) && valid(b, rows, cols) && 0 <= x < gv.len() && 0 <= y < gv.len() && gv[x][y]
            == TileValue::Hidden implies #[trigger] allows(d[x][y], b[x][y]) by {
        lemma_completes_step(g, b, r, c, v);
        assert(gv[x][y] == g[x][y]);
    }
}

/// A board of `fill` with all hidden cells pending completes `g`.
proof fn lemma_filled_completes(
    g: Grid,
    cells: Seq<(usize, usize)>,
    k: int,
    rows: Seq<SumData>,
    cols: Seq<SumData>,
    b: Grid,
)
    requires
        is_square(g, g.len() as int),
        g.len() <= MAX_DIM,
        pending(g, cells, k),
        filled_from(g, cells, k, rows, cols, g.len() as int, b),
    ensures
        completes(g, b),
{
    let n = g.len() as int;
    assert forall|x: int, y: int| 0 <= x < n && 0 <= y < n implies (if g[x][y] == TileValue::Hidden {
        is_real(#[trigger] b[x][y])
    } else {
        b[x][y] == g[x][y]
    }) by {
        let p = (x as usize, y as usize);
        if g[x][y] == TileValue::Hidden {
            assert(is_hidden(g, p));
            let q = choose|q: int| k <= q < cells.len() && #[trigger] cells[q] == p;
            assert(is_real(b[cells[q].0 as int][cells[q].1 as int]));
        } else {
            assert forall|q: int| k <= q < cells.len() implies #[trigger] cells[q] != p by {
                assert(is_hidden(g, cells[q]));
            }
        }
    }
}

/// A value that a sound domain excludes leads to no board.
proof fn lemma_pruned_empty(
    g: Grid,
    cells: Seq<(usize, usize)>,
    k: int,
    rows: Seq<SumData>,
    cols: Seq<SumData>,
    d: Domains,
    v: TileValue,
)
    requires
        is_square(g, g.len() as int),
        g.len() <= MAX_DIM,
        cells_in_grid(cells, g.len() as int),
        0 <= k < cells.len(),
        pending(g, cells, k),
        sound(g, d, rows, cols),
        is_real(v),
        !allows(d[cells[k].0 as int][cells[k].1 as int], v),
    ensures
        fill(set_cell(g, cells[k].0 as int, cells[k].1 as int, v), cells, k + 1, rows, cols).len() == 0,
{
    let n = g.len() as int;
    let r0 = cells[k].0 as int;
    let c0 = cells[k].1 as int;
    let gv = set_cell(g, r0, c0, v);
    let f = fill(gv, cells, k + 1, rows, cols);
    if f.len() > 0 {
        assert(is_hidden(g, cells[k]));
        lemma_set_cell_square(g, n, r0, c0, v);
        lemma_fill_elements(gv, cells, k + 1, rows, cols, n);
        lemma_pending_step(g, cells, k, v);
        let b = f[0];
        assert(filled_from(gv, cells, k + 1, rows, cols, n, b));
        lemma_filled_completes(gv, cells, k + 1, rows, cols, b);
        lemma_completes_step(g, b, r0, c0, v);
        assert(allows(d[r0][c0], b[r0][c0]));
    }
}


/// A partial sum after a cell of the line receives `v`.
pub open spec fn bumped(s: SumData, v: TileValue) -> SumData {
    SumData {
        value_sum: (s.value_sum + points(v)) as u8,
        voltorb_count: (s.voltorb_count + bomb(v)) as u8,
    }
}

fn bump(s: SumData, v: TileValue) -> (r: SumData)
    requires
        s.value_sum + points(v) <= u8::MAX,
        s.voltorb_count + bomb(v) <= u8::MAX,
    ensures
        r == bumped(s, v),
{
    match v {
        TileValue::One => SumData { value_sum: s.value_sum + 1, voltorb_count: s.voltorb_count },
        TileValue::Two => SumData { value_sum: s.value_sum + 2, voltorb_count: s.voltorb_count },
        TileValue::Three => SumData { value_sum: s.value_sum + 3, voltorb_count: s.voltorb_count },
        TileValue::Voltorb => SumData { value_sum: s.value_sum, voltorb_count: s.voltorb_count + 1 },
        _ => s,
    }
}

/// Revealing `v` at a hidden cell keeps the rule inputs consistent when the
/// partial sums of its row and column are bumped.
proof fn lemma_inputs_step(
    g: Grid,
    rows: Seq<SumData>,
    cols: Seq<SumData>,
    pr: Seq<SumData>,
    pc: Seq<SumData>,
    r: int,
    c: int,
    v: TileValue,
)
    requires
        rule_inputs(g, rows, cols, pr, pc),
        0 <= r < g.len(),
        0 <= c < g.len(),
        g[r][c] == TileValue::Hidden,
        is_real(v),
    ensures
        pr[r].value_sum + points(v) <= u8::MAX,
        pr[r].voltorb_count + bomb(v) <= u8::MAX,
        pc[c].value_sum + points(v) <= u8::MAX,
        pc[c].voltorb_count + bomb(v) <= u8::MAX,
        rule_inputs(
            set_cell(g, r, c, v),
            rows,
            cols,
            pr.update(r, bumped(pr[r], v)),
            pc.update(c, bumped(pc[c], v)),
        ),
{
    let n = g.len() as int;
    let gv = set_cell(g, r, c, v);
    lemma_set_cell_square(g, n, r, c, v);
    assert forall|x: int, y: int| 0 <= x < n && 0 <= y < n implies #[trigger] gv[x][y] == TileValue::Hidden
        || is_real(gv[x][y]) by {
        if x != r || y != c {
            assert(g[x][y] == TileValue::Hidden || is_real(g[x][y]));
        }
    }
    assert(gv[r] == g[r].update(c, v));
    lemma_line_update(g[r], c, v);
    lemma_line_bounds(gv[r]);
    let cl = column(g, c);
    assert(column(gv, c) =~= cl.update(r, v));
    assert(columns(g)[c] == cl);
    lemma_line_update(cl, r, v);
    lemma_line_bounds(column(gv, c));
    let pr2 = pr.update(r, bumped(pr[r], v));
    let pc2 = pc.update(c, bumped(pc[c], v));
    assert forall|i: int| 0 <= i < pr2.len() implies (#[trigger] pr2[i]).value_sum == line_sum(gv[i])
        && pr2[i].voltorb_count == line_bombs(gv[i]) by {
        if i != r {
            assert(gv[i] == g[i]);
        }
    }
    assert forall|j: int| 0 <= j < pc2.len() implies (#[trigger] pc2[j]).value_sum == line_sum(columns(gv)[j])
        && pc2[j].voltorb_count == line_bombs(columns(gv)[j]) by {
        assert(columns(gv)[j] == column(gv, j));
        assert(columns(g)[j] == column(g, j));
        if j != c {
            assert(column(gv, j) =~= column(g, j));
        }
    }
}

/// Tries value `v` at `cells[k]` when the cell's domain allows it; the grid
/// and partial sums are left as they were.
fn opt_try(
    work: &mut Vec<Vec<TileValue>>,
    cells: &Vec<(usize, usize)>,
    k: usize,
    v: TileValue,
    allowed: bool,
    rows: &Vec<SumData>,
    cols: &Vec<SumData>,
    curr_row_sums: &mut Vec<SumData>,
    curr_col_sums: &mut Vec<SumData>,
    doms: &Vec<Vec<Domain>>,
    out: &mut Vec<Vec<Vec<TileValue>>>,
)
    requires
        square_rows(old(work)@),
        rule_inputs(grid_of(old(work)@), rows@, cols@, old(curr_row_sums)@, old(curr_col_sums)@),
        k < cells@.len(),
        cells_in_grid(cells@, old(work)@.len() as int),
        pending(grid_of(old(work)@), cells@, k as int),
        is_square_domains(domains_of(doms@), old(work)@.len() as int),
        sound(grid_of(old(work)@), domains_of(doms@), rows@, cols@),
        is_real(v),
        allowed == allows(domains_of(doms@)[cells@[k as int].0 as int][cells@[k as int].1 as int], v),
    ensures
        final(work)@.len() == old(work)@.len(),
        grid_of(final(work)@) == grid_of(old(work)@),
        final(curr_row_sums)@ == old(curr_row_sums)@,
        final(curr_col_sums)@ == old(curr_col_sums)@,
        grids(final(out)@) == grids(old(out)@) + fill(
            set_cell(grid_of(old(work)@), cells@[k as int].0 as int, cells@[k as int].1 as int, v),
            cells@,
            k + 1,
            rows@,
            cols@,
        ),
    decreases cells@.len() - k, 0nat,
{
    let ghost g = grid_of(work@);
    let ghost n = work@.len() as int;
    let ghost out0 = grids(out@);
    let (r, c) = cells[k];
    proof {
        assert(is_hidden(g, cells@[k as int]));
        lemma_set_cell_square(g, n, r as int, c as int, v);
    }
    if !allowed {
        proof {
            lemma_pruned_empty(g, cells@, k as int, rows@, cols@, domains_of(doms@), v);
            assert(grids(out@) =~= out0 + fill(set_cell(g, r as int, c as int, v), cells@, k + 1, rows@, cols@));
        }
        return;
    }
    proof {
        lemma_inputs_step(g, rows@, cols@, curr_row_sums@, curr_col_sums@, r as int, c as int, v);
        lemma_pending_step(g, cells@, k as int, v);
        lemma_sound_step(g, domains_of(doms@), rows@, cols@, r as int, c as int, v);
        assert(g[r as int] == work@[r as int]@);
    }
    write_cell(work, r, c, v);
    let old_r = curr_row_sums[r];
    let old_c = curr_col_sums[c];
    curr_row_sums.set(r, bump(old_r, v));
    curr_col_sums.set(c, bump(old_c, v));
    let len = cells.len();
    assert(k < len);
    opt_get_solutions(work, cells, k + 1, rows, cols, curr_row_sums, curr_col_sums, doms, out);
    curr_row_sums.set(r, old_r);
    curr_col_sums.set(c, old_c);
    proof {
        assert(curr_row_sums@ =~= old(curr_row_sums)@);
        assert(curr_col_sums@ =~= old(curr_col_sums)@);
        assert(grid_of(work@)[r as int] == work@[r as int]@);
    }
    write_cell(work, r, c, TileValue::Hidden);
    proof {
        lemma_set_twice(g, r as int, c as int, v, TileValue::Hidden);
    }
}

/// Appends to `out` every board of `fill` from the grid held in `work`,
/// propagating the rules at each depth and trying at each cell only the
/// values its domain allows. The grid and partial sums are left as they were.
fn opt_get_solutions(
    work: &mut Vec<Vec<TileValue>>,
    cells: &Vec<(usize, usize)>,
    k: usize,
    rows: &Vec<SumData>,
    cols: &Vec<SumData>,
    curr_row_sums: &mut Vec<SumData>,
    curr_col_sums: &mut Vec<SumData>,
    doms: &Vec<Vec<Domain>>,
    out: &mut Vec<Vec<Vec<TileValue>>>,
)
    requires
        square_rows(old(work)@),
        rule_inputs(grid_of(old(work)@), rows@, cols@, old(curr_row_sums)@, old(curr_col_sums)@),
        k <= cells@.len(),
        cells_in_grid(cells@, old(work)@.len() as int),
        pending(grid_of(old(work)@), cells@, k as int),
        is_square_domains(domains_of(doms@), old(work)@.len() as int),
        sound(grid_of(old(work)@), domains_of(doms@), rows@, cols@),
    ensures
        final(work)@.len() == old(work)@.len(),
        grid_of(final(work)@) == grid_of(old(work)@),
        final(curr_row_sums)@ == old(curr_row_sums)@,
        final(curr_col_sums)@ == old(curr_col_sums)@,
        grids(final(out)@) == grids(old(out)@) + fill(grid_of(old(work)@), cells@, k as int, rows@, cols@),
    decreases cells@.len() - k, 1nat,
{
    let ghost g = grid_of(work@);
    let ghost n = work@.len() as int;
    let ghost out0 = grids(out@);
    if k == cells.len() {
        if is_board_valid(work, rows, cols) {
            let b = copy_grid(work);
            out.push(b);
            assert(grids(out@) =~= out0 + seq![g]);
        } else {
            assert(grids(out@) =~= out0 + Seq::<Grid>::empty());
        }
        return;
    }
    let mut local = copy_domains(doms);
    propagate_to_fixpoint(work, rows, curr_row_sums, cols, curr_col_sums, &mut local);
    proof {
        lemma_propagated_sound(g, domains_of(doms@), rows@, cols@, curr_row_sums@, curr_col_sums@);
        let p = domains_of(local@);
        assert(is_square_domains(p, n)) by {
            assert forall|x: int| 0 <= x < n implies #[trigger] p[x].len() == n by {
            }
        }
    }
    let (r, c) = cells[k];
    proof {
        assert(cells@[k as int].0 < n && cells@[k as int].1 < n);
        assert(domains_of(local@)[r as int] == local@[r as int]@);
    }
    let dom = local[r][c];
    let ghost a = fill(set_cell(g, r as int, c as int, TileValue::Voltorb), cells@, k + 1, rows@, cols@);
    let ghost b = fill(set_cell(g, r as int, c as int, TileValue::One), cells@, k + 1, rows@, cols@);
    let ghost d = fill(set_cell(g, r as int, c as int, TileValue::Two), cells@, k + 1, rows@, cols@);
    let ghost e = fill(set_cell(g, r as int, c as int, TileValue::Three), cells@, k + 1, rows@, cols@);
    opt_try(work, cells, k, TileValue::Voltorb, dom.bomb, rows, cols, curr_row_sums, curr_col_sums, &local, out);
    opt_try(work, cells, k, TileValue::One, dom.one, rows, cols, curr_row_sums, curr_col_sums, &local, out);
    opt_try(work, cells, k, TileValue::Two, dom.two, rows, cols, curr_row_sums, curr_col_sums, &local, out);
    opt_try(work, cells, k, TileValue::Three, dom.three, rows, cols, curr_row_sums, curr_col_sums, &local, out);
    proof {
        assert(fill(g, cells@, k as int, rows@, cols@) == a + b + d + e);
        assert(grids(out@) =~= out0 + (a + b + d + e));
    }
}


fn full_domains(n: usize) -> (r: Vec<Vec<Domain>>)
    ensures
        r@.len() == n,
        is_square_domains(domains_of(r@), n as int),
        forall|x: int, y: int| 0 <= x < n && 0 <= y < n ==> #[trigger] domains_of(r@)[x][y] == full_domain(),
{
    let mut r: Vec<Vec<Domain>> = Vec::new();
    let mut i: usize = 0;
    while i < n
        invariant
            i <= n,
            r@.len() == i,
            forall|x: int| 0 <= x < i ==> (#[trigger] r@[x])@ == Seq::new(n as nat, |y: int| full_domain()),
        decreases n - i,
    {
        let mut row: Vec<Domain> = Vec::new();
        let mut j: usize = 0;
        while j < n
            invariant
                j <= n,
                row@ == Seq::new(j as nat, |y: int| full_domain()),
            decreases n - j,
        {
            row.push(Domain { bomb: true, one: true, two: true, three: true });
            j = j + 1;
            assert(row@ =~= Seq::new(j as nat, |y: int| full_domain()));
        }
        r.push(row);
        i = i + 1;
    }
    r
}

/// The first hidden cell, in row-major order, whose domain excludes the bomb.
fn first_safe(tiles: &Vec<Vec<TileValue>>, doms: &Vec<Vec<Domain>>) -> (r: Option<(usize, usize)>)
    requires
        square_rows(tiles@),
        is_square_domains(domains_of(doms@), tiles@.len() as int),
    ensures
        r matches Some(p) ==> is_hidden(grid_of(tiles@), p) && !domains_of(doms@)[p.0 as int][p.1 as int].bomb
            && forall|q: (usize, usize)|
            is_hidden(grid_of(tiles@), q) && lex_lt(q, p) ==> #[trigger] domains_of(doms@)[q.0 as int][q.1 as int].bomb,
        r is None ==> forall|p: (usize, usize)|
            is_hidden(grid_of(tiles@), p) ==> #[trigger] domains_of(doms@)[p.0 as int][p.1 as int].bomb,
{
    let ghost g = grid_of(tiles@);
    let ghost d = domains_of(doms@);
    let n = tiles.len();
    let mut i: usize = 0;
    while i < n
        invariant
            square_rows(tiles@),
            n == tiles@.len(),
            g == grid_of(tiles@),
            d == domains_of(doms@),
            is_square_domains(d, n as int),
            i <= n,
            forall|p: (usize, usize)| is_hidden(g, p) && p.0 < i ==> #[trigger] d[p.0 as int][p.1 as int].bomb,
        decreases n - i,
    {
        assert(g[i as int] == tiles@[i as int]@);
        assert(d[i as int] == doms@[i as int]@);
        let mut j: usize = 0;
        while j < n
            invariant
                square_rows(tiles@),
                n == tiles@.len(),
                g == grid_of(tiles@),
                d == domains_of(doms@),
                is_square_domains(d, n as int),
                i < n,
                j <= n,
                g[i as int] == tiles@[i as int]@,
                d[i as int] == doms@[i as int]@,
                forall|p: (usize, usize)|
                    is_hidden(g, p) && lex_lt(p, (i, j)) ==> #[trigger] d[p.0 as int][p.1 as int].bomb,
            decreases n - j,
        {
            if tiles[i][j] == TileValue::Hidden && !doms[i][j].bomb {
                return Some((i, j));
            }
            j = j + 1;
        }
        i = i + 1;
    }
    None
}

/// What the optimized solver returns for the partial board `g`: when the
/// rules prove some hidden cell free of bombs, the first such cell in
/// row-major order, as one completion out of one (and no completion meeting
/// the constraints has a bomb there); otherwise the exhaustive answer.
pub open spec fn optimized_outcome(g: Grid, rows: Seq<SumData>, cols: Seq<SumData>, rec: Recommendation) -> bool {
    if exists|p: (usize, usize)| proven_safe(g, rows, cols, p) {
        &&& rec.safe_count == 1
        &&& rec.total == 1
        &&& proven_safe(g, rows, cols, (rec.row, rec.col))
        &&& forall|p: (usize, usize)| lex_lt(p, (rec.row, rec.col)) ==> !#[trigger] proven_safe(g, rows, cols, p)
        &&& forall|i: int|
            0 <= i < solutions(g, rows, cols).len() ==> (#[trigger] solutions(g, rows, cols)[i])[rec.row as int][rec.col as int]
                != TileValue::Voltorb
    } else {
        is_best(g, solutions(g, rows, cols), rec)
    }
}

/// The safest hidden cell, found with constraint propagation: when the rules
/// prove a hidden cell free of bombs, that cell is returned at once as
/// certain; otherwise the completions are searched with each cell limited
/// to its domain, which yields the same answer as `exhaustive`.
pub fn optimized_solver(game: &mut Game) -> (r: Recommendation)
    requires
        old(game).wf(),
    ensures
        *final(game) == *old(game),
        optimized_outcome(old(game).current(), old(game).target_rows(), old(game).target_cols(), r),
        r.safe_count <= r.total,
{
    let tiles = game.get_curr_board().get_tiles();
    let rows = game.get_row_sums();
    let cols = game.get_col_sums();
    let ghost g = grid_of(tiles@);
    let ghost n = tiles@.len() as int;
    proof {
        assert(game.current().len() == tiles@.len());
        assert(g == old(game).current() && rows@ == old(game).target_rows() && cols@ == old(game).target_cols());
        assert(revealed_real(g)) by {
            assert forall|x: int, y: int| 0 <= x < n && 0 <= y < n implies #[trigger] g[x][y] == TileValue::Hidden
                || is_real(g[x][y]) by {
                assert(is_real(game.solution()[x][y]));
            }
        }
    }
    let unflipped_tiles = get_unflipped_tiles(tiles);
    let mut curr_row_sums = get_row_sums(tiles);
    let mut curr_col_sums = get_col_sums(tiles);
    let mut doms = full_domains(tiles.len());
    let ghost d0 = domains_of(doms@);
    proof {
        lemma_listed_in_grid(g, unflipped_tiles@, n);
        lemma_pending_start(g, unflipped_tiles@);
        assert(sound(g, d0, rows@, cols@));
        lemma_propagation_idempotent(g, d0, rows@, cols@, curr_row_sums@, curr_col_sums@);
        lemma_propagated_sound(g, d0, rows@, cols@, curr_row_sums@, curr_col_sums@);
        assert(d0 =~~= full_domains_of(n));
        lemma_partial_sums(curr_row_sums@, g);
        lemma_partial_sums(curr_col_sums@, columns(g));
        assert(propagated(g, d0, rows@, cols@, curr_row_sums@, curr_col_sums@) == first_pass(g, rows@, cols@));
    }
    loop
        invariant
            square_rows(tiles@),
            g == grid_of(tiles@),
            n == tiles@.len(),
            rule_inputs(g, rows@, cols@, curr_row_sums@, curr_col_sums@),
            is_square_domains(domains_of(doms@), n),
            is_square_domains(d0, n),
            sound(g, d0, rows@, cols@),
            sound(g, propagated(g, d0, rows@, cols@, curr_row_sums@, curr_col_sums@), rows@, cols@),
            unflipped_tiles@ == hidden_cells(g),
            propagated(g, d0, rows@, cols@, curr_row_sums@, curr_col_sums@) == first_pass(g, rows@, cols@),
            g == old(game).current(),
            rows@ == old(game).target_rows(),
            cols@ == old(game).target_cols(),
            cells_in_grid(unflipped_tiles@, n),
            pending(g, unflipped_tiles@, 0),
            domains_of(doms@) == d0 || domains_of(doms@) == propagated(g, d0, rows@, cols@, curr_row_sums@, curr_col_sums@),
            propagated(g, propagated(g, d0, rows@, cols@, curr_row_sums@, curr_col_sums@), rows@, cols@, curr_row_sums@, curr_col_sums@)
                == propagated(g, d0, rows@, cols@, curr_row_sums@, curr_col_sums@),
        ensures
            is_square_domains(domains_of(doms@), n),
            sound(g, domains_of(doms@), rows@, cols@),
            forall|p: (usize, usize)| !#[trigger] proven_safe(g, rows@, cols@, p),
        decreases (if propagated(g, domains_of(doms@), rows@, cols@, curr_row_sums@, curr_col_sums@) == domains_of(doms@) { 0int } else { 1int }),
    {
        let ghost before = domains_of(doms@);
        let is_pruned = prune(tiles, rows, &curr_row_sums, cols, &curr_col_sums, &mut doms);
        proof {
            lemma_propagation_idempotent(g, before, rows@, cols@, curr_row_sums@, curr_col_sums@);
            let p = domains_of(doms@);
            assert(is_square_domains(p, n)) by {
                assert forall|x: int| 0 <= x < n implies #[trigger] p[x].len() == n by {
                }
            }
        }
        match first_safe(tiles, &doms) {
            Some(tile) => {
                proof {
                    if before == d0 {
                    } else {
                        assert(before == propagated(g, d0, rows@, cols@, curr_row_sums@, curr_col_sums@));
                    }
                    assert(domains_of(doms@) == propagated(g, d0, rows@, cols@, curr_row_sums@, curr_col_sums@));
                    assert(sound(g, domains_of(doms@), rows@, cols@));
                    let sols = solutions(g, rows@, cols@);
                    let cells = unflipped_tiles@;
                    lemma_fill_elements(g, cells, 0, rows@, cols@, n);
                    assert forall|i: int| 0 <= i < sols.len() implies (#[trigger] sols[i])[tile.0 as int][tile.1 as int]
                        != TileValue::Voltorb by {
                        assert(filled_from(g, cells, 0, rows@, cols@, n, sols[i]));
                        lemma_filled_completes(g, cells, 0, rows@, cols@, sols[i]);
                        assert(allows(domains_of(doms@)[tile.0 as int][tile.1 as int], sols[i][tile.0 as int][tile.1 as int]));
                    }
                }
                proof {
                    assert(proven_safe(g, rows@, cols@, tile));
                    assert forall|p: (usize, usize)| lex_lt(p, tile) implies !#[trigger] proven_safe(g, rows@, cols@, p) by {
                        if proven_safe(g, rows@, cols@, p) {
                            assert(is_hidden(g, p));
                        }
                    }
                }
                let rec = Recommendation { row: tile.0, col: tile.1, safe_count: 1, total: 1 };
                assert(g == old(game).current() && rows@ == old(game).target_rows() && cols@ == old(game).target_cols());
                return rec;
            },
            None => {},
        }
        if !is_pruned {
            proof {
                if before == d0 {
                } else {
                    assert(before == propagated(g, d0, rows@, cols@, curr_row_sums@, curr_col_sums@));
                }
                assert(domains_of(doms@) == first_pass(g, rows@, cols@));
                assert forall|p: (usize, usize)| !#[trigger] proven_safe(g, rows@, cols@, p) by {
                    if proven_safe(g, rows@, cols@, p) {
                        assert(is_hidden(g, p));
                    }
                }
            }
            break;
        }
    }
    optimized_exhaustive(tiles, &unflipped_tiles, rows, &mut curr_row_sums, cols, &mut curr_col_sums, &doms)
}

/// The exhaustive answer, found by the search that limits each cell to its
/// domain; the domains must be sound.
fn optimized_exhaustive(
    tiles: &Vec<Vec<TileValue>>,
    unflipped_tiles: &Vec<(usize, usize)>,
    rows: &Vec<SumData>,
    curr_row_sums: &mut Vec<SumData>,
    cols: &Vec<SumData>,
    curr_col_sums: &mut Vec<SumData>,
    doms: &Vec<Vec<Domain>>,
) -> (r: Recommendation)
    requires
        square_rows(tiles@),
        rule_inputs(grid_of(tiles@), rows@, cols@, old(curr_row_sums)@, old(curr_col_sums)@),
        unflipped_tiles@ == hidden_cells(grid_of(tiles@)),
        cells_in_grid(unflipped_tiles@, tiles@.len() as int),
        pending(grid_of(tiles@), unflipped_tiles@, 0),
        is_square_domains(domains_of(doms@), tiles@.len() as int),
        sound(grid_of(tiles@), domains_of(doms@), rows@, cols@),
    ensures
        final(curr_row_sums)@ == old(curr_row_sums)@,
        final(curr_col_sums)@ == old(curr_col_sums)@,
        is_best(grid_of(tiles@), solutions(grid_of(tiles@), rows@, cols@), r),
        r.safe_count <= r.total,
{
    let ghost g = grid_of(tiles@);
    let mut work = copy_grid(tiles);
    let mut out: Vec<Vec<Vec<TileValue>>> = Vec::new();
    proof {
        assert(grid_of(work@).len() == work@.len());
        assert(grids(out@) =~= Seq::<Grid>::empty());
    }
    opt_get_solutions(&mut work, unflipped_tiles, 0, rows, cols, curr_row_sums, curr_col_sums, doms, &mut out);
    proof {
        assert(grids(out@) =~= solutions(g, rows@, cols@));
        lemma_solutions_square(g, unflipped_tiles@, rows@, cols@, tiles@.len() as int);
    }
    best_tile(tiles, &out)
}

/// Both solvers give the safest cell the same chance of being safe whenever
/// the board has a completion that meets the constraints: the pruning rules
/// only drop values that no such completion holds.
pub proof fn lemma_solvers_agree(
    g: Grid,
    rows: Seq<SumData>,
    cols: Seq<SumData>,
    exhaustive_result: Recommendation,
    optimized_result: Recommendation,
)
    requires
        is_best(g, solutions(g, rows, cols), exhaustive_result),
        optimized_outcome(g, rows, cols, optimized_result),
        solutions(g, rows, cols).len() > 0,
    ensures
        exhaustive_result.total > 0,
        optimized_result.total > 0,
        optimized_result.safe_count * exhaustive_result.total == exhaustive_result.safe_count
            * optimized_result.total,
{
    let sols = solutions(g, rows, cols);
    let ex = exhaustive_result;
    let op = optimized_result;
    if is_best(g, sols, op) {
        if some_safe(g, sols) {
            assert(safe_count(sols, op.row as int, op.col as int) <= ex.safe_count);
            assert(safe_count(sols, ex.row as int, ex.col as int) <= op.safe_count);
        }
    } else {
        let p = (op.row, op.col);
        lemma_safe_count_all(sols, op.row as int, op.col as int);
        lemma_safe_count_bound(sols, ex.row as int, ex.col as int);
        assert(is_hidden(g, p) && safe_count(sols, p.0 as int, p.1 as int) > 0);
        assert(some_safe(g, sols));
        assert(safe_count(sols, p.0 as int, p.1 as int) <= ex.safe_count);
    }
}


proof fn lemma_hidden_in_row(g: Grid, r: int, j: int)
    requires
        0 <= r < g.len() <= MAX_DIM,
        0 <= j <= g[r].len() <= MAX_DIM,
    ensures
        forall|k: int|
            0 <= k < hidden_in_row(g, r, j).len() ==> is_hidden(g, #[trigger] hidden_in_row(g, r, j)[k])
                && hidden_in_row(g, r, j)[k].0 == r && hidden_in_row(g, r, j)[k].1 < j,
        forall|a: int, b: int|
            0 <= a < b < hidden_in_row(g, r, j).len() ==> #[trigger] hidden_in_row(g, r, j)[a].1
                < #[trigger] hidden_in_row(g, r, j)[b].1,
        forall|y: int|
            0 <= y < j && g[r][y] == TileValue::Hidden ==> #[trigger] hidden_in_row(g, r, j).contains(
                (r as usize, y as usize),
            ),
    decreases j,
{
    if j > 0 {
        lemma_hidden_in_row(g, r, j - 1);
        let prev = hidden_in_row(g, r, j - 1);
        let cur = hidden_in_row(g, r, j);
        if g[r][j - 1] == TileValue::Hidden {
            assert(cur == prev.push((r as usize, (j - 1) as usize)));
            assert forall|y: int| 0 <= y < j && g[r][y] == TileValue::Hidden implies #[trigger] cur.contains(
                (r as usize, y as usize),
            ) by {
                if y == j - 1 {
                    assert(cur[cur.len() - 1] == (r as usize, y as usize));
                } else {
                    assert(prev.contains((r as usize, y as usize)));
                    let w = choose|w: int| 0 <= w < prev.len() && prev[w] == (r as usize, y as usize);
                    assert(cur[w] == prev[w]);
                }
            }
        }
    }
}

proof fn lemma_hidden_upto(g: Grid, i: int)
    requires
        is_square(g, g.len() as int),
        g.len() <= MAX_DIM,
        0 <= i <= g.len(),
    ensures
        forall|k: int|
            0 <= k < hidden_upto(g, i).len() ==> is_hidden(g, #[trigger] hidden_upto(g, i)[k])
                && hidden_upto(g, i)[k].0 < i,
        forall|a: int, b: int|
            0 <= a < b < hidden_upto(g, i).len() ==> lex_lt(
                #[trigger] hidden_upto(g, i)[a],
                #[trigger] hidden_upto(g, i)[b],
            ),
        forall|p: (usize, usize)| is_hidden(g, p) && p.0 < i ==> #[trigger] hidden_upto(g, i).contains(p),
    decreases i,
{
    if i > 0 {
        lemma_hidden_upto(g, i - 1);
        assert(g[i - 1].len() == g.len());
        lemma_hidden_in_row(g, i - 1, g[i - 1].len() as int);
        let a0 = hidden_upto(g, i - 1);
        let b0 = hidden_in_row(g, i - 1, g[i - 1].len() as int);
        let c0 = hidden_upto(g, i);
        assert(c0 == a0 + b0);
        assert forall|k: int| 0 <= k < c0.len() implies is_hidden(g, #[trigger] c0[k]) && c0[k].0 < i by {
            if k < a0.len() {
                assert(c0[k] == a0[k]);
            } else {
                assert(c0[k] == b0[k - a0.len()]);
            }
        }
        assert forall|x: int, y: int| 0 <= x < y < c0.len() implies lex_lt(#[trigger] c0[x], #[trigger] c0[y]) by {
            if y < a0.len() {
                assert(c0[x] == a0[x] && c0[y] == a0[y]);
            } else if x < a0.len() {
                assert(c0[x] == a0[x] && c0[y] == b0[y - a0.len()]);
            } else {
                assert(c0[x] == b0[x - a0.len()] && c0[y] == b0[y - a0.len()]);
            }
        }
        assert forall|p: (usize, usize)| is_hidden(g, p) && p.0 < i implies #[trigger] c0.contains(p) by {
            if p.0 < i - 1 {
                assert(a0.contains(p));
                let w = choose|w: int| 0 <= w < a0.len() && a0[w] == p;
                assert(c0[w] == p);
            } else {
                assert(b0.contains((p.0 as int as usize, p.1 as int as usize)));
                let w = choose|w: int| 0 <= w < b0.len() && b0[w] == p;
                assert(c0[a0.len() + w] == p);
            }
        }
    }
}

/// The hidden cells of a square board, listed in row-major order.
pub proof fn lemma_hidden_cells_listed(g: Grid)
    requires
        is_square(g, g.len() as int),
        g.len() <= MAX_DIM,
    ensures
        lists_hidden(g, hidden_cells(g)),
{
    lemma_hidden_upto(g, g.len() as int);
    let c = hidden_cells(g);
    assert forall|p: (usize, usize)| is_hidden(g, p) implies #[trigger] c.contains(p) by {
    }
}

/// `b` agrees with `g` outside `cells[k..]` and holds real values there.
pub open spec fn extends_along(g: Grid, cells: Seq<(usize, usize)>, k: int, b: Grid) -> bool {
    &&& is_square(b, g.len() as int)
    &&& forall|q: int| k <= q < cells.len() ==> is_real(b[(#[trigger] cells[q]).0 as int][cells[q].1 as int])
    &&& forall|x: int, y: int|
        0 <= x < g.len() && 0 <= y < g.len() && (forall|q: int|
            k <= q < cells.len() ==> #[trigger] cells[q] != (x as usize, y as usize)) ==> #[trigger] b[x][y]
            == g[x][y]
}

/// `fill` misses no board that extends `g` along `cells[k..]` and meets the
/// constraints.
proof fn lemma_fill_complete(
    g: Grid,
    cells: Seq<(usize, usize)>,
    k: int,
    rows: Seq<SumData>,
    cols: Seq<SumData>,
    b: Grid,
)
    requires
        is_square(g, g.len() as int),
        g.len() <= MAX_DIM,
        cells_in_grid(cells, g.len() as int),
        0 <= k <= cells.len(),
        extends_along(g, cells, k, b),
        valid(b, rows, cols),
    ensures
        fill(g, cells, k, rows, cols).contains(b),
    decreases cells.len() - k,
{
    let n = g.len() as int;
    if k == cells.len() {
        assert forall|x: int| 0 <= x < n implies #[trigger] b[x] =~= g[x] by {
            assert forall|y: int| 0 <= y < n implies #[trigger] b[x][y] == g[x][y] by {
                assert(b[x][y] == g[x][y]);
            }
        }
        assert(b =~= g);
        assert(fill(g, cells, k, rows, cols)[0] == b);
    } else {
        let r0 = cells[k].0 as int;
        let c0 = cells[k].1 as int;
        assert(cells[k].0 < n && cells[k].1 < n);
        let v = b[r0][c0];
        assert(is_real(v));
        let gv = set_cell(g, r0, c0, v);
        lemma_set_cell_square(g, n, r0, c0, v);
        assert forall|x: int, y: int|
            0 <= x < n && 0 <= y < n && (forall|q: int|
                k + 1 <= q < cells.len() ==> #[trigger] cells[q] != (x as usize, y as usize)) implies #[trigger] b[x][y]
            == gv[x][y] by {
            if x == r0 && y == c0 {
            } else {
                assert(cells[k] != (x as usize, y as usize));
                assert(gv[x][y] == g[x][y]);
            }
        }
        lemma_fill_complete(gv, cells, k + 1, rows, cols, b);
        let part = fill(gv, cells, k + 1, rows, cols);
        let w = choose|w: int| 0 <= w < part.len() && part[w] == b;
        let a = fill(set_cell(g, r0, c0, TileValue::Voltorb), cells, k + 1, rows, cols);
        let bb = fill(set_cell(g, r0, c0, TileValue::One), cells, k + 1, rows, cols);
        let d = fill(set_cell(g, r0, c0, TileValue::Two), cells, k + 1, rows, cols);
        let e = fill(set_cell(g, r0, c0, TileValue::Three), cells, k + 1, rows, cols);
        let all = fill(g, cells, k, rows, cols);
        assert(all == a + bb + d + e);
        if v == TileValue::Voltorb {
            assert(all[w] == b);
        } else if v == TileValue::One {
            assert(all[a.len() + w] == b);
        } else if v == TileValue::Two {
            assert(all[a.len() + bb.len() + w] == b);
        } else {
            assert(all[a.len() + bb.len() + d.len() + w] == b);
        }
    }
}

/// The exhaustive search keeps exactly the completions of `g` that meet
/// every constraint: each board it keeps fills every hidden cell with a real
/// value, keeps the revealed ones, and reproduces each row's and column's
/// target sum and bomb count; and each such completion is kept.
pub proof fn lemma_solutions_exact(g: Grid, rows: Seq<SumData>, cols: Seq<SumData>, b: Grid)
    requires
        is_square(g, g.len() as int),
        g.len() <= MAX_DIM,
    ensures
        forall|i: int|
            0 <= i < solutions(g, rows, cols).len() ==> completes(g, #[trigger] solutions(g, rows, cols)[i])
                && sums_of(rows, solutions(g, rows, cols)[i]) && sums_of(
                cols,
                columns(solutions(g, rows, cols)[i]),
            ),
        completes(g, b) && valid(b, rows, cols) ==> solutions(g, rows, cols).contains(b),
{
    let n = g.len() as int;
    let cells = hidden_cells(g);
    lemma_hidden_cells_listed(g);
    lemma_listed_in_grid(g, cells, n);
    lemma_pending_start(g, cells);
    lemma_fill_elements(g, cells, 0, rows, cols, n);
    let sols = solutions(g, rows, cols);
    assert forall|i: int| 0 <= i < sols.len() implies completes(g, #[trigger] sols[i]) && sums_of(rows, sols[i])
        && sums_of(cols, columns(sols[i])) by {
        assert(filled_from(g, cells, 0, rows, cols, n, sols[i]));
        lemma_filled_completes(g, cells, 0, rows, cols, sols[i]);
    }
    if completes(g, b) && valid(b, rows, cols) {
        assert forall|q: int| 0 <= q < cells.len() implies is_real(
            b[(#[trigger] cells[q]).0 as int][cells[q].1 as int],
        ) by {
            assert(is_hidden(g, cells[q]));
        }
        assert forall|x: int, y: int|
            0 <= x < n && 0 <= y < n && (forall|q: int|
                0 <= q < cells.len() ==> #[trigger] cells[q] != (x as usize, y as usize)) implies #[trigger] b[x][y]
            == g[x][y] by {
            if g[x][y] == TileValue::Hidden {
                assert(is_hidden(g, (x as usize, y as usize)));
                assert(cells.contains((x as usize, y as usize)));
            }
        }
        lemma_fill_complete(g, cells, 0, rows, cols, b);
    }
}


/// In a game, the solution is one of the completions of the player's board
/// that meet the constraints.
pub proof fn lemma_game_has_solution(game: &Game)
    requires
        game.wf(),
    ensures
        solutions(game.current(), game.target_rows(), game.target_cols()).contains(game.solution()),
{
    let g = game.current();
    let sol = game.solution();
    let n = game.dim() as int;
    assert(g.len() == n);
    assert forall|r: int, c: int| 0 <= r < n && 0 <= c < n implies (if g[r][c] == TileValue::Hidden {
        is_real(#[trigger] sol[r][c])
    } else {
        sol[r][c] == g[r][c]
    }) by {
        assert(is_real(sol[r][c]));
    }
    lemma_solutions_exact(g, game.target_rows(), game.target_cols(), sol);
}

/// On any game, both solvers give the safest cell the same chance of being
/// safe.
pub proof fn lemma_solvers_agree_on_game(
    game: &Game,
    exhaustive_result: Recommendation,
    optimized_result: Recommendation,
)
    requires
        game.wf(),
        is_best(
            game.current(),
            solutions(game.current(), game.target_rows(), game.target_cols()),
            exhaustive_result,
        ),
        optimized_outcome(game.current(), game.target_rows(), game.target_cols(), optimized_result),
    ensures
        optimized_result.safe_count * exhaustive_result.total == exhaustive_result.safe_count
            * optimized_result.total,
{
    lemma_game_has_solution(game);
    lemma_solvers_agree(game.current(), game.target_rows(), game.target_cols(), exhaustive_result, optimized_result);
}

} // verus!
