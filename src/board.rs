//! Tiles, boards and their line sums.
use rand::seq::SliceRandom;
use vstd::prelude::*;
use crate::solver::{get_col_sums, get_unflipped_tiles, hidden_cells, lists_hidden, MAX_DIM};

verus! {

/// The state of one cell: `Hidden` only ever appears on a player's board.
#[derive(Debug, Clone, Copy, PartialEq, Eq, Structural, Hash)]
pub enum TileValue {
    Hidden,
    One,
    Two,
    Three,
    Voltorb,
    ERR,
}

/// The published constraint of one row or column.
#[derive(Debug, Clone, Copy, PartialEq, Eq, Structural)]
pub struct SumData {
    pub value_sum: u8,
    pub voltorb_count: u8,
}

/// The numeric code of a tile value (66 marks a bomb, 255 an invalid value).
pub open spec fn value_of(t: TileValue) -> u8 {
    match t {
        TileValue::Hidden => 0,
        TileValue::One => 1,
        TileValue::Two => 2,
        TileValue::Three => 3,
        TileValue::Voltorb => 66,
        TileValue::ERR => 255,
    }
}

/// The tile value of a numeric code; codes without a value give `ERR`.
pub open spec fn enum_of(v: u8) -> TileValue {
    if v == 0 {
        TileValue::Hidden
    } else if v == 1 {
        TileValue::One
    } else if v == 2 {
        TileValue::Two
    } else if v == 3 {
        TileValue::Three
    } else if v == 66 {
        TileValue::Voltorb
    } else {
        TileValue::ERR
    }
}

pub open spec fn is_code(v: u8) -> bool {
    v == 0 || v == 1 || v == 2 || v == 3 || v == 66
}

/// A value that a solution cell can hold.
pub open spec fn is_real(t: TileValue) -> bool {
    t == TileValue::One || t == TileValue::Two || t == TileValue::Three || t == TileValue::Voltorb
}

/// What a cell adds to its line's value sum.
pub open spec fn points(t: TileValue) -> int {
    match t {
        TileValue::One => 1,
        TileValue::Two => 2,
        TileValue::Three => 3,
        _ => 0,
    }
}

pub open spec fn bomb(t: TileValue) -> int {
    if t == TileValue::Voltorb { 1 } else { 0 }
}

/// How far above One a cell's value is.
pub open spec fn extra(t: TileValue) -> int {
    match t {
        TileValue::Two => 1,
        TileValue::Three => 2,
        _ => 0,
    }
}

/// Sum of the non-bomb values of a line.
pub open spec fn line_sum(l: Seq<TileValue>) -> int
    decreases l.len(),
{
    if l.len() == 0 { 0 } else { line_sum(l.drop_last()) + points(l.last()) }
}

/// Number of bombs in a line.
pub open spec fn line_bombs(l: Seq<TileValue>) -> int
    decreases l.len(),
{
    if l.len() == 0 { 0 } else { line_bombs(l.drop_last()) + bomb(l.last()) }
}

/// Total excess over One of the Twos and Threes of a line.
pub open spec fn line_extra(l: Seq<TileValue>) -> int
    decreases l.len(),
{
    if l.len() == 0 { 0 } else { line_extra(l.drop_last()) + extra(l.last()) }
}

/// A grid of cells, indexed by row then column.
pub type Grid = Seq<Seq<TileValue>>;

pub open spec fn is_square(g: Grid, n: int) -> bool {
    g.len() == n && forall|i: int| 0 <= i < n ==> #[trigger] g[i].len() == n
}

pub open spec fn column(g: Grid, c: int) -> Seq<TileValue> {
    Seq::new(g.len(), |r: int| g[r][c])
}

pub open spec fn columns(g: Grid) -> Grid {
    Seq::new(g.len(), |c: int| column(g, c))
}

pub open spec fn set_cell(g: Grid, r: int, c: int, v: TileValue) -> Grid {
    g.update(r, g[r].update(c, v))
}

/// `s` holds, line by line, the value sum and bomb count of `lines`.
pub open spec fn sums_of(s: Seq<SumData>, lines: Grid) -> bool {
    &&& s.len() == lines.len()
    &&& forall|i: int|
        0 <= i < s.len() ==> (#[trigger] s[i]).value_sum == line_sum(lines[i])
            && s[i].voltorb_count == line_bombs(lines[i])
}

/// The grid of a vector of rows.
pub open spec fn grid_of(t: Seq<Vec<TileValue>>) -> Grid {
    Seq::new(t.len(), |i: int| t[i]@)
}

pub proof fn lemma_line_bounds(l: Seq<TileValue>)
    ensures
        0 <= line_sum(l) <= 3 * l.len(),
        0 <= line_bombs(l) <= l.len(),
        0 <= line_extra(l) <= 2 * l.len(),
    decreases l.len(),
{
    if l.len() > 0 {
        lemma_line_bounds(l.drop_last());
    }
}

impl TileValue {
    pub fn to_value(self) -> (r: u8)
        ensures
            r == value_of(self),
    {
        match self {
            TileValue::Hidden => 0,
            TileValue::One => 1,
            TileValue::Two => 2,
            TileValue::Three => 3,
            TileValue::Voltorb => 66,
            TileValue::ERR => 255,
        }
    }

    pub fn to_enum(value: u8) -> (r: TileValue)
        ensures
            r == enum_of(value),
    {
        match value {
            0 => TileValue::Hidden,
            1 => TileValue::One,
            2 => TileValue::Two,
            3 => TileValue::Three,
            66 => TileValue::Voltorb,
            _ => TileValue::ERR,
        }
    }
}

/// Converting a value to its code and back gives the value; a code converts
/// back to itself; any other number gives the invalid marker `ERR`, whose own
/// code is none of the valid ones.
pub proof fn lemma_value_round_trip(t: TileValue, v: u8)
    ensures
        enum_of(value_of(t)) == t,
        is_code(v) ==> value_of(enum_of(v)) == v,
        !is_code(v) ==> enum_of(v) == TileValue::ERR,
        !is_code(value_of(TileValue::ERR)),
{
}

/// `cur` shows each cell of the solution `sol` or hides it; `sol` holds only
/// real values; both are `n`×`n`.
pub open spec fn view_of(cur: Grid, sol: Grid, n: int) -> bool {
    &&& is_square(cur, n)
    &&& is_square(sol, n)
    &&& forall|r: int, c: int|
        0 <= r < n && 0 <= c < n ==> is_real(#[trigger] sol[r][c]) && (cur[r][c] == TileValue::Hidden
            || cur[r][c] == sol[r][c])
}

/// An N×N grid of tiles.
#[derive(Clone)]
pub struct Board {
    tiles: Vec<Vec<TileValue>>,
    board_dim: usize,
}

/// A fixture: a solution and the player's first view of it.
#[derive(Clone)]
pub struct PremadeBoard {
    pub solution: Board,
    pub initial: Board,
    board_dim: usize,
}

/// Number of Twos a random solution holds.
pub const NUM_TWOS: usize = 6;

/// Number of Threes a random solution holds.
pub const NUM_THREES: usize = 4;

/// Number of bombs a random solution holds.
pub const NUM_VOLTORBS: usize = 3;

/// The value written at the `k`-th position of a random placement order:
/// Twos first, then Threes, then bombs.
pub open spec fn placement_value(k: int) -> TileValue {
    if k < NUM_TWOS {
        TileValue::Two
    } else if k < NUM_TWOS + NUM_THREES {
        TileValue::Three
    } else {
        TileValue::Voltorb
    }
}

pub open spec fn uniform(n: int, v: TileValue) -> Grid {
    Seq::new(n as nat, |i: int| Seq::new(n as nat, |j: int| v))
}

/// The board of ones on which the first `k` positions of `order` have been
/// given their placement values.
pub open spec fn placed(n: int, order: Seq<(usize, usize)>, k: int) -> Grid
    decreases k,
{
    if k <= 0 {
        uniform(n, TileValue::One)
    } else {
        set_cell(
            placed(n, order, k - 1),
            order[k - 1].0 as int,
            order[k - 1].1 as int,
            placement_value(k - 1),
        )
    }
}

/// How many positions of an order of `len` cells get a value other than One.
pub open spec fn placed_count(len: int) -> int {
    if len < NUM_TWOS + NUM_THREES + NUM_VOLTORBS {
        len
    } else {
        (NUM_TWOS + NUM_THREES + NUM_VOLTORBS) as int
    }
}

/// The cells of an `n`×`n` grid in the first `i` rows, in row-major order.
pub open spec fn cell_rows(n: int, i: int) -> Seq<(usize, usize)>
    decreases i,
{
    if i <= 0 {
        seq![]
    } else {
        cell_rows(n, i - 1) + Seq::new(n as nat, |j: int| ((i - 1) as usize, j as usize))
    }
}

pub open spec fn in_grid(p: (usize, usize), n: int) -> bool {
    p.0 < n && p.1 < n
}

/// Relies on rand's `SliceRandom::shuffle`, driven by `rand::rng()`: it
/// permutes the elements in place.
#[verifier::external_body]
fn shuffle_cells(v: &mut Vec<(usize, usize)>)
    ensures
        final(v)@.len() == old(v)@.len(),
        final(v)@.to_multiset() == old(v)@.to_multiset(),
        forall|i: int| 0 <= i < final(v)@.len() ==> old(v)@.contains(#[trigger] final(v)@[i]),
{
    v.shuffle(&mut rand::rng());
}

fn copy_row(row: &Vec<TileValue>) -> (r: Vec<TileValue>)
    ensures
        r@ == row@,
{
    let mut r: Vec<TileValue> = Vec::new();
    let mut j: usize = 0;
    while j < row.len()
        invariant
            j <= row.len(),
            r@ == row@.take(j as int),
        decreases row.len() - j,
    {
        r.push(row[j]);
        j = j + 1;
        assert(r@ =~= row@.take(j as int));
    }
    assert(r@ =~= row@);
    r
}

/// A copy of a grid, row by row.
pub(crate) fn copy_grid(t: &Vec<Vec<TileValue>>) -> (r: Vec<Vec<TileValue>>)
    ensures
        grid_of(r@) == grid_of(t@),
{
    let mut r: Vec<Vec<TileValue>> = Vec::new();
    let mut i: usize = 0;
    while i < t.len()
        invariant
            i <= t.len(),
            r@.len() == i,
            forall|k: int| 0 <= k < i ==> (#[trigger] r@[k])@ == t@[k]@,
        decreases t.len() - i,
    {
        let row = copy_row(&t[i]);
        r.push(row);
        i = i + 1;
    }
    assert(grid_of(r@) =~= grid_of(t@));
    r
}

/// Writes `v` at (`i`, `j`) of a grid of rows.
pub(crate) fn write_cell(t: &mut Vec<Vec<TileValue>>, i: usize, j: usize, v: TileValue)
    requires
        i < old(t)@.len(),
        j < old(t)@[i as int]@.len(),
    ensures
        final(t)@.len() == old(t)@.len(),
        grid_of(final(t)@) == set_cell(grid_of(old(t)@), i as int, j as int, v),
{
    let mut row = copy_row(&t[i]);
    row.set(j, v);
    t.set(i, row);
    assert(grid_of(t@) =~= set_cell(grid_of(old(t)@), i as int, j as int, v));
}

fn uniform_grid(n: usize, v: TileValue) -> (r: Vec<Vec<TileValue>>)
    ensures
        r@.len() == n,
        grid_of(r@) == uniform(n as int, v),
{
    let mut r: Vec<Vec<TileValue>> = Vec::new();
    let mut i: usize = 0;
    while i < n
        invariant
            i <= n,
            r@.len() == i,
            forall|k: int| 0 <= k < i ==> (#[trigger] r@[k])@ == Seq::new(n as nat, |q: int| v),
        decreases n - i,
    {
        let mut row: Vec<TileValue> = Vec::new();
        let mut j: usize = 0;
        while j < n
            invariant
                j <= n,
                row@ == Seq::new(j as nat, |k: int| v),
            decreases n - j,
        {
            row.push(v);
            j = j + 1;
            assert(row@ =~= Seq::new(j as nat, |k: int| v));
        }
        r.push(row);
        i = i + 1;
    }
    assert(grid_of(r@) =~= uniform(n as int, v));
    r
}

pub proof fn lemma_set_cell_square(g: Grid, n: int, r: int, c: int, v: TileValue)
    requires
        is_square(g, n),
        0 <= r < n,
        0 <= c < n,
    ensures
        is_square(set_cell(g, r, c, v), n),
        set_cell(g, r, c, v)[r][c] == v,
        forall|i: int, j: int|
            0 <= i < n && 0 <= j < n && (i != r || j != c) ==> #[trigger] set_cell(g, r, c, v)[i][j]
                == g[i][j],
{
    assert forall|i: int| 0 <= i < n implies #[trigger] set_cell(g, r, c, v)[i].len() == n by {
        if i != r {
            assert(set_cell(g, r, c, v)[i] == g[i]);
        }
    }
}

/// A placement writes only real values on a square grid of ones.
proof fn lemma_placed_real(n: int, order: Seq<(usize, usize)>, k: int)
    requires
        0 <= n,
        0 <= k <= order.len(),
        forall|q: int| 0 <= q < order.len() ==> in_grid(#[trigger] order[q], n),
    ensures
        is_square(placed(n, order, k), n),
        forall|r: int, c: int| 0 <= r < n && 0 <= c < n ==> is_real(#[trigger] placed(n, order, k)[r][c]),
    decreases k,
{
    if k > 0 {
        lemma_placed_real(n, order, k - 1);
        assert(in_grid(order[k - 1], n));
        lemma_set_cell_square(placed(n, order, k - 1), n, order[k - 1].0 as int, order[k - 1].1 as int, placement_value(k - 1));
    }
}


/// `m` fills the line `l`: real values where `l` is hidden, `l`'s own values
/// elsewhere.
pub open spec fn fills_line(l: Seq<TileValue>, m: Seq<TileValue>) -> bool {
    &&& m.len() == l.len()
    &&& forall|j: int|
        0 <= j < l.len() ==> if l[j] == TileValue::Hidden {
            is_real(#[trigger] m[j])
        } else {
            m[j] == l[j]
        }
}

/// Every cell but `c` of the line is revealed.
pub open spec fn only_hidden(l: Seq<TileValue>, c: int) -> bool {
    forall|j: int| 0 <= j < l.len() && j != c ==> #[trigger] l[j] != TileValue::Hidden
}

/// Filling hidden cells never lowers a line's sum, bomb count or excess,
/// and changes none of them when nothing is hidden.
pub proof fn lemma_fill_line_ge(l: Seq<TileValue>, m: Seq<TileValue>)
    requires
        fills_line(l, m),
    ensures
        line_sum(m) >= line_sum(l),
        line_bombs(m) >= line_bombs(l),
        line_extra(m) >= line_extra(l),
        (forall|j: int| 0 <= j < l.len() ==> #[trigger] l[j] != TileValue::Hidden) ==> line_sum(m) == line_sum(l)
            && line_bombs(m) == line_bombs(l) && line_extra(m) == line_extra(l),
    decreases l.len(),
{
    if l.len() > 0 {
        let l0 = l.drop_last();
        let m0 = m.drop_last();
        assert forall|j: int| 0 <= j < l0.len() implies (if l0[j] == TileValue::Hidden {
            is_real(#[trigger] m0[j])
        } else {
            m0[j] == l0[j]
        }) by {
            assert(l0[j] == l[j] && m0[j] == m[j]);
        }
        lemma_fill_line_ge(l0, m0);
        assert(fills_line(l, m) ==> (l.last() == TileValue::Hidden || m.last() == l.last())) by {
            assert(l.last() == l[l.len() - 1]);
        }
        if forall|j: int| 0 <= j < l.len() ==> #[trigger] l[j] != TileValue::Hidden {
            assert forall|j: int| 0 <= j < l0.len() implies #[trigger] l0[j] != TileValue::Hidden by {
                assert(l0[j] == l[j]);
            }
            assert(l[l.len() - 1] != TileValue::Hidden);
        }
    }
}

/// What a filled hidden cell `c` adds to its line, exactly when it is the
/// only hidden cell.
pub proof fn lemma_fill_line_at(l: Seq<TileValue>, m: Seq<TileValue>, c: int)
    requires
        fills_line(l, m),
        0 <= c < l.len(),
        l[c] == TileValue::Hidden,
    ensures
        line_sum(m) >= line_sum(l) + points(m[c]),
        line_bombs(m) >= line_bombs(l) + bomb(m[c]),
        line_extra(m) >= line_extra(l) + extra(m[c]),
        only_hidden(l, c) ==> line_sum(m) == line_sum(l) + points(m[c]) && line_bombs(m) == line_bombs(l)
            + bomb(m[c]),
    decreases l.len(),
{
    let l0 = l.drop_last();
    let m0 = m.drop_last();
    assert forall|j: int| 0 <= j < l0.len() implies (if l0[j] == TileValue::Hidden {
        is_real(#[trigger] m0[j])
    } else {
        m0[j] == l0[j]
    }) by {
        assert(l0[j] == l[j] && m0[j] == m[j]);
    }
    assert(l.last() == l[l.len() - 1] && m.last() == m[m.len() - 1]);
    if c == l.len() - 1 {
        lemma_fill_line_ge(l0, m0);
        if only_hidden(l, c) {
            assert forall|j: int| 0 <= j < l0.len() implies #[trigger] l0[j] != TileValue::Hidden by {
                assert(l0[j] == l[j]);
            }
        }
    } else {
        assert(l0[c] == l[c] && m0[c] == m[c]);
        lemma_fill_line_at(l0, m0, c);
        if only_hidden(l, c) {
            assert forall|j: int| 0 <= j < l0.len() && j != c implies #[trigger] l0[j] != TileValue::Hidden by {
                assert(l0[j] == l[j]);
            }
            assert(l[l.len() - 1] != TileValue::Hidden);
        }
    }
}

/// In a line of real values, sum plus bombs is the length plus the excess.
pub proof fn lemma_line_identity(m: Seq<TileValue>)
    requires
        forall|j: int| 0 <= j < m.len() ==> is_real(#[trigger] m[j]),
    ensures
        line_sum(m) + line_bombs(m) == m.len() + line_extra(m),
    decreases m.len(),
{
    if m.len() > 0 {
        let m0 = m.drop_last();
        assert forall|j: int| 0 <= j < m0.len() implies is_real(#[trigger] m0[j]) by {
            assert(m0[j] == m[j]);
        }
        lemma_line_identity(m0);
        assert(is_real(m[m.len() - 1]));
    }
}

/// Writing `v` at `c` changes a line's sums by what `v` and the old value add.
pub proof fn lemma_line_update(l: Seq<TileValue>, c: int, v: TileValue)
    requires
        0 <= c < l.len(),
    ensures
        line_sum(l.update(c, v)) == line_sum(l) - points(l[c]) + points(v),
        line_bombs(l.update(c, v)) == line_bombs(l) - bomb(l[c]) + bomb(v),
    decreases l.len(),
{
    let u = l.update(c, v);
    if c == l.len() - 1 {
        assert(u.drop_last() == l.drop_last());
    } else {
        assert(u.drop_last() == l.drop_last().update(c, v));
        lemma_line_update(l.drop_last(), c, v);
    }
}

impl PremadeBoard {
    pub closed spec fn dim(&self) -> usize {
        self.board_dim
    }

    /// Both boards are square, of the fixture's dimension, and the first
    /// view shows each cell of the solution or hides it.
    pub closed spec fn wf(&self) -> bool {
        &&& self.solution.wf()
        &&& self.initial.wf()
        &&& self.solution.dim() == self.dim()
        &&& self.initial.dim() == self.dim()
        &&& view_of(self.initial@, self.solution@, self.dim() as int)
    }

    pub fn get_board_dim(&self) -> (r: usize)
        ensures
            r == self.dim(),
    {
        self.board_dim
    }
}

impl View for Board {
    type V = Grid;

    closed spec fn view(&self) -> Grid {
        grid_of(self.tiles@)
    }
}

impl Board {
    pub closed spec fn dim(&self) -> usize {
        self.board_dim
    }

    /// The board is square, of its own dimension.
    pub open spec fn wf(&self) -> bool {
        is_square(self@, self.dim() as int)
    }

    pub fn new(board_dim: usize, default_value: TileValue) -> (r: Board)
        ensures
            r.wf(),
            r.dim() == board_dim,
            r@ == uniform(board_dim as int, default_value),
    {
        let tiles = uniform_grid(board_dim, default_value);
        Board { tiles, board_dim }
    }

    pub fn get_tiles(&self) -> (r: &Vec<Vec<TileValue>>)
        ensures
            grid_of(r@) == self@,
    {
        &self.tiles
    }

    pub fn get_board_dim(&self) -> (r: usize)
        ensures
            r == self.dim(),
    {
        self.board_dim
    }

    pub fn get_val(&self, i: usize, j: usize) -> (r: TileValue)
        requires
            self.wf(),
            i < self.dim(),
            j < self.dim(),
        ensures
            r == self@[i as int][j as int],
    {
        self.tiles[i][j]
    }

    pub fn set_val(&mut self, i: usize, j: usize, val: TileValue)
        requires
            old(self).wf(),
            i < old(self).dim(),
            j < old(self).dim(),
        ensures
            final(self).wf(),
            final(self).dim() == old(self).dim(),
            final(self)@ == set_cell(old(self)@, i as int, j as int, val),
    {
        assert(self@[i as int] == self.tiles@[i as int]@);
        write_cell(&mut self.tiles, i, j, val);
    }

    /// The solution obtained from a placement order: every cell is One but the
    /// first positions of `order`, which get six Twos, then four Threes, then
    /// three bombs (fewer when the order is shorter).
    pub fn solution_from_order(board_dim: usize, order: &Vec<(usize, usize)>) -> (r: Board)
        requires
            forall|k: int| 0 <= k < order@.len() ==> in_grid(#[trigger] order@[k], board_dim as int),
        ensures
            r.wf(),
            r.dim() == board_dim,
            r@ == placed(board_dim as int, order@, placed_count(order@.len() as int)),
    {
        let mut tiles = uniform_grid(board_dim, TileValue::One);
        let total: usize = if order.len() < NUM_TWOS + NUM_THREES + NUM_VOLTORBS {
            order.len()
        } else {
            NUM_TWOS + NUM_THREES + NUM_VOLTORBS
        };
        let mut k: usize = 0;
        while k < total
            invariant
                k <= total,
                total == placed_count(order@.len() as int),
                total <= order@.len(),
                forall|q: int| 0 <= q < order@.len() ==> in_grid(#[trigger] order@[q], board_dim as int),
                grid_of(tiles@) == placed(board_dim as int, order@, k as int),
                is_square(grid_of(tiles@), board_dim as int),
                tiles@.len() == board_dim,
            decreases total - k,
        {
            let (r, c) = order[k];
            assert(in_grid(order@[k as int], board_dim as int));
            let v = if k < NUM_TWOS {
                TileValue::Two
            } else if k < NUM_TWOS + NUM_THREES {
                TileValue::Three
            } else {
                TileValue::Voltorb
            };
            assert(grid_of(tiles@)[r as int].len() == board_dim);
            write_cell(&mut tiles, r, c, v);
            k = k + 1;
        }
        Board { tiles, board_dim }
    }

    /// Replaces the board by a random solution: the cells are put in a random
    /// order and placed as `solution_from_order` does.
    pub fn create_solution(&mut self)
        requires
            old(self).wf(),
        ensures
            final(self).wf(),
            final(self).dim() == old(self).dim(),
            forall|r: int, c: int|
                0 <= r < old(self).dim() && 0 <= c < old(self).dim() ==> is_real(#[trigger] final(self)@[r][c]),
            exists|order: Seq<(usize, usize)>|
                #![trigger placed(old(self).dim() as int, order, placed_count(order.len() as int))]
                order.to_multiset() == cell_rows(old(self).dim() as int, old(self).dim() as int).to_multiset()
                && final(self)@ == placed(old(self).dim() as int, order, placed_count(order.len() as int)),
    {
        let n = self.board_dim;
        let mut positions: Vec<(usize, usize)> = Vec::new();
        let mut row: usize = 0;
        while row < n
            invariant
                row <= n,
                positions@ == cell_rows(n as int, row as int),
                forall|k: int| 0 <= k < positions@.len() ==> in_grid(#[trigger] positions@[k], n as int),
            decreases n - row,
        {
            let ghost start = positions@;
            let mut col: usize = 0;
            while col < n
                invariant
                    row < n,
                    col <= n,
                    start == cell_rows(n as int, row as int),
                    positions@ == start + Seq::new(col as nat, |j: int| (row, j as usize)),
                    forall|k: int| 0 <= k < positions@.len() ==> in_grid(#[trigger] positions@[k], n as int),
                decreases n - col,
            {
                positions.push((row, col));
                col = col + 1;
                assert(positions@ =~= start + Seq::new(col as nat, |j: int| (row, j as usize)));
            }
            row = row + 1;
            assert(positions@ =~= cell_rows(n as int, row as int));
        }
        let ghost before = positions@;
        shuffle_cells(&mut positions);
        assert forall|k: int| 0 <= k < positions@.len() implies in_grid(#[trigger] positions@[k], n as int) by {
            assert(before.contains(positions@[k]));
        }
        proof {
            lemma_placed_real(n as int, positions@, placed_count(positions@.len() as int));
        }
        *self = Board::solution_from_order(n, &positions);
    }

    pub fn from_tiles(tiles: Vec<Vec<TileValue>>) -> (r: Board)
        ensures
            r@ == grid_of(tiles@),
            r.dim() == tiles@.len(),
            r.wf() <==> is_square(grid_of(tiles@), tiles@.len() as int),
    {
        let board_dim = tiles.len();
        Board { tiles, board_dim }
    }

    /// The value sum and bomb count of each row.
    pub fn get_row_sums(&self) -> (r: Vec<SumData>)
        requires
            self.wf(),
            self.dim() <= MAX_DIM,
        ensures
            sums_of(r@, self@),
    {
        crate::solver::get_row_sums(&self.tiles)
    }

    /// The value sum and bomb count of each column.
    pub fn get_col_sums(&self) -> (r: Vec<SumData>)
        requires
            self.wf(),
            self.dim() <= MAX_DIM,
        ensures
            sums_of(r@, columns(self@)),
    {
        get_col_sums(&self.tiles)
    }

    /// The hidden cells, in row-major order.
    pub fn get_hidden_tile_indices(&self) -> (r: Vec<(usize, usize)>)
        requires
            self.wf(),
            self.dim() <= MAX_DIM,
        ensures
            r@ == hidden_cells(self@),
            lists_hidden(self@, r@),
    {
        get_unflipped_tiles(&self.tiles)
    }

    /// The fixtures: a 5×5 board with seven cells hidden, a 5×5 board whose
    /// four inner cells are hidden, and a fully hidden 3×3 board with bombs on
    /// its diagonal.
    pub fn premade_boards() -> (r: Vec<PremadeBoard>)
        ensures
            r@.len() == 3,
            forall|i: int| 0 <= i < 3 ==> (#[trigger] r@[i]).wf(),
            r@[0].dim() == 5,
            r@[1].dim() == 5,
            r@[2].dim() == 3,
    {
        let first_solution = vec![
            vec![TileValue::Two, TileValue::Three, TileValue::One, TileValue::Two, TileValue::One],
            vec![TileValue::One, TileValue::Voltorb, TileValue::Two, TileValue::One, TileValue::One],
            vec![TileValue::Two, TileValue::One, TileValue::Three, TileValue::Three, TileValue::One],
            vec![TileValue::Three, TileValue::Voltorb, TileValue::One, TileValue::One, TileValue::One],
            vec![TileValue::One, TileValue::Two, TileValue::Two, TileValue::Voltorb, TileValue::Voltorb],
        ];
        let first_initial = vec![
            vec![TileValue::Two, TileValue::Three, TileValue::One, TileValue::Two, TileValue::One],
            vec![TileValue::One, TileValue::Hidden, TileValue::Two, TileValue::One, TileValue::Hidden],
            vec![TileValue::Two, TileValue::One, TileValue::Three, TileValue::Three, TileValue::One],
            vec![TileValue::Three, TileValue::Hidden, TileValue::One, TileValue::Hidden, TileValue::Hidden],
            vec![TileValue::One, TileValue::Hidden, TileValue::Two, TileValue::Hidden, TileValue::Hidden],
        ];
        let second_solution = tiles_from_codes(
            vec![
                vec![1, 1, 1, 1, 1],
                vec![1, 2, 1, 66, 1],
                vec![1, 1, 1, 1, 1],
                vec![1, 66, 1, 2, 1],
                vec![1, 1, 1, 1, 1],
            ],
        );
        let second_initial = tiles_from_codes(
            vec![
                vec![1, 1, 1, 1, 1],
                vec![1, 0, 1, 0, 1],
                vec![1, 1, 1, 1, 1],
                vec![1, 0, 1, 0, 1],
                vec![1, 1, 1, 1, 1],
            ],
        );
        let third_solution = tiles_from_codes(vec![vec![66, 1, 1], vec![1, 66, 1], vec![1, 1, 66]]);
        let third_initial = tiles_from_codes(vec![vec![0, 0, 0], vec![0, 0, 0], vec![0, 0, 0]]);
        proof {
            assert(is_square(grid_of(first_solution@), 5));
            assert(is_square(grid_of(first_initial@), 5));
        }
        let r = vec![
            PremadeBoard {
                solution: Board::from_tiles(first_solution),
                initial: Board::from_tiles(first_initial),
                board_dim: 5,
            },
            PremadeBoard {
                solution: Board::from_tiles(second_solution),
                initial: Board::from_tiles(second_initial),
                board_dim: 5,
            },
            PremadeBoard {
                solution: Board::from_tiles(third_solution),
                initial: Board::from_tiles(third_initial),
                board_dim: 3,
            },
        ];
        r
    }
}

/// Rows of tile values read from rows of numeric codes.
fn tiles_from_codes(codes: Vec<Vec<u8>>) -> (r: Vec<Vec<TileValue>>)
    ensures
        r@.len() == codes@.len(),
        forall|i: int| 0 <= i < codes@.len() ==> (#[trigger] r@[i])@.len() == codes@[i]@.len(),
        forall|i: int, j: int|
            0 <= i < codes@.len() && 0 <= j < codes@[i]@.len() ==> #[trigger] r@[i]@[j] == enum_of(codes@[i]@[j]),
{
    let mut r: Vec<Vec<TileValue>> = Vec::new();
    let mut i: usize = 0;
    while i < codes.len()
        invariant
            i <= codes@.len(),
            r@.len() == i,
            forall|k: int| 0 <= k < i ==> (#[trigger] r@[k])@.len() == codes@[k]@.len(),
            forall|k: int, j: int|
                0 <= k < i && 0 <= j < codes@[k]@.len() ==> #[trigger] r@[k]@[j] == enum_of(codes@[k]@[j]),
        decreases codes.len() - i,
    {
        let mut row: Vec<TileValue> = Vec::new();
        let mut j: usize = 0;
        while j < codes[i].len()
            invariant
                i < codes@.len(),
                j <= codes@[i as int]@.len(),
                row@.len() == j,
                forall|k: int| 0 <= k < j ==> #[trigger] row@[k] == enum_of(codes@[i as int]@[k]),
            decreases codes@[i as int]@.len() - j,
        {
            row.push(TileValue::to_enum(codes[i][j]));
            j = j + 1;
        }
        r.push(row);
        i = i + 1;
    }
    r
}

} // verus!
