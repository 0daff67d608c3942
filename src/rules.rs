//! Constraint propagation: the domains of hidden cells and the four rules
//! that narrow them.
use vstd::prelude::*;
use crate::board::{
    column, columns, fills_line, grid_of, is_real, is_square, lemma_fill_line_at, lemma_line_bounds,
    lemma_line_identity, line_bombs, line_extra, line_sum, only_hidden, sums_of, Grid, SumData,
    TileValue,
};
use crate::solver::{column_of, square_rows, valid, MAX_DIM};

verus! {

/// The values a hidden cell may still hold.
#[derive(Debug, Clone, Copy, PartialEq, Eq, Structural)]
pub struct Domain {
    pub bomb: bool,
    pub one: bool,
    pub two: bool,
    pub three: bool,
}

pub open spec fn allows(d: Domain, v: TileValue) -> bool {
    match v {
        TileValue::Voltorb => d.bomb,
        TileValue::One => d.one,
        TileValue::Two => d.two,
        TileValue::Three => d.three,
        _ => false,
    }
}

pub open spec fn full_domain() -> Domain {
    Domain { bomb: true, one: true, two: true, three: true }
}

/// The values both domains allow.
pub open spec fn meet(a: Domain, b: Domain) -> Domain {
    Domain { bomb: a.bomb && b.bomb, one: a.one && b.one, two: a.two && b.two, three: a.three && b.three }
}

pub open spec fn within(a: Domain, b: Domain) -> bool {
    (a.bomb ==> b.bomb) && (a.one ==> b.one) && (a.two ==> b.two) && (a.three ==> b.three)
}

pub type Domains = Seq<Seq<Domain>>;

pub open spec fn domains_of(d: Seq<Vec<Domain>>) -> Domains {
    Seq::new(d.len(), |i: int| d[i]@)
}

pub open spec fn is_square_domains(d: Domains, n: int) -> bool {
    d.len() == n && forall|i: int| 0 <= i < n ==> #[trigger] d[i].len() == n
}

/// `b` completes the partial board `g`: real values where `g` is hidden, and
/// `g`'s values elsewhere.
pub open spec fn completes(g: Grid, b: Grid) -> bool {
    &&& is_square(b, g.len() as int)
    &&& forall|r: int, c: int|
        0 <= r < g.len() && 0 <= c < g.len() ==> if g[r][c] == TileValue::Hidden {
            is_real(#[trigger] b[r][c])
        } else {
            b[r][c] == g[r][c]
        }
}

/// Each revealed cell of `g` holds a real value.
pub open spec fn revealed_real(g: Grid) -> bool {
    forall|r: int, c: int|
        0 <= r < g.len() && 0 <= c < g.len() ==> #[trigger] g[r][c] == TileValue::Hidden || is_real(g[r][c])
}

/// No completion of `g` that meets the constraints holds, at a hidden cell,
/// a value that the cell's domain excludes.
pub open spec fn sound(g: Grid, d: Domains, rows: Seq<SumData>, cols: Seq<SumData>) -> bool {
    forall|b: Grid, r: int, c: int|
        completes(g, b) && valid(b, rows, cols) && 0 <= r < g.len() && 0 <= c < g.len() && g[r][c]
            == TileValue::Hidden ==> #[trigger] allows(d[r][c], b[r][c])
}

/// Rule 1: no bomb is left to place in the row or the column.
pub open spec fn rule1_mask(row: SumData, cur_row: SumData, col: SumData, cur_col: SumData) -> Domain {
    let none_left = row.voltorb_count == cur_row.voltorb_count || col.voltorb_count
        == cur_col.voltorb_count;
    Domain { bomb: !none_left, one: true, two: true, three: true }
}

/// Rule 2: the row's or the column's value sum is already reached, so the
/// cell can only be a bomb.
pub open spec fn rule2_mask(row: SumData, cur_row: SumData, col: SumData, cur_col: SumData) -> Domain {
    let reached = row.value_sum == cur_row.value_sum || col.value_sum == cur_col.value_sum;
    Domain { bomb: true, one: !reached, two: !reached, three: !reached }
}

/// The one value that the last hidden cell of a line with target `t` and
/// partial sums `p` can hold: a bomb when one bomb and no value is missing,
/// else the missing value; nothing when no single cell can make up the gap.
pub open spec fn forced(t: SumData, p: SumData) -> Domain {
    let nb = t.voltorb_count - p.voltorb_count;
    let ns = t.value_sum - p.value_sum;
    Domain { bomb: nb == 1 && ns == 0, one: nb == 0 && ns == 1, two: nb == 0 && ns == 2, three: nb == 0 && ns == 3 }
}

/// Rule 3: the cell is the last hidden cell of its row or of its column.
pub open spec fn rule3_mask(
    row_line: Seq<TileValue>,
    col_line: Seq<TileValue>,
    r: int,
    c: int,
    row: SumData,
    cur_row: SumData,
    col: SumData,
    cur_col: SumData,
) -> Domain {
    let rf = if only_hidden(row_line, c) { forced(row, cur_row) } else { full_domain() };
    let cf = if only_hidden(col_line, r) { forced(col, cur_col) } else { full_domain() };
    meet(rf, cf)
}

/// The line's target leaves no room for a Two or a Three among its hidden
/// cells: target sum plus bombs is at most the length plus the excess that
/// its revealed Twos and Threes already carry.
pub open spec fn no_reward(t: SumData, line: Seq<TileValue>) -> bool {
    t.value_sum + t.voltorb_count <= line.len() + line_extra(line)
}

/// Rule 4: no reward is left in the row or in the column.
pub open spec fn rule4_mask(row_line: Seq<TileValue>, col_line: Seq<TileValue>, row: SumData, col: SumData) -> Domain {
    let low = no_reward(row, row_line) || no_reward(col, col_line);
    Domain { bomb: true, one: true, two: !low, three: !low }
}

/// What the four rules leave possible at the hidden cell (`r`, `c`) of `g`,
/// with targets `rows`/`cols` and partial sums `pr`/`pc`.
pub open spec fn mask(
    g: Grid,
    rows: Seq<SumData>,
    cols: Seq<SumData>,
    pr: Seq<SumData>,
    pc: Seq<SumData>,
    r: int,
    c: int,
) -> Domain {
    meet(
        meet(rule1_mask(rows[r], pr[r], cols[c], pc[c]), rule2_mask(rows[r], pr[r], cols[c], pc[c])),
        meet(
            rule3_mask(g[r], column(g, c), r, c, rows[r], pr[r], cols[c], pc[c]),
            rule4_mask(g[r], column(g, c), rows[r], cols[c]),
        ),
    )
}

/// The domains after one propagation pass: each hidden cell's domain meets
/// the cell's mask; the others stay.
pub open spec fn propagated(
    g: Grid,
    d: Domains,
    rows: Seq<SumData>,
    cols: Seq<SumData>,
    pr: Seq<SumData>,
    pc: Seq<SumData>,
) -> Domains {
    Seq::new(
        d.len(),
        |r: int|
            Seq::new(
                d[r].len(),
                |c: int|
                    if g[r][c] == TileValue::Hidden {
                        meet(d[r][c], mask(g, rows, cols, pr, pc, r, c))
                    } else {
                        d[r][c]
                    },
            ),
    )
}

/// The constraint state that the rules read: a square board whose revealed
/// cells are real, its targets, and its partial sums.
pub open spec fn rule_inputs(
    g: Grid,
    rows: Seq<SumData>,
    cols: Seq<SumData>,
    pr: Seq<SumData>,
    pc: Seq<SumData>,
) -> bool {
    &&& is_square(g, g.len() as int)
    &&& g.len() <= MAX_DIM
    &&& revealed_real(g)
    &&& rows.len() == g.len()
    &&& cols.len() == g.len()
    &&& sums_of(pr, g)
    &&& sums_of(pc, columns(g))
}

/// The rules remove no value that a completion meeting the constraints holds.
proof fn lemma_mask_sound(
    g: Grid,
    rows: Seq<SumData>,
    cols: Seq<SumData>,
    pr: Seq<SumData>,
    pc: Seq<SumData>,
    b: Grid,
    r: int,
    c: int,
)
    requires
        rule_inputs(g, rows, cols, pr, pc),
        completes(g, b),
        valid(b, rows, cols),
        0 <= r < g.len(),
        0 <= c < g.len(),
        g[r][c] == TileValue::Hidden,
    ensures
        allows(mask(g, rows, cols, pr, pc, r, c), b[r][c]),
{
    let n = g.len() as int;
    let rl = g[r];
    let rm = b[r];
    let cl = column(g, c);
    let cm = column(b, c);
    assert forall|j: int| 0 <= j < rl.len() implies (if rl[j] == TileValue::Hidden {
        is_real(#[trigger] rm[j])
    } else {
        rm[j] == rl[j]
    }) by {
        assert(b[r][j] == rm[j]);
    }
    assert forall|j: int| 0 <= j < cl.len() implies (if cl[j] == TileValue::Hidden {
        is_real(#[trigger] cm[j])
    } else {
        cm[j] == cl[j]
    }) by {
        assert(b[j][c] == cm[j]);
    }
    assert(fills_line(rl, rm));
    assert(fills_line(cl, cm));
    assert forall|j: int| 0 <= j < rm.len() implies is_real(#[trigger] rm[j]) by {
        assert(g[r][j] == TileValue::Hidden || is_real(g[r][j]));
    }
    assert forall|j: int| 0 <= j < cm.len() implies is_real(#[trigger] cm[j]) by {
        assert(g[j][c] == TileValue::Hidden || is_real(g[j][c]));
    }
    lemma_fill_line_at(rl, rm, c);
    lemma_fill_line_at(cl, cm, r);
    lemma_line_identity(rm);
    lemma_line_identity(cm);
    assert(columns(b)[c] == cm);
    assert(columns(g)[c] == cl);
    assert(rows[r].value_sum == line_sum(rm) && rows[r].voltorb_count == line_bombs(rm));
    assert(cols[c].value_sum == line_sum(cm) && cols[c].voltorb_count == line_bombs(cm));
    assert(pr[r].value_sum == line_sum(rl) && pr[r].voltorb_count == line_bombs(rl));
    assert(pc[c].value_sum == line_sum(cl) && pc[c].voltorb_count == line_bombs(cl));
    assert(rm[c] == b[r][c] && cm[r] == b[r][c]);
}


pub open spec fn drop_high(d: Domain) -> Domain {
    Domain { bomb: d.bomb, one: d.one, two: false, three: false }
}

/// The domains after rule 4 at (`r`, `c`): every hidden cell of row `r`
/// (column `c`) loses Two and Three when the row (column) has no reward left.
pub open spec fn after_rule4(g: Grid, d: Domains, rows: Seq<SumData>, cols: Seq<SumData>, r: int, c: int) -> Domains {
    Seq::new(
        d.len(),
        |i: int|
            Seq::new(
                d[i].len(),
                |j: int|
                    if g[i][j] == TileValue::Hidden && ((i == r && no_reward(rows[r], g[r])) || (j == c
                        && no_reward(cols[c], column(g, c)))) {
                        drop_high(d[i][j])
                    } else {
                        d[i][j]
                    },
            ),
    )
}

fn write_domain(d: &mut Vec<Vec<Domain>>, i: usize, j: usize, v: Domain)
    requires
        i < old(d)@.len(),
        j < old(d)@[i as int]@.len(),
    ensures
        final(d)@.len() == old(d)@.len(),
        domains_of(final(d)@) == domains_of(old(d)@).update(i as int, domains_of(old(d)@)[i as int].update(j as int, v)),
{
    let mut row: Vec<Domain> = Vec::new();
    let mut k: usize = 0;
    while k < d[i].len()
        invariant
            i < d@.len(),
            k <= d@[i as int]@.len(),
            row@ == d@[i as int]@.take(k as int),
        decreases d@[i as int]@.len() - k,
    {
        row.push(d[i][k]);
        k = k + 1;
        assert(row@ =~= d@[i as int]@.take(k as int));
    }
    assert(row@ =~= d@[i as int]@);
    row.set(j, v);
    d.set(i, row);
    assert(domains_of(d@) =~= domains_of(old(d)@).update(i as int, domains_of(old(d)@)[i as int].update(j as int, v)));
}

pub(crate) fn copy_domains(d: &Vec<Vec<Domain>>) -> (r: Vec<Vec<Domain>>)
    ensures
        r@.len() == d@.len(),
        domains_of(r@) == domains_of(d@),
{
    let mut r: Vec<Vec<Domain>> = Vec::new();
    let mut i: usize = 0;
    while i < d.len()
        invariant
            i <= d@.len(),
            r@.len() == i,
            forall|k: int| 0 <= k < i ==> (#[trigger] r@[k])@ == d@[k]@,
        decreases d.len() - i,
    {
        let mut row: Vec<Domain> = Vec::new();
        let mut k: usize = 0;
        while k < d[i].len()
            invariant
                i < d@.len(),
                k <= d@[i as int]@.len(),
                row@ == d@[i as int]@.take(k as int),
            decreases d@[i as int]@.len() - k,
        {
            row.push(d[i][k]);
            k = k + 1;
            assert(row@ =~= d@[i as int]@.take(k as int));
        }
        assert(row@ =~= d@[i as int]@);
        r.push(row);
        i = i + 1;
    }
    assert(domains_of(r@) =~= domains_of(d@));
    r
}

fn same_domains(a: &Vec<Vec<Domain>>, b: &Vec<Vec<Domain>>, n: usize) -> (r: bool)
    requires
        is_square_domains(domains_of(a@), n as int),
        is_square_domains(domains_of(b@), n as int),
    ensures
        r == (domains_of(a@) == domains_of(b@)),
{
    let mut i: usize = 0;
    while i < n
        invariant
            is_square_domains(domains_of(a@), n as int),
            is_square_domains(domains_of(b@), n as int),
            i <= n,
            forall|x: int| 0 <= x < i ==> #[trigger] domains_of(a@)[x] == domains_of(b@)[x],
        decreases n - i,
    {
        assert(domains_of(a@)[i as int] == a@[i as int]@);
        assert(domains_of(b@)[i as int] == b@[i as int]@);
        let mut j: usize = 0;
        while j < n
            invariant
                is_square_domains(domains_of(a@), n as int),
                is_square_domains(domains_of(b@), n as int),
                i < n,
                j <= n,
                domains_of(a@)[i as int] == a@[i as int]@,
                domains_of(b@)[i as int] == b@[i as int]@,
                forall|y: int| 0 <= y < j ==> #[trigger] a@[i as int]@[y] == b@[i as int]@[y],
            decreases n - j,
        {
            if a[i][j] != b[i][j] {
                assert(domains_of(a@)[i as int][j as int] != domains_of(b@)[i as int][j as int]);
                return false;
            }
            j = j + 1;
        }
        assert(domains_of(a@)[i as int] =~= domains_of(b@)[i as int]);
        i = i + 1;
    }
    assert(domains_of(a@) =~= domains_of(b@));
    true
}

/// Rule 1: removes the bomb when the row or the column has all its bombs.
fn rule1(
    tile: (usize, usize),
    rows: &Vec<SumData>,
    curr_row_sums: &Vec<SumData>,
    cols: &Vec<SumData>,
    curr_col_sums: &Vec<SumData>,
    d: &mut Domain,
)
    requires
        tile.0 < rows@.len(),
        tile.0 < curr_row_sums@.len(),
        tile.1 < cols@.len(),
        tile.1 < curr_col_sums@.len(),
    ensures
        *final(d) == meet(
            *old(d),
            rule1_mask(
                rows@[tile.0 as int],
                curr_row_sums@[tile.0 as int],
                cols@[tile.1 as int],
                curr_col_sums@[tile.1 as int],
            ),
        ),
{
    let (r, c) = tile;
    if rows[r].voltorb_count == curr_row_sums[r].voltorb_count || cols[c].voltorb_count
        == curr_col_sums[c].voltorb_count {
        d.bomb = false;
    }
}

/// Rule 2: leaves only the bomb when the row's or the column's value sum is
/// reached (nothing when the bomb was already excluded).
fn rule2(
    tile: (usize, usize),
    rows: &Vec<SumData>,
    curr_row_sums: &Vec<SumData>,
    cols: &Vec<SumData>,
    curr_col_sums: &Vec<SumData>,
    d: &mut Domain,
)
    requires
        tile.0 < rows@.len(),
        tile.0 < curr_row_sums@.len(),
        tile.1 < cols@.len(),
        tile.1 < curr_col_sums@.len(),
    ensures
        *final(d) == meet(
            *old(d),
            rule2_mask(
                rows@[tile.0 as int],
                curr_row_sums@[tile.0 as int],
                cols@[tile.1 as int],
                curr_col_sums@[tile.1 as int],
            ),
        ),
{
    let (r, c) = tile;
    if rows[r].value_sum == curr_row_sums[r].value_sum || cols[c].value_sum == curr_col_sums[c].value_sum {
        d.one = false;
        d.two = false;
        d.three = false;
    }
}

fn single(v: TileValue) -> (r: Domain)
    ensures
        r.bomb == (v == TileValue::Voltorb),
        r.one == (v == TileValue::One),
        r.two == (v == TileValue::Two),
        r.three == (v == TileValue::Three),
{
    Domain {
        bomb: v == TileValue::Voltorb,
        one: v == TileValue::One,
        two: v == TileValue::Two,
        three: v == TileValue::Three,
    }
}

/// The value that the last hidden cell of a line must hold (see `forced`).
fn forced_value(t: SumData, p: SumData) -> (r: Domain)
    ensures
        r == forced(t, p),
{
    if t.value_sum == p.value_sum && t.voltorb_count as u16 == p.voltorb_count as u16 + 1 {
        Domain { bomb: true, one: false, two: false, three: false }
    } else if t.voltorb_count == p.voltorb_count && t.value_sum > p.value_sum && t.value_sum - p.value_sum <= 3 {
        let v = TileValue::to_enum(t.value_sum - p.value_sum);
        single(v)
    } else {
        Domain { bomb: false, one: false, two: false, three: false }
    }
}

/// Rule 3: a cell that is the last hidden one of its row (column) can only
/// hold what the row (column) still misses; when both apply, it must satisfy
/// both, and an empty domain marks the branch as impossible.
fn rule3(
    tile: (usize, usize),
    tiles: &Vec<Vec<TileValue>>,
    rows: &Vec<SumData>,
    curr_row_sums: &Vec<SumData>,
    cols: &Vec<SumData>,
    curr_col_sums: &Vec<SumData>,
    d: &mut Domain,
)
    requires
        square_rows(tiles@),
        tile.0 < tiles@.len(),
        tile.1 < tiles@.len(),
        rows@.len() == tiles@.len(),
        cols@.len() == tiles@.len(),
        curr_row_sums@.len() == tiles@.len(),
        curr_col_sums@.len() == tiles@.len(),
    ensures
        *final(d) == meet(
            *old(d),
            rule3_mask(
                grid_of(tiles@)[tile.0 as int],
                column(grid_of(tiles@), tile.1 as int),
                tile.0 as int,
                tile.1 as int,
                rows@[tile.0 as int],
                curr_row_sums@[tile.0 as int],
                cols@[tile.1 as int],
                curr_col_sums@[tile.1 as int],
            ),
        ),
{
    let (r, c) = tile;
    let n = tiles.len();
    let ghost g = grid_of(tiles@);
    let ghost rl = g[r as int];
    let ghost cl = column(g, c as int);
    let mut row_only = true;
    let mut col_only = true;
    let mut k: usize = 0;
    assert(g[r as int] == tiles@[r as int]@);
    while k < n
        invariant
            square_rows(tiles@),
            n == tiles@.len(),
            g == grid_of(tiles@),
            r < n,
            c < n,
            k <= n,
            rl == g[r as int],
            cl == column(g, c as int),
            g[r as int] == tiles@[r as int]@,
            row_only <==> forall|j: int| 0 <= j < k && j != c ==> #[trigger] rl[j] != TileValue::Hidden,
            col_only <==> forall|j: int| 0 <= j < k && j != r ==> #[trigger] cl[j] != TileValue::Hidden,
        decreases n - k,
    {
        assert(g[k as int] == tiles@[k as int]@);
        assert(g[k as int].len() == n);
        if k != c && tiles[r][k] == TileValue::Hidden {
            row_only = false;
        }
        if k != r && tiles[k][c] == TileValue::Hidden {
            col_only = false;
        }
        assert(cl[k as int] == g[k as int][c as int]);
        k = k + 1;
    }
    assert(rl.len() == n);
    if row_only {
        let f = forced_value(rows[r], curr_row_sums[r]);
        *d = Domain { bomb: d.bomb && f.bomb, one: d.one && f.one, two: d.two && f.two, three: d.three && f.three };
    }
    if col_only {
        let f = forced_value(cols[c], curr_col_sums[c]);
        *d = Domain { bomb: d.bomb && f.bomb, one: d.one && f.one, two: d.two && f.two, three: d.three && f.three };
    }
}

/// The excess of a line's revealed Twos and Threes: one per Two, two per Three.
fn line_extra_of(line: &Vec<TileValue>) -> (r: usize)
    requires
        line@.len() <= MAX_DIM,
    ensures
        r == line_extra(line@),
{
    let mut e: usize = 0;
    let mut j: usize = 0;
    while j < line.len()
        invariant
            j <= line@.len() <= MAX_DIM,
            e == line_extra(line@.take(j as int)),
        decreases line.len() - j,
    {
        proof {
            assert(line@.take(j + 1).drop_last() == line@.take(j as int));
            lemma_line_bounds(line@.take(j + 1));
        }
        match line[j] {
            TileValue::Two => {
                e = e + 1;
            },
            TileValue::Three => {
                e = e + 2;
            },
            _ => {},
        }
        j = j + 1;
    }
    assert(line@.take(j as int) == line@);
    e
}

/// Rule 4: when the row (column) of `tile` has no reward left, no hidden
/// cell of that row (column) can be a Two or a Three.
fn rule4(
    tile: (usize, usize),
    tiles: &Vec<Vec<TileValue>>,
    rows: &Vec<SumData>,
    cols: &Vec<SumData>,
    doms: &mut Vec<Vec<Domain>>,
)
    requires
        square_rows(tiles@),
        tile.0 < tiles@.len(),
        tile.1 < tiles@.len(),
        rows@.len() == tiles@.len(),
        cols@.len() == tiles@.len(),
        is_square_domains(domains_of(old(doms)@), tiles@.len() as int),
    ensures
        final(doms)@.len() == old(doms)@.len(),
        domains_of(final(doms)@) == after_rule4(
            grid_of(tiles@),
            domains_of(old(doms)@),
            rows@,
            cols@,
            tile.0 as int,
            tile.1 as int,
        ),
{
    let (r, c) = tile;
    let n = tiles.len();
    let ghost g = grid_of(tiles@);
    let ghost d0 = domains_of(doms@);
    assert(g[r as int] == tiles@[r as int]@);
    let row_extra = line_extra_of(&tiles[r]);
    let col = column_of(tiles, c);
    let col_extra = line_extra_of(&col);
    proof {
        lemma_line_bounds(tiles@[r as int]@);
        lemma_line_bounds(col@);
    }
    let row_low = rows[r].value_sum as usize + rows[r].voltorb_count as usize <= n + row_extra;
    let col_low = cols[c].value_sum as usize + cols[c].voltorb_count as usize <= n + col_extra;
    assert(row_low == no_reward(rows@[r as int], g[r as int]));
    assert(col_low == no_reward(cols@[c as int], column(g, c as int)));
    let mut i: usize = 0;
    while i < n
        invariant
            square_rows(tiles@),
            n == tiles@.len(),
            g == grid_of(tiles@),
            r < n,
            c < n,
            i <= n,
            row_low == no_reward(rows@[r as int], g[r as int]),
            col_low == no_reward(cols@[c as int], column(g, c as int)),
            doms@.len() == n,
            is_square_domains(domains_of(doms@), n as int),
            forall|x: int, y: int|
                0 <= x < n && 0 <= y < n ==> #[trigger] domains_of(doms@)[x][y] == if g[x][y] == TileValue::Hidden && ((x
                    == r && row_low && y < i) || (y == c && col_low && x < i)) {
                    drop_high(d0[x][y])
                } else {
                    d0[x][y]
                },
        decreases n - i,
    {
        assert(g[r as int] == tiles@[r as int]@);
        assert(g[i as int] == tiles@[i as int]@);
        assert(g[i as int].len() == n);
        if row_low && tiles[r][i] == TileValue::Hidden {
            assert(domains_of(doms@)[r as int] == doms@[r as int]@);
            let cur = doms[r][i];
            write_domain(doms, r, i, drop_high_of(cur));
        }
        if col_low && tiles[i][c] == TileValue::Hidden {
            assert(domains_of(doms@)[i as int] == doms@[i as int]@);
            let cur = doms[i][c];
            write_domain(doms, i, c, drop_high_of(cur));
        }
        i = i + 1;
    }
    assert(domains_of(doms@) =~~= after_rule4(g, d0, rows@, cols@, r as int, c as int));
}

fn drop_high_of(d: Domain) -> (r: Domain)
    ensures
        r == drop_high(d),
{
    Domain { bomb: d.bomb, one: d.one, two: false, three: false }
}


/// Rules 1 to 3 at (`r`, `c`).
pub open spec fn own_mask(
    g: Grid,
    rows: Seq<SumData>,
    cols: Seq<SumData>,
    pr: Seq<SumData>,
    pc: Seq<SumData>,
    r: int,
    c: int,
) -> Domain {
    meet(
        meet(rule1_mask(rows[r], pr[r], cols[c], pc[c]), rule2_mask(rows[r], pr[r], cols[c], pc[c])),
        rule3_mask(g[r], column(g, c), r, c, rows[r], pr[r], cols[c], pc[c]),
    )
}

/// Applies the four rules at the hidden cell `tile`.
fn apply_rules(
    tile: (usize, usize),
    tiles: &Vec<Vec<TileValue>>,
    rows: &Vec<SumData>,
    curr_row_sums: &Vec<SumData>,
    cols: &Vec<SumData>,
    curr_col_sums: &Vec<SumData>,
    doms: &mut Vec<Vec<Domain>>,
)
    requires
        square_rows(tiles@),
        rule_inputs(grid_of(tiles@), rows@, cols@, curr_row_sums@, curr_col_sums@),
        tile.0 < tiles@.len(),
        tile.1 < tiles@.len(),
        is_square_domains(domains_of(old(doms)@), tiles@.len() as int),
    ensures
        final(doms)@.len() == old(doms)@.len(),
        domains_of(final(doms)@) == after_rule4(
            grid_of(tiles@),
            domains_of(old(doms)@).update(
                tile.0 as int,
                domains_of(old(doms)@)[tile.0 as int].update(
                    tile.1 as int,
                    meet(
                        domains_of(old(doms)@)[tile.0 as int][tile.1 as int],
                        own_mask(
                            grid_of(tiles@),
                            rows@,
                            cols@,
                            curr_row_sums@,
                            curr_col_sums@,
                            tile.0 as int,
                            tile.1 as int,
                        ),
                    ),
                ),
            ),
            rows@,
            cols@,
            tile.0 as int,
            tile.1 as int,
        ),
{
    let (r, c) = tile;
    assert(domains_of(doms@)[r as int] == doms@[r as int]@);
    let mut d = doms[r][c];
    rule1(tile, rows, curr_row_sums, cols, curr_col_sums, &mut d);
    rule2(tile, rows, curr_row_sums, cols, curr_col_sums, &mut d);
    rule3(tile, tiles, rows, curr_row_sums, cols, curr_col_sums, &mut d);
    write_domain(doms, r, c, d);
    rule4(tile, tiles, rows, cols, doms);
}

pub open spec fn before(x: int, y: int, i: int, j: int) -> bool {
    x < i || (x == i && y < j)
}

/// Midway through a pass at (`i`, `j`): cells before it hold their
/// propagated domain, later hidden cells hold one between it and the old one.
pub open spec fn pass_state(
    g: Grid,
    d0: Domains,
    cur: Domains,
    rows: Seq<SumData>,
    cols: Seq<SumData>,
    pr: Seq<SumData>,
    pc: Seq<SumData>,
    i: int,
    j: int,
) -> bool {
    let n = g.len() as int;
    &&& is_square_domains(cur, n)
    &&& forall|x: int, y: int|
        0 <= x < n && 0 <= y < n ==> {
            let now = #[trigger] cur[x][y];
            if g[x][y] != TileValue::Hidden {
                now == d0[x][y]
            } else if before(x, y, i, j) {
                now == meet(d0[x][y], mask(g, rows, cols, pr, pc, x, y))
            } else {
                within(meet(d0[x][y], mask(g, rows, cols, pr, pc, x, y)), now) && within(now, d0[x][y])
            }
        }
}

proof fn lemma_pass_step(
    g: Grid,
    d0: Domains,
    cur: Domains,
    rows: Seq<SumData>,
    cols: Seq<SumData>,
    pr: Seq<SumData>,
    pc: Seq<SumData>,
    i: int,
    j: int,
)
    requires
        rule_inputs(g, rows, cols, pr, pc),
        0 <= i < g.len(),
        0 <= j < g.len(),
        pass_state(g, d0, cur, rows, cols, pr, pc, i, j),
    ensures
        g[i][j] == TileValue::Hidden ==> pass_state(
            g,
            d0,
            after_rule4(
                g,
                cur.update(i, cur[i].update(j, meet(cur[i][j], own_mask(g, rows, cols, pr, pc, i, j)))),
                rows,
                cols,
                i,
                j,
            ),
            rows,
            cols,
            pr,
            pc,
            i,
            j + 1,
        ),
        g[i][j] != TileValue::Hidden ==> pass_state(g, d0, cur, rows, cols, pr, pc, i, j + 1),
{
    let n = g.len() as int;
    if g[i][j] == TileValue::Hidden {
        let mid = cur.update(i, cur[i].update(j, meet(cur[i][j], own_mask(g, rows, cols, pr, pc, i, j))));
        let new = after_rule4(g, mid, rows, cols, i, j);
        assert(is_square_domains(mid, n)) by {
            assert forall|x: int| 0 <= x < n implies #[trigger] mid[x].len() == n by {
                if x != i {
                    assert(mid[x] == cur[x]);
                }
            }
        }
        assert(is_square_domains(new, n)) by {
            assert forall|x: int| 0 <= x < n implies #[trigger] new[x].len() == n by {
            }
        }
        assert forall|x: int, y: int| 0 <= x < n && 0 <= y < n implies {
            let now = #[trigger] new[x][y];
            if g[x][y] != TileValue::Hidden {
                now == d0[x][y]
            } else if before(x, y, i, j + 1) {
                now == meet(d0[x][y], mask(g, rows, cols, pr, pc, x, y))
            } else {
                within(meet(d0[x][y], mask(g, rows, cols, pr, pc, x, y)), now) && within(now, d0[x][y])
            }
        } by {
            if x == i && y == j {
                assert(mid[x][y] == meet(cur[i][j], own_mask(g, rows, cols, pr, pc, i, j)));
            } else {
                assert(mid[x][y] == cur[x][y]);
            }
        }
    } else {
        assert forall|x: int, y: int| 0 <= x < n && 0 <= y < n implies {
            let now = #[trigger] cur[x][y];
            if g[x][y] != TileValue::Hidden {
                now == d0[x][y]
            } else if before(x, y, i, j + 1) {
                now == meet(d0[x][y], mask(g, rows, cols, pr, pc, x, y))
            } else {
                within(meet(d0[x][y], mask(g, rows, cols, pr, pc, x, y)), now) && within(now, d0[x][y])
            }
        } by {
        }
    }
}

/// One propagation pass over the hidden cells, in row-major order; returns
/// whether some domain changed.
pub(crate) fn prune(
    tiles: &Vec<Vec<TileValue>>,
    rows: &Vec<SumData>,
    curr_row_sums: &Vec<SumData>,
    cols: &Vec<SumData>,
    curr_col_sums: &Vec<SumData>,
    doms: &mut Vec<Vec<Domain>>,
) -> (is_pruned: bool)
    requires
        square_rows(tiles@),
        rule_inputs(grid_of(tiles@), rows@, cols@, curr_row_sums@, curr_col_sums@),
        is_square_domains(domains_of(old(doms)@), tiles@.len() as int),
    ensures
        final(doms)@.len() == old(doms)@.len(),
        domains_of(final(doms)@) == propagated(
            grid_of(tiles@),
            domains_of(old(doms)@),
            rows@,
            cols@,
            curr_row_sums@,
            curr_col_sums@,
        ),
        is_pruned == (domains_of(final(doms)@) != domains_of(old(doms)@)),
{
    let ghost g = grid_of(tiles@);
    let ghost d0 = domains_of(doms@);
    let before_pass = copy_domains(doms);
    let n = tiles.len();
    let mut i: usize = 0;
    while i < n
        invariant
            square_rows(tiles@),
            n == tiles@.len(),
            g == grid_of(tiles@),
            rule_inputs(g, rows@, cols@, curr_row_sums@, curr_col_sums@),
            i <= n,
            doms@.len() == n,
            pass_state(g, d0, domains_of(doms@), rows@, cols@, curr_row_sums@, curr_col_sums@, i as int, 0),
        decreases n - i,
    {
        let mut j: usize = 0;
        assert(g[i as int] == tiles@[i as int]@);
        while j < n
            invariant
                square_rows(tiles@),
                n == tiles@.len(),
                g == grid_of(tiles@),
                rule_inputs(g, rows@, cols@, curr_row_sums@, curr_col_sums@),
                i < n,
                j <= n,
                g[i as int] == tiles@[i as int]@,
                doms@.len() == n,
                pass_state(g, d0, domains_of(doms@), rows@, cols@, curr_row_sums@, curr_col_sums@, i as int, j as int),
            decreases n - j,
        {
            proof {
                lemma_pass_step(g, d0, domains_of(doms@), rows@, cols@, curr_row_sums@, curr_col_sums@, i as int, j as int);
            }
            if tiles[i][j] == TileValue::Hidden {
                apply_rules((i, j), tiles, rows, curr_row_sums, cols, curr_col_sums, doms);
            }
            j = j + 1;
        }
        i = i + 1;
    }
    proof {
        let cur = domains_of(doms@);
        let p = propagated(g, d0, rows@, cols@, curr_row_sums@, curr_col_sums@);
        assert forall|x: int| 0 <= x < n implies #[trigger] cur[x] =~= p[x] by {
            assert forall|y: int| 0 <= y < n implies #[trigger] cur[x][y] == p[x][y] by {
                assert(before(x, y, n as int, 0));
            }
        }
        assert(cur =~= p);
    }
    !same_domains(&before_pass, doms, n)
}


/// A pass keeps the domains sound.
pub(crate) proof fn lemma_propagated_sound(
    g: Grid,
    d: Domains,
    rows: Seq<SumData>,
    cols: Seq<SumData>,
    pr: Seq<SumData>,
    pc: Seq<SumData>,
)
    requires
        rule_inputs(g, rows, cols, pr, pc),
        is_square_domains(d, g.len() as int),
        sound(g, d, rows, cols),
    ensures
        sound(g, propagated(g, d, rows, cols, pr, pc), rows, cols),
{
    let p = propagated(g, d, rows, cols, pr, pc);
    assert forall|b: Grid, r: int, c: int|
        completes(g, b) && valid(b, rows, cols) && 0 <= r < g.len() && 0 <= c < g.len() && g[r][c]
            == TileValue::Hidden implies #[trigger] allows(p[r][c], b[r][c]) by {
        assert(allows(d[r][c], b[r][c]));
        lemma_mask_sound(g, rows, cols, pr, pc, b, r, c);
    }
}

/// Propagation reaches its fixpoint in one pass: a second pass on its
/// result changes no domain.
pub proof fn lemma_propagation_idempotent(
    g: Grid,
    d: Domains,
    rows: Seq<SumData>,
    cols: Seq<SumData>,
    pr: Seq<SumData>,
    pc: Seq<SumData>,
)
    requires
        is_square(g, g.len() as int),
        is_square_domains(d, g.len() as int),
    ensures
        propagated(g, propagated(g, d, rows, cols, pr, pc), rows, cols, pr, pc) == propagated(
            g,
            d,
            rows,
            cols,
            pr,
            pc,
        ),
{
    let p = propagated(g, d, rows, cols, pr, pc);
    let q = propagated(g, p, rows, cols, pr, pc);
    assert forall|x: int| 0 <= x < q.len() implies #[trigger] q[x] =~= p[x] by {
    }
    assert(q =~= p);
}

/// Runs propagation passes until one changes nothing.
pub fn propagate_to_fixpoint(
    tiles: &Vec<Vec<TileValue>>,
    rows: &Vec<SumData>,
    curr_row_sums: &Vec<SumData>,
    cols: &Vec<SumData>,
    curr_col_sums: &Vec<SumData>,
    doms: &mut Vec<Vec<Domain>>,
)
    requires
        square_rows(tiles@),
        rule_inputs(grid_of(tiles@), rows@, cols@, curr_row_sums@, curr_col_sums@),
        is_square_domains(domains_of(old(doms)@), tiles@.len() as int),
    ensures
        final(doms)@.len() == old(doms)@.len(),
        domains_of(final(doms)@) == propagated(
            grid_of(tiles@),
            domains_of(old(doms)@),
            rows@,
            cols@,
            curr_row_sums@,
            curr_col_sums@,
        ),
        propagated(grid_of(tiles@), domains_of(final(doms)@), rows@, cols@, curr_row_sums@, curr_col_sums@)
            == domains_of(final(doms)@),
        propagated(grid_of(tiles@), domains_of(old(doms)@), rows@, cols@, curr_row_sums@, curr_col_sums@)
            == domains_of(old(doms)@) ==> domains_of(final(doms)@) == domains_of(old(doms)@),
{
    let ghost g = grid_of(tiles@);
    let ghost d0 = domains_of(doms@);
    let ghost n = tiles@.len() as int;
    proof {
        lemma_propagation_idempotent(g, d0, rows@, cols@, curr_row_sums@, curr_col_sums@);
    }
    loop
        invariant
            square_rows(tiles@),
            g == grid_of(tiles@),
            n == tiles@.len(),
            rule_inputs(g, rows@, cols@, curr_row_sums@, curr_col_sums@),
            is_square_domains(domains_of(doms@), n),
            doms@.len() == old(doms)@.len(),
            domains_of(doms@) == d0 || domains_of(doms@) == propagated(g, d0, rows@, cols@, curr_row_sums@, curr_col_sums@),
            propagated(g, propagated(g, d0, rows@, cols@, curr_row_sums@, curr_col_sums@), rows@, cols@, curr_row_sums@, curr_col_sums@)
                == propagated(g, d0, rows@, cols@, curr_row_sums@, curr_col_sums@),
        ensures
            doms@.len() == old(doms)@.len(),
            domains_of(doms@) == propagated(g, d0, rows@, cols@, curr_row_sums@, curr_col_sums@),
            propagated(g, domains_of(doms@), rows@, cols@, curr_row_sums@, curr_col_sums@) == domains_of(doms@),
        decreases (if propagated(g, domains_of(doms@), rows@, cols@, curr_row_sums@, curr_col_sums@) == domains_of(doms@) { 0int } else { 1int }),
    {
        let ghost before = domains_of(doms@);
        let changed = prune(tiles, rows, curr_row_sums, cols, curr_col_sums, doms);
        proof {
            lemma_propagation_idempotent(g, before, rows@, cols@, curr_row_sums@, curr_col_sums@);
            let p = domains_of(doms@);
            assert(is_square_domains(p, n)) by {
                assert forall|x: int| 0 <= x < n implies #[trigger] p[x].len() == n by {
                }
            }
        }
        if !changed {
            proof {
                assert(domains_of(doms@) == before);
                if before == d0 {
                    assert(domains_of(doms@) == propagated(g, d0, rows@, cols@, curr_row_sums@, curr_col_sums@));
                } else {
                    assert(before == propagated(g, d0, rows@, cols@, curr_row_sums@, curr_col_sums@));
                }
            }
            break;
        }
    }
}


/// The value sum and bomb count of each line, as `SumData`.
pub open spec fn partial_sums(lines: Grid) -> Seq<SumData> {
    Seq::new(
        lines.len(),
        |i: int| SumData { value_sum: line_sum(lines[i]) as u8, voltorb_count: line_bombs(lines[i]) as u8 },
    )
}

pub open spec fn full_domains_of(n: int) -> Domains {
    Seq::new(n as nat, |i: int| Seq::new(n as nat, |j: int| full_domain()))
}

/// The domains that propagation leaves on the partial board `g`, starting
/// from full domains.
pub open spec fn first_pass(g: Grid, rows: Seq<SumData>, cols: Seq<SumData>) -> Domains {
    propagated(
        g,
        full_domains_of(g.len() as int),
        rows,
        cols,
        partial_sums(g),
        partial_sums(columns(g)),
    )
}

/// The rules prove the hidden cell `p` free of bombs.
pub open spec fn proven_safe(g: Grid, rows: Seq<SumData>, cols: Seq<SumData>, p: (usize, usize)) -> bool {
    &&& p.0 < g.len()
    &&& p.1 < g[p.0 as int].len()
    &&& g[p.0 as int][p.1 as int] == TileValue::Hidden
    &&& !first_pass(g, rows, cols)[p.0 as int][p.1 as int].bomb
}

/// Sums that agree with the lines are the lines' `partial_sums`.
pub proof fn lemma_partial_sums(s: Seq<SumData>, lines: Grid)
    requires
        sums_of(s, lines),
    ensures
        s == partial_sums(lines),
{
    assert(s =~= partial_sums(lines));
}

} // verus!
