//! The game: a hidden solution, the player's view of it, and the reveal rule.
use vstd::prelude::*;
use crate::board::{
    cell_rows, columns, is_real, is_square, placed, view_of, placed_count, set_cell, sums_of, uniform, Board, Grid,
    SumData, TileValue,
};
use crate::solver::{get_col_sums, get_row_sums, MAX_DIM};

verus! {

#[derive(Debug, Clone, Copy, PartialEq, Eq, Structural)]
pub enum GameState {
    InProgress,
    Won,
    Lost,
}

/// A hidden solution, the player's view of it, the published line
/// constraints, the score and the state of play.
pub struct Game {
    score: u32,
    pub curr_board: Board,
    sol_board: Board,
    row_sums: Vec<SumData>,
    col_sums: Vec<SumData>,
    state: GameState,
}

/// A cell the player must reveal to win.
pub open spec fn is_target(t: TileValue) -> bool {
    t == TileValue::Two || t == TileValue::Three
}

/// The state of play that a view `cur` of the solution `sol` is in: a hidden
/// Two or Three keeps the game going, a revealed one that differs from the
/// solution loses it, and otherwise it is won. Ones may stay hidden.
pub open spec fn outcome(cur: Grid, sol: Grid) -> GameState {
    if exists|r: int, c: int|
        0 <= r < sol.len() && 0 <= c < sol.len() && is_target(#[trigger] sol[r][c]) && cur[r][c]
            == TileValue::Hidden {
        GameState::InProgress
    } else if exists|r: int, c: int|
        0 <= r < sol.len() && 0 <= c < sol.len() && is_target(#[trigger] sol[r][c]) && cur[r][c]
            != sol[r][c] {
        GameState::Lost
    } else {
        GameState::Won
    }
}

/// The score after a reveal multiplies it by `f`, saturating at `u32::MAX`.
pub open spec fn scaled(score: u32, f: int) -> u32 {
    if score * f > u32::MAX {
        u32::MAX
    } else {
        (score * f) as u32
    }
}

pub open spec fn factor(t: TileValue) -> int {
    if t == TileValue::Two {
        2
    } else if t == TileValue::Three {
        3
    } else {
        1
    }
}

fn scale(score: u32, f: u32) -> (r: u32)
    ensures
        r == scaled(score, f as int),
{
    match score.checked_mul(f) {
        Some(v) => v,
        None => u32::MAX,
    }
}

impl Game {
    pub closed spec fn current(&self) -> Grid {
        self.curr_board@
    }

    pub closed spec fn solution(&self) -> Grid {
        self.sol_board@
    }

    pub closed spec fn target_rows(&self) -> Seq<SumData> {
        self.row_sums@
    }

    pub closed spec fn target_cols(&self) -> Seq<SumData> {
        self.col_sums@
    }

    pub closed spec fn dim(&self) -> usize {
        self.sol_board.dim()
    }

    pub closed spec fn score_of(&self) -> u32 {
        self.score
    }

    pub closed spec fn state_of(&self) -> GameState {
        self.state
    }

    /// Both boards have the game's dimension, the current board is a view of
    /// the solution, and the constraints are the solution's line sums.
    pub closed spec fn boards_wf(&self) -> bool {
        &&& self.curr_board.wf()
        &&& self.sol_board.wf()
        &&& self.curr_board.dim() == self.sol_board.dim()
    }

    pub open spec fn wf(&self) -> bool {
        &&& self.boards_wf()
        &&& self.dim() <= MAX_DIM
        &&& view_of(self.current(), self.solution(), self.dim() as int)
        &&& sums_of(self.target_rows(), self.solution())
        &&& sums_of(self.target_cols(), columns(self.solution()))
    }

    /// A game on a random solution of the given dimension, all hidden: the
    /// solution places Twos, Threes and bombs along a random order of the cells.
    pub fn new(board_dim: usize) -> (r: Game)
        requires
            board_dim <= MAX_DIM,
        ensures
            r.wf(),
            r.dim() == board_dim,
            exists|order: Seq<(usize, usize)>|
                #![trigger placed(board_dim as int, order, placed_count(order.len() as int))]
                order.to_multiset() == cell_rows(board_dim as int, board_dim as int).to_multiset()
                && r.solution() == placed(board_dim as int, order, placed_count(order.len() as int)),
            r.current() == uniform(board_dim as int, TileValue::Hidden),
            r.score_of() == 0,
            r.state_of() == GameState::InProgress,
    {
        let mut sol_board = Board::new(board_dim, TileValue::Hidden);
        sol_board.create_solution();
        let curr_board = Board::new(board_dim, TileValue::Hidden);
        Game::assemble(curr_board, sol_board)
    }

    fn assemble(curr_board: Board, sol_board: Board) -> (r: Game)
        requires
            curr_board.wf(),
            sol_board.wf(),
            curr_board.dim() == sol_board.dim(),
            sol_board.dim() <= MAX_DIM,
            view_of(curr_board@, sol_board@, sol_board.dim() as int),
        ensures
            r.wf(),
            r.dim() == sol_board.dim(),
            r.current() == curr_board@,
            r.solution() == sol_board@,
            r.score_of() == 0,
            r.state_of() == GameState::InProgress,
    {
        let tiles = sol_board.get_tiles();
        let row_sums = get_row_sums(tiles);
        let col_sums = get_col_sums(tiles);
        Game { score: 0, curr_board, sol_board, row_sums, col_sums, state: GameState::InProgress }
    }

    /// A game on a given solution and first view: `None` unless both boards
    /// are square of one dimension of at most `MAX_DIM`, the solution holds
    /// only real values, and the view shows each cell of it or hides it.
    pub fn from_boards(solution: Board, initial: Board) -> (r: Option<Game>)
        ensures
            r.is_some() <==> (solution.wf() && initial.wf() && solution.dim() == initial.dim()
                && solution.dim() <= MAX_DIM && view_of(initial@, solution@, solution.dim() as int)),
            r matches Some(game) ==> game.wf() && game.current() == initial@ && game.solution()
                == solution@ && game.score_of() == 0 && game.state_of() == GameState::InProgress,
    {
        let n = solution.get_board_dim();
        if n > MAX_DIM || initial.get_board_dim() != n {
            return None;
        }
        let st = solution.get_tiles();
        let it = initial.get_tiles();
        if st.len() != n || it.len() != n {
            return None;
        }
        assert(solution@.len() == n && initial@.len() == n);
        let mut i: usize = 0;
        while i < n
            invariant
                n == solution.dim(),
                n == initial.dim(),
                n <= MAX_DIM,
                grid_of_eq(st@, solution@),
                grid_of_eq(it@, initial@),
                st@.len() == n,
                it@.len() == n,
                solution@.len() == n,
                initial@.len() == n,
                i <= n,
                forall|r: int| 0 <= r < i ==> #[trigger] solution@[r].len() == n,
                forall|r: int| 0 <= r < i ==> #[trigger] initial@[r].len() == n,
                forall|r: int, c: int|
                    0 <= r < i && 0 <= c < n ==> is_real(#[trigger] solution@[r][c]) && (initial@[r][c]
                        == TileValue::Hidden || initial@[r][c] == solution@[r][c]),
            decreases n - i,
        {
            assert(solution@[i as int] == st@[i as int]@);
            assert(initial@[i as int] == it@[i as int]@);
            if st[i].len() != n || it[i].len() != n {
                return None;
            }
            let mut j: usize = 0;
            while j < n
                invariant
                    n == solution.dim(),
                    i < n,
                    j <= n,
                    solution@[i as int] == st@[i as int]@,
                    initial@[i as int] == it@[i as int]@,
                    st@.len() == n,
                    it@.len() == n,
                    solution@[i as int].len() == n,
                    initial@[i as int].len() == n,
                    forall|c: int|
                        0 <= c < j ==> is_real(#[trigger] solution@[i as int][c]) && (initial@[i as int][c]
                            == TileValue::Hidden || initial@[i as int][c] == solution@[i as int][c]),
                decreases n - j,
            {
                let s = st[i][j];
                let v = it[i][j];
                let is_value = s == TileValue::One || s == TileValue::Two || s == TileValue::Three || s
                    == TileValue::Voltorb;
                if !is_value || (v != TileValue::Hidden && v != s) {
                    return None;
                }
                j = j + 1;
            }
            i = i + 1;
        }
        Some(Game::assemble(initial, solution))
    }

    /// The state of play of the current board (see `outcome`).
    pub fn check_sol(&mut self) -> (r: GameState)
        requires
            old(self).wf(),
        ensures
            *final(self) == *old(self),
            r == outcome(old(self).current(), old(self).solution()),
    {
        let board_dim = self.curr_board.get_board_dim();
        let mut mismatch = false;
        let ghost cur = self.current();
        let ghost sol = self.solution();
        let mut i: usize = 0;
        while i < board_dim
            invariant
                self.wf(),
                cur == self.current(),
                sol == self.solution(),
                board_dim == self.dim(),
                i <= board_dim,
                forall|r: int, c: int|
                    0 <= r < i && 0 <= c < board_dim && is_target(#[trigger] sol[r][c]) ==> cur[r][c]
                        != TileValue::Hidden,
                mismatch <==> exists|r: int, c: int|
                    0 <= r < i && 0 <= c < board_dim && is_target(#[trigger] sol[r][c]) && cur[r][c]
                        != sol[r][c],
            decreases board_dim - i,
        {
            let mut j: usize = 0;
            while j < board_dim
                invariant
                    self.wf(),
                    cur == self.current(),
                    sol == self.solution(),
                    board_dim == self.dim(),
                    i < board_dim,
                    j <= board_dim,
                    forall|r: int, c: int|
                        ((0 <= r < i && 0 <= c < board_dim) || (r == i && 0 <= c < j)) && is_target(
                            #[trigger] sol[r][c],
                        ) ==> cur[r][c] != TileValue::Hidden,
                    mismatch <==> exists|r: int, c: int|
                        ((0 <= r < i && 0 <= c < board_dim) || (r == i && 0 <= c < j)) && is_target(
                            #[trigger] sol[r][c],
                        ) && cur[r][c] != sol[r][c],
                decreases board_dim - j,
            {
                let sol_val = self.sol_board.get_val(i, j);
                let curr_val = self.curr_board.get_val(i, j);
                if sol_val == TileValue::Two || sol_val == TileValue::Three {
                    if curr_val == TileValue::Hidden {
                        return GameState::InProgress;
                    } else if sol_val != curr_val {
                        mismatch = true;
                    }
                }
                j = j + 1;
            }
            i = i + 1;
        }
        if mismatch {
            GameState::Lost
        } else {
            GameState::Won
        }
    }

    /// Reveals (`i`, `j`): the solution's value is shown; a Two doubles the
    /// score and a Three triples it (saturating); a bomb loses the game and
    /// leaves the score as it was; otherwise the state is the new board's
    /// `outcome`. Returns the new state.
    pub fn click(&mut self, i: usize, j: usize) -> (r: GameState)
        requires
            old(self).wf(),
            i < old(self).dim(),
            j < old(self).dim(),
        ensures
            final(self).wf(),
            final(self).dim() == old(self).dim(),
            final(self).solution() == old(self).solution(),
            final(self).target_rows() == old(self).target_rows(),
            final(self).target_cols() == old(self).target_cols(),
            final(self).current() == set_cell(
                old(self).current(),
                i as int,
                j as int,
                old(self).solution()[i as int][j as int],
            ),
            final(self).state_of() == r,
            old(self).solution()[i as int][j as int] == TileValue::Voltorb ==> r == GameState::Lost
                && final(self).score_of() == old(self).score_of(),
            old(self).solution()[i as int][j as int] != TileValue::Voltorb ==> r == outcome(
                final(self).current(),
                final(self).solution(),
            ) && final(self).score_of() == scaled(
                old(self).score_of(),
                factor(old(self).solution()[i as int][j as int]),
            ),
    {
        let new_val = self.sol_board.get_val(i, j);
        let ghost n = self.dim() as int;
        let ghost cur = self.current();
        let ghost sol = self.solution();
        self.curr_board.set_val(i, j, new_val);
        assert forall|r: int, c: int| 0 <= r < n && 0 <= c < n implies is_real(#[trigger] sol[r][c])
            && (self.current()[r][c] == TileValue::Hidden || self.current()[r][c] == sol[r][c]) by {
            if r == i as int && c == j as int {
            } else {
                assert(self.current()[r][c] == cur[r][c]);
            }
        }
        match new_val {
            TileValue::Two => {
                self.score = scale(self.score, 2);
            },
            TileValue::Three => {
                self.score = scale(self.score, 3);
            },
            TileValue::Voltorb => {
                self.state = GameState::Lost;
                return self.state;
            },
            _ => {
                assert(scaled(self.score, 1) == self.score);
            },
        }
        self.state = self.check_sol();
        self.state
    }

    pub fn get_score(&self) -> (r: u32)
        ensures
            r == self.score_of(),
    {
        self.score
    }

    pub fn get_state(&self) -> (r: GameState)
        ensures
            r == self.state_of(),
    {
        self.state
    }

    pub fn get_sol(&self) -> (r: &Board)
        ensures
            r@ == self.solution(),
            self.wf() ==> r.wf() && r.dim() == self.dim(),
    {
        &self.sol_board
    }

    pub fn get_row_sums(&self) -> (r: &Vec<SumData>)
        ensures
            r@ == self.target_rows(),
    {
        &self.row_sums
    }

    pub fn get_col_sums(&self) -> (r: &Vec<SumData>)
        ensures
            r@ == self.target_cols(),
    {
        &self.col_sums
    }

    pub fn get_curr_board(&self) -> (r: &Board)
        ensures
            r@ == self.current(),
            self.wf() ==> r.wf() && r.dim() == self.dim(),
    {
        &self.curr_board
    }
}

pub open spec fn grid_of_eq(t: Seq<Vec<TileValue>>, g: Grid) -> bool {
    crate::board::grid_of(t) == g
}

} // verus!
