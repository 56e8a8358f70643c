use vstd::prelude::*;

use crate::game::alternate::{AlternateGameState, WinningStatus};
use crate::VALUE_SCALE;

verus! {

/// Largest supported game length: keeps every collected score, at most 9
/// points per turn shared between the players, well inside `i16`.
pub const MAX_ALTERNATE_TURNS: u32 = 3000;

/// A move of the player about to act, one cell in each direction.
#[derive(Clone, Copy, Debug, PartialEq, Eq, Structural)]
pub enum Action {
    Right,
    Left,
    Down,
    Up,
}

/// One player's piece: its position and the points it collected so far.
#[derive(Clone, Copy)]
struct Character {
    y: usize,
    x: usize,
    game_score: i16,
}

/// The alternating-turn number-collecting maze: two characters take turns
/// on a board of point cells; each move collects and clears the entered
/// cell. The state is always expressed from the acting player's
/// viewpoint: `advance` moves the first character and then swaps the two.
pub struct AlternateMazeState {
    point: Vec<Vec<u8>>,
    turn: u32,
    end_turn: u32,
    mover: Character,
    opponent: Character,
}

/// The mathematical model of an alternating maze state; `a_*` belongs to
/// the player about to move, `b_*` to the waiting player.
pub struct AlternateMazeModel {
    pub board: Seq<Seq<u8>>,
    pub a_y: int,
    pub a_x: int,
    pub a_score: int,
    pub b_y: int,
    pub b_x: int,
    pub b_score: int,
    pub turn: int,
    pub end_turn: int,
}

impl View for AlternateMazeState {
    type V = AlternateMazeModel;

    closed spec fn view(&self) -> AlternateMazeModel {
        AlternateMazeModel {
            board: self.point.deep_view(),
            a_y: self.mover.y as int,
            a_x: self.mover.x as int,
            a_score: self.mover.game_score as int,
            b_y: self.opponent.y as int,
            b_x: self.opponent.x as int,
            b_score: self.opponent.game_score as int,
            turn: self.turn as int,
            end_turn: self.end_turn as int,
        }
    }
}

/// The board height of a model.
pub open spec fn height(m: AlternateMazeModel) -> int {
    m.board.len() as int
}

/// The board width of a model.
pub open spec fn width(m: AlternateMazeModel) -> int {
    m.board[0].len() as int
}

/// The coordinate change of one move.
pub open spec fn spec_dydx(a: Action) -> (int, int) {
    match a {
        Action::Right => (0, 1),
        Action::Left => (0, -1),
        Action::Down => (1, 0),
        Action::Up => (-1, 0),
    }
}

/// Whether a move keeps the acting character on the board.
pub open spec fn move_ok(m: AlternateMazeModel, a: Action) -> bool {
    let (dy, dx) = spec_dydx(a);
    &&& 0 <= m.a_y + dy < height(m)
    &&& 0 <= m.a_x + dx < width(m)
}

/// The deep view of a board is the sequence of its rows' views.
proof fn lemma_grid_view(v: &Vec<Vec<u8>>)
    ensures
        v.deep_view().len() == v@.len(),
        forall|i: int| 0 <= i < v@.len() ==> #[trigger] v.deep_view()[i] == v@[i]@,
{
    assert forall|i: int| 0 <= i < v@.len() implies #[trigger] v.deep_view()[i] == v@[i]@ by {
        assert(v.deep_view()[i] =~= v@[i]@);
    }
}

impl AlternateMazeState {
    /// Builds a game from its raw ingredients: a rectangular board of
    /// digits and the number of turns to play. The two characters start
    /// beside the board's center, on cleared cells; the board must be at
    /// least three cells wide so both start positions exist.
    pub fn new(point: Vec<Vec<u8>>, end_turn: u32) -> (r: Self)
        requires
            point.deep_view().len() >= 1,
            point.deep_view()[0].len() >= 3,
            forall|y: int|
                0 <= y < point.deep_view().len() ==> (#[trigger] point.deep_view()[y]).len()
                    == point.deep_view()[0].len(),
            forall|y: int, x: int|
                0 <= y < point.deep_view().len() && 0 <= x < point.deep_view()[y].len() ==> (
                #[trigger] point.deep_view()[y][x]) <= 9,
            end_turn <= MAX_ALTERNATE_TURNS,
        ensures
            <Self as AlternateGameState>::wf(r@),
            r@.turn == 0,
            r@.end_turn == end_turn as int,
            r@.a_score == 0,
            r@.b_score == 0,
            r@.a_y == point.deep_view().len() as int / 2,
            r@.a_x == point.deep_view()[0].len() as int / 2 - 1,
            r@.b_y == point.deep_view().len() as int / 2,
            r@.b_x == point.deep_view()[0].len() as int / 2 + 1,
    {
        let mut point = point;
        let ghost original = point.deep_view();
        proof {
            lemma_grid_view(&point);
        }
        let h = point.len();
        let w = point[0].len();
        let cy = h / 2;
        let ax = w / 2 - 1;
        let bx = w / 2 + 1;
        proof {
            assert(point.deep_view()[cy as int].len() == point.deep_view()[0].len());
            assert(point.deep_view()[cy as int] == point@[cy as int]@);
        }
        let row = &mut point[cy];
        row[ax] = 0;
        row[bx] = 0;
        proof {
            lemma_grid_view(&point);
            let dv = point.deep_view();
            assert(dv =~~= original.update(
                cy as int,
                original[cy as int].update(ax as int, 0u8).update(bx as int, 0u8),
            ));
            assert forall|y: int| 0 <= y < dv.len() implies (#[trigger] dv[y]).len()
                == dv[0].len() by {
                assert(original[y].len() == original[0].len());
            }
            assert forall|y: int, x: int|
                0 <= y < dv.len() && 0 <= x < dv[y].len() implies (#[trigger] dv[y][x]) <= 9 by {
                assert(original[y][x] <= 9);
            }
        }
        AlternateMazeState {
            point,
            turn: 0,
            end_turn,
            mover: Character { y: cy, x: ax, game_score: 0 },
            opponent: Character { y: cy, x: bx, game_score: 0 },
        }
    }
}

impl AlternateGameState for AlternateMazeState {
    type Action = Action;

    open spec fn wf(m: AlternateMazeModel) -> bool {
        &&& height(m) >= 1
        &&& width(m) >= 3
        &&& forall|y: int| 0 <= y < height(m) ==> (#[trigger] m.board[y]).len() == width(m)
        &&& forall|y: int, x: int|
            0 <= y < height(m) && 0 <= x < width(m) ==> (#[trigger] m.board[y][x]) <= 9
        &&& 0 <= m.a_y < height(m)
        &&& 0 <= m.a_x < width(m)
        &&& 0 <= m.b_y < height(m)
        &&& 0 <= m.b_x < width(m)
        &&& 0 <= m.turn <= m.end_turn <= MAX_ALTERNATE_TURNS
        &&& 0 <= m.a_score
        &&& 0 <= m.b_score
        &&& m.a_score + m.b_score <= 9 * m.turn
    }

    open spec fn is_done(m: AlternateMazeModel) -> bool {
        m.turn == m.end_turn
    }

    open spec fn legal(m: AlternateMazeModel) -> Seq<Action> {
        let right: Seq<Action> = if move_ok(m, Action::Right) {
            seq![Action::Right]
        } else {
            seq![]
        };
        let left: Seq<Action> = if move_ok(m, Action::Left) {
            seq![Action::Left]
        } else {
            seq![]
        };
        let down: Seq<Action> = if move_ok(m, Action::Down) {
            seq![Action::Down]
        } else {
            seq![]
        };
        let up: Seq<Action> = if move_ok(m, Action::Up) {
            seq![Action::Up]
        } else {
            seq![]
        };
        right + left + down + up
    }

    open spec fn score_of(m: AlternateMazeModel) -> i16 {
        (m.a_score - m.b_score) as i16
    }

    open spec fn status_of(m: AlternateMazeModel) -> Option<WinningStatus> {
        if m.turn == m.end_turn {
            if m.a_score > m.b_score {
                Some(WinningStatus::Win)
            } else if m.a_score < m.b_score {
                Some(WinningStatus::Lose)
            } else {
                Some(WinningStatus::Draw)
            }
        } else {
            None
        }
    }

    open spec fn rate_of(m: AlternateMazeModel) -> u64 {
        if m.a_score + m.b_score == 0 {
            0
        } else {
            ((m.a_score * VALUE_SCALE) / (m.a_score + m.b_score)) as u64
        }
    }

    open spec fn step(m: AlternateMazeModel, a: Action) -> AlternateMazeModel {
        let (dy, dx) = spec_dydx(a);
        let ty = m.a_y + dy;
        let tx = m.a_x + dx;
        AlternateMazeModel {
            board: m.board.update(ty, m.board[ty].update(tx, 0u8)),
            a_y: m.b_y,
            a_x: m.b_x,
            a_score: m.b_score,
            b_y: ty,
            b_x: tx,
            b_score: m.a_score + m.board[ty][tx],
            turn: m.turn + 1,
            end_turn: m.end_turn,
        }
    }

    open spec fn steps_to_end(m: AlternateMazeModel) -> nat {
        if m.turn <= m.end_turn {
            (m.end_turn - m.turn) as nat
        } else {
            0
        }
    }

    proof fn lemma_step_wf(m: AlternateMazeModel, a: Action) {
        lemma_legal_moves(m, a);
        let m2 = Self::step(m, a);
        assert forall|y: int| 0 <= y < height(m2) implies (#[trigger] m2.board[y]).len() == width(
            m2,
        ) by {
            assert(m.board[y].len() == width(m));
        }
        assert forall|y: int, x: int|
            0 <= y < height(m2) && 0 <= x < width(m2) implies (#[trigger] m2.board[y][x]) <= 9 by {
            assert(m.board[y][x] <= 9);
        }
        assert(m.board[m.a_y + spec_dydx(a).0][m.a_x + spec_dydx(a).1] <= 9);
    }

    proof fn lemma_nonterminal_can_move(m: AlternateMazeModel) {
        assert(move_ok(m, Action::Right) || move_ok(m, Action::Left));
    }

    proof fn lemma_score_range(m: AlternateMazeModel) {
    }

    proof fn lemma_status_iff_done(m: AlternateMazeModel) {
    }

    proof fn lemma_rate_bounded(m: AlternateMazeModel) {
        if m.a_score + m.b_score != 0 {
            assert((m.a_score * VALUE_SCALE) / (m.a_score + m.b_score) <= VALUE_SCALE)
                by (nonlinear_arith)
                requires
                    0 <= m.a_score,
                    0 <= m.b_score,
                    m.a_score + m.b_score >= 1,
                    VALUE_SCALE == 65536,
            ;
            assert((m.a_score * VALUE_SCALE) / (m.a_score + m.b_score) >= 0) by (nonlinear_arith)
                requires
                    0 <= m.a_score,
                    m.a_score + m.b_score >= 1,
            ;
        }
    }

    fn legal_actions(&self) -> (r: Vec<Action>) {
        proof {
            lemma_grid_view(&self.point);
            assert(self@.board[0] == self.point@[0]@);
        }
        let h = self.point.len();
        let w = self.point[0].len();
        let mut actions: Vec<Action> = Vec::new();
        if self.mover.x + 1 < w {
            actions.push(Action::Right);
        }
        if self.mover.x > 0 {
            actions.push(Action::Left);
        }
        if self.mover.y + 1 < h {
            actions.push(Action::Down);
        }
        if self.mover.y > 0 {
            actions.push(Action::Up);
        }
        proof {
            assert(actions@ =~= Self::legal(self@));
        }
        actions
    }

    fn advance(&mut self, action: Action) {
        let ghost pre = self@;
        proof {
            lemma_grid_view(&self.point);
            lemma_legal_moves(pre, action);
            assert(self@.board[0] == self.point@[0]@);
        }
        let h = self.point.len();
        let w = self.point[0].len();
        let (ty, tx) = match action {
            Action::Right => (self.mover.y, self.mover.x + 1),
            Action::Left => (self.mover.y, self.mover.x - 1),
            Action::Down => (self.mover.y + 1, self.mover.x),
            Action::Up => (self.mover.y - 1, self.mover.x),
        };
        proof {
            assert(pre.board[ty as int] == self.point@[ty as int]@);
            assert(pre.board[ty as int].len() == pre.board[0].len());
            assert(pre.board[ty as int][tx as int] <= 9);
        }
        let gained = self.point[ty][tx];
        let row = &mut self.point[ty];
        row[tx] = 0;
        let moved = Character {
            y: ty,
            x: tx,
            game_score: self.mover.game_score + gained as i16,
        };
        self.mover = self.opponent;
        self.opponent = moved;
        self.turn = self.turn + 1;
        proof {
            lemma_grid_view(&self.point);
            assert(self@.board =~~= Self::step(pre, action).board);
            assert(self@ == Self::step(pre, action));
        }
    }

    fn done(&self) -> (r: bool) {
        self.turn == self.end_turn
    }

    fn score(&self) -> (r: i16) {
        self.mover.game_score - self.opponent.game_score
    }

    fn winning_status(&self) -> (r: Option<WinningStatus>) {
        if self.turn == self.end_turn {
            if self.mover.game_score > self.opponent.game_score {
                Some(WinningStatus::Win)
            } else if self.mover.game_score < self.opponent.game_score {
                Some(WinningStatus::Lose)
            } else {
                Some(WinningStatus::Draw)
            }
        } else {
            None
        }
    }

    fn score_rate(&self) -> (r: u64) {
        let a = self.mover.game_score;
        let b = self.opponent.game_score;
        if a + b == 0 {
            0
        } else {
            proof {
                assert(((a as int) * (VALUE_SCALE as int)) / ((a as int) + (b as int))
                    <= VALUE_SCALE as int && 0 <= ((a as int) * (VALUE_SCALE as int)) / ((
                a as int) + (b as int))) by (nonlinear_arith)
                    requires
                        0 <= a as int,
                        0 <= b as int,
                        (a as int) + (b as int) >= 1,
                        VALUE_SCALE == 65536,
                ;
            }
            (a as u64) * VALUE_SCALE / ((a + b) as u64)
        }
    }

    fn duplicate(&self) -> (r: Self) {
        proof {
            lemma_grid_view(&self.point);
        }
        let mut board: Vec<Vec<u8>> = Vec::new();
        let mut y: usize = 0;
        while y < self.point.len()
            invariant
                y <= self.point@.len(),
                board.deep_view() =~~= self.point.deep_view().subrange(0, y as int),
            decreases self.point@.len() - y,
        {
            let src = &self.point[y];
            let mut row: Vec<u8> = Vec::new();
            let mut x: usize = 0;
            while x < src.len()
                invariant
                    x <= src@.len(),
                    row@ =~= src@.subrange(0, x as int),
                decreases src@.len() - x,
            {
                row.push(src[x]);
                x += 1;
            }
            proof {
                assert(row@ =~= src@);
                assert(row.deep_view() =~= src@);
                assert(self.point.deep_view()[y as int] == self.point@[y as int]@);
            }
            board.push(row);
            proof {
                assert(board.deep_view() =~~= self.point.deep_view().subrange(0, y + 1));
            }
            y += 1;
        }
        let r = AlternateMazeState {
            point: board,
            turn: self.turn,
            end_turn: self.end_turn,
            mover: self.mover,
            opponent: self.opponent,
        };
        proof {
            assert(r@.board =~~= self@.board);
            assert(r@ == self@);
        }
        r
    }
}

/// Every legal action is a move that keeps the acting character on the
/// board.
pub proof fn lemma_legal_moves(m: AlternateMazeModel, a: Action)
    requires
        <AlternateMazeState as AlternateGameState>::legal(m).contains(a),
    ensures
        move_ok(m, a),
{
}

} // verus!
