use vstd::prelude::*;

use crate::game::one_player::OnePlayerGameState;

verus! {

/// Largest supported game length: keeps the collected score, at most 9
/// points per turn, far away from `u32` overflow.
pub const MAX_TURNS: u32 = 100000000;

/// A move of the single player, one cell in each direction.
#[derive(Clone, Copy, Debug, PartialEq, Eq, Structural)]
pub enum Action {
    Right,
    Left,
    Down,
    Up,
}

/// Position of the player on the board.
#[derive(Clone, Copy)]
struct Coord {
    y: usize,
    x: usize,
}

/// The number-collecting maze: a board of point cells, one character, and
/// a fixed number of turns; each move collects and clears the entered
/// cell's points.
pub struct MazeState {
    character: Coord,
    point: Vec<Vec<u8>>,
    turn: u32,
    end_turn: u32,
    game_score: u32,
}

/// The mathematical model of a maze state.
pub struct MazeModel {
    pub board: Seq<Seq<u8>>,
    pub y: int,
    pub x: int,
    pub turn: int,
    pub end_turn: int,
    pub game_score: int,
}

impl View for MazeState {
    type V = MazeModel;

    closed spec fn view(&self) -> MazeModel {
        MazeModel {
            board: self.point.deep_view(),
            y: self.character.y as int,
            x: self.character.x as int,
            turn: self.turn as int,
            end_turn: self.end_turn as int,
            game_score: self.game_score as int,
        }
    }
}

/// The board height of a model.
pub open spec fn height(m: MazeModel) -> int {
    m.board.len() as int
}

/// The board width of a model.
pub open spec fn width(m: MazeModel) -> int {
    m.board[0].len() as int
}

/// The coordinate change of one move.
pub open spec fn spec_dydx(a: Action) -> (int, int) {
    match a {
        Action::Right => (0, 1),
        Action::Left => (0, -1),
        Action::Down => (1, 0),
        Action::Up => (-1, 0),
    }
}

/// Whether a move keeps the character on the board.
pub open spec fn move_ok(m: MazeModel, a: Action) -> bool {
    let (dy, dx) = spec_dydx(a);
    &&& 0 <= m.y + dy < height(m)
    &&& 0 <= m.x + dx < width(m)
}

/// The deep view of a board is the sequence of its rows' views.
proof fn lemma_grid_view(v: &Vec<Vec<u8>>)
    ensures
        v.deep_view().len() == v@.len(),
        forall|i: int| 0 <= i < v@.len() ==> #[trigger] v.deep_view()[i] == v@[i]@,
{
    assert forall|i: int| 0 <= i < v@.len() implies #[trigger] v.deep_view()[i] == v@[i]@ by {
        assert(v.deep_view()[i] =~= v@[i]@);
    }
}

impl MazeState {
    /// Builds a maze from its raw ingredients: a rectangular board of
    /// digits, the character's start cell (whose points are cleared), and
    /// the number of turns to play. Boards with a single cell are
    /// rejected: the player could never move.
    pub fn new(point: Vec<Vec<u8>>, start_y: usize, start_x: usize, end_turn: u32) -> (r: Self)
        requires
            point.deep_view().len() >= 1,
            point.deep_view()[0].len() >= 1,
            point.deep_view().len() >= 2 || point.deep_view()[0].len() >= 2,
            forall|y: int|
                0 <= y < point.deep_view().len() ==> (#[trigger] point.deep_view()[y]).len()
                    == point.deep_view()[0].len(),
            forall|y: int, x: int|
                0 <= y < point.deep_view().len() && 0 <= x < point.deep_view()[y].len() ==> (
                #[trigger] point.deep_view()[y][x]) <= 9,
            (start_y as int) < point.deep_view().len(),
            (start_x as int) < point.deep_view()[0].len(),
            end_turn <= MAX_TURNS,
        ensures
            Self::wf(r@),
            r@.y == start_y as int,
            r@.x == start_x as int,
            r@.turn == 0,
            r@.end_turn == end_turn as int,
            r@.game_score == 0,
            r@.board == point.deep_view().update(
                start_y as int,
                point.deep_view()[start_y as int].update(start_x as int, 0u8),
            ),
    {
        let mut point = point;
        let ghost original = point.deep_view();
        proof {
            lemma_grid_view(&point);
            assert(point.deep_view()[start_y as int] == point@[start_y as int]@);
            assert(point.deep_view()[start_y as int].len() == point.deep_view()[0].len());
        }
        let row = &mut point[start_y];
        row[start_x] = 0;
        proof {
            lemma_grid_view(&point);
            assert(point.deep_view() =~~= original.update(
                start_y as int,
                original[start_y as int].update(start_x as int, 0u8),
            ));
        }
        MazeState {
            character: Coord { y: start_y, x: start_x },
            point,
            turn: 0,
            end_turn,
            game_score: 0,
        }
    }
}

impl OnePlayerGameState for MazeState {
    type Action = Action;

    open spec fn wf(m: MazeModel) -> bool {
        &&& height(m) >= 1
        &&& width(m) >= 1
        &&& height(m) >= 2 || width(m) >= 2
        &&& forall|y: int| 0 <= y < height(m) ==> (#[trigger] m.board[y]).len() == width(m)
        &&& forall|y: int, x: int|
            0 <= y < height(m) && 0 <= x < width(m) ==> (#[trigger] m.board[y][x]) <= 9
        &&& 0 <= m.y < height(m)
        &&& 0 <= m.x < width(m)
        &&& 0 <= m.turn <= m.end_turn <= MAX_TURNS
        &&& 0 <= m.game_score <= 9 * m.turn
    }

    open spec fn is_done(m: MazeModel) -> bool {
        m.turn == m.end_turn
    }

    open spec fn legal(m: MazeModel) -> Seq<Action> {
        let right: Seq<Action> = if move_ok(m, Action::Right) {
            seq![Action::Right]
        } else {
            seq![]
        };
        let left: Seq<Action> = if move_ok(m, Action::Left) {
            seq![Action::Left]
        } else {
            seq![]
        };
        let down: Seq<Action> = if move_ok(m, Action::Down) {
            seq![Action::Down]
        } else {
            seq![]
        };
        let up: Seq<Action> = if move_ok(m, Action::Up) {
            seq![Action::Up]
        } else {
            seq![]
        };
        right + left + down + up
    }

    open spec fn score_of(m: MazeModel) -> u32 {
        m.game_score as u32
    }

    open spec fn step(m: MazeModel, a: Action) -> MazeModel {
        let (dy, dx) = spec_dydx(a);
        let ty = m.y + dy;
        let tx = m.x + dx;
        MazeModel {
            board: m.board.update(ty, m.board[ty].update(tx, 0u8)),
            y: ty,
            x: tx,
            turn: m.turn + 1,
            end_turn: m.end_turn,
            game_score: m.game_score + m.board[ty][tx],
        }
    }

    proof fn lemma_step_wf(m: MazeModel, a: Action) {
        let (dy, dx) = spec_dydx(a);
        assert(Self::legal(m).contains(a) ==> move_ok(m, a)) by {
            if Self::legal(m).contains(a) {
                lemma_legal_moves(m, a);
            }
        }
        let m2 = Self::step(m, a);
        assert forall|y: int| 0 <= y < height(m2) implies (#[trigger] m2.board[y]).len() == width(
            m2,
        ) by {
            assert(m.board[y].len() == width(m));
        }
        assert forall|y: int, x: int|
            0 <= y < height(m2) && 0 <= x < width(m2) implies (#[trigger] m2.board[y][x]) <= 9 by {
            assert(m.board[y][x] <= 9);
        }
    }

    proof fn lemma_nonterminal_can_move(m: MazeModel) {
        if width(m) >= 2 {
            assert(move_ok(m, Action::Right) || move_ok(m, Action::Left));
        } else {
            assert(move_ok(m, Action::Down) || move_ok(m, Action::Up));
        }
    }

    fn legal_actions(&self) -> (r: Vec<Action>) {
        proof {
            lemma_grid_view(&self.point);
            assert(self@.board[0] == self.point@[0]@);
            assert((self.character.x as int) < self.point@[0]@.len());
            assert((self.character.y as int) < self.point@.len());
        }
        let h = self.point.len();
        let w = self.point[0].len();
        let mut actions: Vec<Action> = Vec::new();
        if self.character.x + 1 < w {
            actions.push(Action::Right);
        }
        if self.character.x > 0 {
            actions.push(Action::Left);
        }
        if self.character.y + 1 < h {
            actions.push(Action::Down);
        }
        if self.character.y > 0 {
            actions.push(Action::Up);
        }
        proof {
            assert(actions@ =~= Self::legal(self@));
        }
        actions
    }

    fn advance(&mut self, action: Action) {
        let ghost pre = self@;
        proof {
            lemma_grid_view(&self.point);
            lemma_legal_moves(pre, action);
            assert(self@.board[0] == self.point@[0]@);
            assert((self.character.x as int) < self.point@[0]@.len());
            assert((self.character.y as int) < self.point@.len());
        }
        let h = self.point.len();
        let w = self.point[0].len();
        let (ty, tx) = match action {
            Action::Right => (self.character.y, self.character.x + 1),
            Action::Left => (self.character.y, self.character.x - 1),
            Action::Down => (self.character.y + 1, self.character.x),
            Action::Up => (self.character.y - 1, self.character.x),
        };
        proof {
            assert(pre.board[ty as int] == self.point@[ty as int]@);
            assert(pre.board[ty as int].len() == pre.board[0].len());
            assert(pre.board[ty as int][tx as int] <= 9);
        }
        let gained = self.point[ty][tx];
        self.game_score = self.game_score + gained as u32;
        let row = &mut self.point[ty];
        row[tx] = 0;
        self.character = Coord { y: ty, x: tx };
        self.turn = self.turn + 1;
        proof {
            lemma_grid_view(&self.point);
            assert(self@.board =~~= Self::step(pre, action).board);
            assert(self@ == Self::step(pre, action));
        }
    }

    fn done(&self) -> (r: bool) {
        self.turn == self.end_turn
    }

    fn evaluate_score(&self) -> (r: u32) {
        self.game_score
    }

    fn duplicate(&self) -> (r: Self) {
        proof {
            lemma_grid_view(&self.point);
        }
        let mut board: Vec<Vec<u8>> = Vec::new();
        let mut y: usize = 0;
        while y < self.point.len()
            invariant
                y <= self.point@.len(),
                board.deep_view() =~~= self.point.deep_view().subrange(0, y as int),
            decreases self.point@.len() - y,
        {
            let src = &self.point[y];
            let mut row: Vec<u8> = Vec::new();
            let mut x: usize = 0;
            while x < src.len()
                invariant
                    x <= src@.len(),
                    row@ =~= src@.subrange(0, x as int),
                decreases src@.len() - x,
            {
                row.push(src[x]);
                x += 1;
            }
            proof {
                assert(row@ =~= src@);
                assert(row.deep_view() =~= src@);
                assert(self.point.deep_view()[y as int] == self.point@[y as int]@);
            }
            board.push(row);
            proof {
                assert(board.deep_view() =~~= self.point.deep_view().subrange(0, y + 1));
            }
            y += 1;
        }
        let r = MazeState {
            character: self.character,
            point: board,
            turn: self.turn,
            end_turn: self.end_turn,
            game_score: self.game_score,
        };
        proof {
            assert(r@.board =~~= self@.board);
            assert(r@ == self@);
        }
        r
    }
}

/// Every legal action is a move that stays on the board.
pub proof fn lemma_legal_moves(m: MazeModel, a: Action)
    requires
        <MazeState as OnePlayerGameState>::legal(m).contains(a),
    ensures
        move_ok(m, a),
{
}

} // verus!
