use vstd::prelude::*;

use crate::game::heuristic::HeuristicGameState;
use crate::random_below;

verus! {

/// Largest supported game length.
pub const MAX_AUTO_TURNS: u32 = 1000000;

/// Largest supported number of auto-moving characters. Together with
/// [`MAX_AUTO_TURNS`] it keeps the collected score, at most 9 points per
/// character per turn, far away from `u32` overflow.
pub const MAX_CHARACTERS: usize = 100;

/// Position of one auto-moving character.
#[derive(Clone, Copy, Debug, PartialEq, Eq, Structural)]
pub struct Coord {
    pub y: usize,
    pub x: usize,
}

/// The auto-moving number-collecting maze: the candidate solution is the
/// placement of the characters; a deterministic rollout then moves every
/// character greedily to its best neighbor each turn and collects points.
pub struct AutoMoveMazeState {
    characters: Vec<Coord>,
    point: Vec<Vec<u8>>,
    turn: u32,
    end_turn: u32,
    game_score: u32,
}

/// The mathematical model of a candidate.
pub struct AutoMazeModel {
    pub board: Seq<Seq<u8>>,
    pub chars: Seq<Coord>,
    pub turn: int,
    pub end_turn: int,
    pub game_score: int,
}

impl View for AutoMoveMazeState {
    type V = AutoMazeModel;

    closed spec fn view(&self) -> AutoMazeModel {
        AutoMazeModel {
            board: self.point.deep_view(),
            chars: self.characters@,
            turn: self.turn as int,
            end_turn: self.end_turn as int,
            game_score: self.game_score as int,
        }
    }
}

/// A rectangular board of digits with room to move.
pub open spec fn board_ok(board: Seq<Seq<u8>>) -> bool {
    &&& board.len() >= 1
    &&& board[0].len() >= 1
    &&& board.len() >= 2 || board[0].len() >= 2
    &&& forall|y: int| 0 <= y < board.len() ==> (#[trigger] board[y]).len() == board[0].len()
    &&& forall|y: int, x: int|
        0 <= y < board.len() && 0 <= x < board[0].len() ==> (#[trigger] board[y][x]) <= 9
}

/// Every character stands on the board.
pub open spec fn chars_ok(board: Seq<Seq<u8>>, chars: Seq<Coord>) -> bool {
    forall|i: int|
        0 <= i < chars.len() ==> (#[trigger] chars[i]).y < board.len() && chars[i].x
            < board[0].len()
}

/// The in-bounds neighbors of a cell, in the fixed probe order right,
/// left, down, up.
pub open spec fn neighbors(board: Seq<Seq<u8>>, c: Coord) -> Seq<Coord> {
    let right: Seq<Coord> = if c.x + 1 < board[0].len() {
        seq![Coord { y: c.y, x: (c.x + 1) as usize }]
    } else {
        seq![]
    };
    let left: Seq<Coord> = if c.x >= 1 {
        seq![Coord { y: c.y, x: (c.x - 1) as usize }]
    } else {
        seq![]
    };
    let down: Seq<Coord> = if c.y + 1 < board.len() {
        seq![Coord { y: (c.y + 1) as usize, x: c.x }]
    } else {
        seq![]
    };
    let up: Seq<Coord> = if c.y >= 1 {
        seq![Coord { y: (c.y - 1) as usize, x: c.x }]
    } else {
        seq![]
    };
    right + left + down + up
}

/// Index of the best cell among the first `i` candidates: the first one
/// holding the most points, matching a stable descending sort.
pub open spec fn best_candidate(board: Seq<Seq<u8>>, cands: Seq<Coord>, i: nat) -> int
    decreases i,
{
    if i <= 1 {
        0
    } else {
        let p = best_candidate(board, cands, (i - 1) as nat);
        if board[cands[i - 1].y as int][cands[i - 1].x as int] > board[cands[p].y as int][cands[p].x as int] {
            i - 1
        } else {
            p
        }
    }
}

pub proof fn lemma_best_candidate_range(board: Seq<Seq<u8>>, cands: Seq<Coord>, i: nat)
    requires
        1 <= i,
    ensures
        0 <= best_candidate(board, cands, i) < i,
    decreases i,
{
    if i > 1 {
        lemma_best_candidate_range(board, cands, (i - 1) as nat);
    }
}

/// Where one character moves: to its best in-bounds neighbor.
pub open spec fn moved_char(board: Seq<Seq<u8>>, c: Coord) -> Coord {
    let cands = neighbors(board, c);
    cands[best_candidate(board, cands, cands.len() as nat)]
}

/// One turn of the first `i` characters, processed in order on the
/// evolving board: returns the board, the characters and the points
/// gained.
pub open spec fn chars_turn(board: Seq<Seq<u8>>, chars: Seq<Coord>, i: nat) -> (
    Seq<Seq<u8>>,
    Seq<Coord>,
    int,
)
    decreases i,
{
    if i == 0 {
        (board, chars, 0)
    } else {
        let p = chars_turn(board, chars, (i - 1) as nat);
        let t = moved_char(p.0, p.1[i - 1]);
        let gained = p.0[t.y as int][t.x as int];
        (
            p.0.update(t.y as int, p.0[t.y as int].update(t.x as int, 0u8)),
            p.1.update(i - 1, t),
            p.2 + gained,
        )
    }
}

/// One full turn of the rollout.
pub open spec fn turn_step(m: AutoMazeModel) -> AutoMazeModel {
    let r = chars_turn(m.board, m.chars, m.chars.len() as nat);
    AutoMazeModel {
        board: r.0,
        chars: r.1,
        turn: m.turn + 1,
        end_turn: m.end_turn,
        game_score: m.game_score + r.2,
    }
}

/// `k` full turns of the rollout.
pub open spec fn run_turns(m: AutoMazeModel, k: nat) -> AutoMazeModel
    decreases k,
{
    if k == 0 {
        m
    } else {
        run_turns(turn_step(m), (k - 1) as nat)
    }
}

/// The board with the cells under the first `i` characters cleared: the
/// points at the starting placement are not collected.
pub open spec fn cleared(board: Seq<Seq<u8>>, chars: Seq<Coord>, i: nat) -> Seq<Seq<u8>>
    decreases i,
{
    if i == 0 {
        board
    } else {
        let b = cleared(board, chars, (i - 1) as nat);
        let c = chars[i - 1];
        b.update(c.y as int, b[c.y as int].update(c.x as int, 0u8))
    }
}

/// The moved character stays on the board, and the probe list is never
/// empty.
pub proof fn lemma_moved_char_ok(board: Seq<Seq<u8>>, c: Coord)
    requires
        board_ok(board),
        c.y < board.len(),
        c.x < board[0].len(),
    ensures
        neighbors(board, c).len() >= 1,
        moved_char(board, c).y < board.len(),
        moved_char(board, c).x < board[0].len(),
{
    let cands = neighbors(board, c);
    if board[0].len() >= 2 {
        assert(c.x + 1 < board[0].len() || c.x >= 1);
    } else {
        assert(c.y + 1 < board.len() || c.y >= 1);
    }
    lemma_best_candidate_range(board, cands, cands.len() as nat);
    let b = best_candidate(board, cands, cands.len() as nat);
    assert(cands[b].y < board.len() && cands[b].x < board[0].len());
}

/// Updating one cell to zero preserves the board shape.
pub proof fn lemma_zero_cell_ok(board: Seq<Seq<u8>>, y: int, x: int)
    requires
        board_ok(board),
        0 <= y < board.len(),
        0 <= x < board[0].len(),
    ensures
        board_ok(board.update(y, board[y].update(x, 0u8))),
{
    let b2 = board.update(y, board[y].update(x, 0u8));
    assert forall|r: int| 0 <= r < b2.len() implies (#[trigger] b2[r]).len() == b2[0].len() by {
        assert(board[r].len() == board[0].len());
    }
    assert forall|r: int, q: int|
        0 <= r < b2.len() && 0 <= q < b2[0].len() implies (#[trigger] b2[r][q]) <= 9 by {
        assert(board[r][q] <= 9);
    }
}

/// A prefix turn keeps the board and characters sound and gains at most
/// nine points per processed character.
pub proof fn lemma_chars_turn_ok(board: Seq<Seq<u8>>, chars: Seq<Coord>, i: nat)
    requires
        board_ok(board),
        chars_ok(board, chars),
        i <= chars.len(),
    ensures
        board_ok(chars_turn(board, chars, i).0),
        chars_turn(board, chars, i).0.len() == board.len(),
        chars_turn(board, chars, i).0[0].len() == board[0].len(),
        chars_turn(board, chars, i).1.len() == chars.len(),
        chars_ok(chars_turn(board, chars, i).0, chars_turn(board, chars, i).1),
        0 <= chars_turn(board, chars, i).2 <= 9 * i,
    decreases i,
{
    if i > 0 {
        lemma_chars_turn_ok(board, chars, (i - 1) as nat);
        let p = chars_turn(board, chars, (i - 1) as nat);
        lemma_moved_char_ok(p.0, p.1[i - 1]);
        let t = moved_char(p.0, p.1[i - 1]);
        lemma_zero_cell_ok(p.0, t.y as int, t.x as int);
        assert(p.0[t.y as int][t.x as int] <= 9);
    }
}

/// Clearing the starting cells preserves the board shape.
pub proof fn lemma_cleared_ok(board: Seq<Seq<u8>>, chars: Seq<Coord>, i: nat)
    requires
        board_ok(board),
        chars_ok(board, chars),
        i <= chars.len(),
    ensures
        board_ok(cleared(board, chars, i)),
        cleared(board, chars, i).len() == board.len(),
        cleared(board, chars, i)[0].len() == board[0].len(),
    decreases i,
{
    if i > 0 {
        lemma_cleared_ok(board, chars, (i - 1) as nat);
        let b = cleared(board, chars, (i - 1) as nat);
        lemma_zero_cell_ok(b, chars[i - 1].y as int, chars[i - 1].x as int);
    }
}

/// The deep view of a board is the sequence of its rows' views.
proof fn lemma_grid_view(v: &Vec<Vec<u8>>)
    ensures
        v.deep_view().len() == v@.len(),
        forall|i: int| 0 <= i < v@.len() ==> #[trigger] v.deep_view()[i] == v@[i]@,
{
    assert forall|i: int| 0 <= i < v@.len() implies #[trigger] v.deep_view()[i] == v@[i]@ by {
        assert(v.deep_view()[i] =~= v@[i]@);
    }
}

/// Copies a board of digits.
fn copy_grid(v: &Vec<Vec<u8>>) -> (r: Vec<Vec<u8>>)
    ensures
        r.deep_view() == v.deep_view(),
{
    proof {
        lemma_grid_view(v);
    }
    let mut board: Vec<Vec<u8>> = Vec::new();
    let mut y: usize = 0;
    while y < v.len()
        invariant
            y <= v@.len(),
            board.deep_view() =~~= v.deep_view().subrange(0, y as int),
        decreases v@.len() - y,
    {
        let src = &v[y];
        let mut row: Vec<u8> = Vec::new();
        let mut x: usize = 0;
        while x < src.len()
            invariant
                x <= src@.len(),
                row@ =~= src@.subrange(0, x as int),
            decreases src@.len() - x,
        {
            row.push(src[x]);
            x += 1;
        }
        proof {
            assert(row@ =~= src@);
            assert(row.deep_view() =~= src@);
            assert(v.deep_view()[y as int] == v@[y as int]@);
        }
        board.push(row);
        proof {
            assert(board.deep_view() =~~= v.deep_view().subrange(0, y + 1));
        }
        y += 1;
    }
    proof {
        assert(board.deep_view() =~~= v.deep_view());
    }
    board
}

/// Moves one character to its best in-bounds neighbor of `point`.
fn best_neighbor(point: &Vec<Vec<u8>>, c: Coord) -> (r: Coord)
    requires
        board_ok(point.deep_view()),
        c.y < point.deep_view().len(),
        c.x < point.deep_view()[0].len(),
    ensures
        r == moved_char(point.deep_view(), c),
{
    proof {
        lemma_grid_view(point);
        lemma_moved_char_ok(point.deep_view(), c);
    }
    let ghost board = point.deep_view();
    let h = point.len();
    let w = point[0].len();
    let mut cands: Vec<Coord> = Vec::new();
    if c.x + 1 < w {
        cands.push(Coord { y: c.y, x: c.x + 1 });
    }
    if c.x >= 1 {
        cands.push(Coord { y: c.y, x: c.x - 1 });
    }
    if c.y + 1 < h {
        cands.push(Coord { y: c.y + 1, x: c.x });
    }
    if c.y >= 1 {
        cands.push(Coord { y: c.y - 1, x: c.x });
    }
    proof {
        assert(cands@ =~= neighbors(board, c));
    }
    let mut best: usize = 0;
    let mut k: usize = 1;
    while k < cands.len()
        invariant
            cands@ == neighbors(board, c),
            board == point.deep_view(),
            board_ok(board),
            chars_ok(board, cands@),
            1 <= k <= cands@.len(),
            0 <= best < k,
            best as int == best_candidate(board, cands@, k as nat),
        decreases cands@.len() - k,
    {
        proof {
            assert(cands@[k as int].y < board.len() && cands@[k as int].x < board[0].len());
            assert(cands@[best as int].y < board.len() && cands@[best as int].x < board[0].len());
            assert(board[cands@[k as int].y as int] == point@[cands@[k as int].y as int]@);
            assert(board[cands@[best as int].y as int] == point@[cands@[best as int].y as int]@);
            assert(board[cands@[k as int].y as int].len() == board[0].len());
            assert(board[cands@[best as int].y as int].len() == board[0].len());
        }
        let ck = cands[k];
        let cb = cands[best];
        if point[ck.y][ck.x] > point[cb.y][cb.x] {
            best = k;
        }
        k += 1;
    }
    proof {
        lemma_best_candidate_range(board, cands@, cands@.len() as nat);
    }
    cands[best]
}

impl AutoMoveMazeState {
    /// Builds a candidate from its raw ingredients: a rectangular board of
    /// digits, the number of characters, and the number of turns the
    /// rollout plays. The characters are placed randomly, as a fresh
    /// candidate.
    pub fn new(point: Vec<Vec<u8>>, character_num: usize, end_turn: u32) -> (r: Self)
        requires
            board_ok(point.deep_view()),
            1 <= character_num <= MAX_CHARACTERS,
            end_turn <= MAX_AUTO_TURNS,
        ensures
            <Self as HeuristicGameState>::wf(r@),
    {
        let mut characters: Vec<Coord> = Vec::new();
        let mut i: usize = 0;
        while i < character_num
            invariant
                characters@.len() == i,
                i <= character_num,
                forall|q: int|
                    0 <= q < i ==> (#[trigger] characters@[q]).y == 0 && characters@[q].x == 0,
            decreases character_num - i,
        {
            characters.push(Coord { y: 0, x: 0 });
            i += 1;
        }
        let mut state = AutoMoveMazeState { characters, point, turn: 0, end_turn, game_score: 0 };
        proof {
            assert(chars_ok(state@.board, state@.chars));
        }
        state.initialize();
        state
    }
}

impl HeuristicGameState for AutoMoveMazeState {
    open spec fn wf(m: AutoMazeModel) -> bool {
        &&& board_ok(m.board)
        &&& chars_ok(m.board, m.chars)
        &&& 1 <= m.chars.len() <= MAX_CHARACTERS
        &&& 0 <= m.turn <= m.end_turn <= MAX_AUTO_TURNS
        &&& 0 <= m.game_score <= 9 * m.chars.len() * m.turn
    }

    /// The score of the deterministic rollout: the starting cells are
    /// cleared, then every remaining turn moves each character to its
    /// best neighbor and collects the entered cell.
    open spec fn rollout_score(m: AutoMazeModel) -> u32 {
        let start = AutoMazeModel {
            board: cleared(m.board, m.chars, m.chars.len() as nat),
            chars: m.chars,
            turn: m.turn,
            end_turn: m.end_turn,
            game_score: m.game_score,
        };
        let steps: nat = if m.turn <= m.end_turn {
            (m.end_turn - m.turn) as nat
        } else {
            0
        };
        run_turns(start, steps).game_score as u32
    }

    fn initialize(&mut self) {
        let h = self.point.len();
        let w = self.point[0].len();
        proof {
            lemma_grid_view(&self.point);
        }
        let n = self.characters.len();
        let mut i: usize = 0;
        while i < n
            invariant
                n == self.characters@.len(),
                i <= n,
                h == self@.board.len(),
                w == self@.board[0].len(),
                h >= 1,
                w >= 1,
                self.point == old(self).point,
                self.turn == old(self).turn,
                self.end_turn == old(self).end_turn,
                self.game_score == old(self).game_score,
                <Self as HeuristicGameState>::wf(old(self)@),
                chars_ok(self@.board, self@.chars),
            decreases n - i,
        {
            let y = random_below(h);
            let x = random_below(w);
            let slot = &mut self.characters[i];
            *slot = Coord { y, x };
            i += 1;
        }
    }

    fn start(&self) -> (r: u32) {
        proof {
            lemma_grid_view(&self.point);
        }
        let mut board = copy_grid(&self.point);
        let ghost m = self@;
        let n = self.characters.len();

        // The points under the starting placement are not collected.
        let mut i: usize = 0;
        while i < n
            invariant
                n == self.characters@.len(),
                <Self as HeuristicGameState>::wf(self@),
                i <= n,
                board.deep_view() == cleared(self@.board, self@.chars, i as nat),
            decreases n - i,
        {
            proof {
                lemma_cleared_ok(self@.board, self@.chars, i as nat);
                lemma_grid_view(&board);
                assert(self@.chars[i as int].y < board.deep_view().len());
                let cy = self@.chars[i as int].y as int;
                assert(board.deep_view()[cy].len() == board.deep_view()[0].len());
                assert(board.deep_view()[cy] == board@[cy]@);
            }
            let ghost pre = board.deep_view();
            let c = self.characters[i];
            let row = &mut board[c.y];
            row[c.x] = 0;
            proof {
                lemma_grid_view(&board);
                assert(board.deep_view() =~~= pre.update(
                    c.y as int,
                    pre[c.y as int].update(c.x as int, 0u8),
                ));
            }
            i += 1;
        }
        proof {
            lemma_cleared_ok(self@.board, self@.chars, n as nat);
        }

        let mut characters = self.clone_characters();
        let ghost m0 = AutoMazeModel {
            board: cleared(m.board, m.chars, m.chars.len() as nat),
            chars: m.chars,
            turn: m.turn,
            end_turn: m.end_turn,
            game_score: m.game_score,
        };
        let mut score: u32 = self.game_score;
        let mut turn: u32 = self.turn;
        while turn < self.end_turn
            invariant
                <Self as HeuristicGameState>::wf(self@),
                self.turn <= turn <= self.end_turn,
                m0.board == cleared(self@.board, self@.chars, self@.chars.len() as nat),
                m0.chars == self@.chars,
                m0.turn == self.turn as int,
                m0.end_turn == self.end_turn as int,
                m0.game_score == self.game_score as int,
                run_turns(m0, (turn - self.turn) as nat) == (AutoMazeModel {
                    board: board.deep_view(),
                    chars: characters@,
                    turn: turn as int,
                    end_turn: self.end_turn as int,
                    game_score: score as int,
                }),
                board_ok(board.deep_view()),
                chars_ok(board.deep_view(), characters@),
                characters@.len() == self@.chars.len(),
                score as int <= 9 * self@.chars.len() * turn,
            decreases self.end_turn - turn,
        {
            let gained = simulate_turn(&mut board, &mut characters);
            proof {
                assert(9 * self@.chars.len() * turn + 9 * self@.chars.len() == 9 * self@
                    .chars
                    .len() * (turn + 1)) by (nonlinear_arith);
                assert(9 * self@.chars.len() * (turn + 1) <= 9 * 100 * 1000001)
                    by (nonlinear_arith)
                    requires
                        self@.chars.len() <= 100,
                        turn + 1 <= 1000001,
                ;
            }
            score = score + gained;
            turn = turn + 1;
            proof {
                assert(run_turns(m0, (turn - self.turn) as nat) == turn_step(
                    run_turns(m0, (turn - 1 - self.turn) as nat),
                )) by {
                    lemma_run_turns_snoc(m0, (turn - self.turn) as nat);
                }
            }
        }
        score
    }

    fn transition(&mut self) {
        let h = self.point.len();
        let w = self.point[0].len();
        proof {
            lemma_grid_view(&self.point);
        }
        let i = random_below(self.characters.len());
        let y = random_below(h);
        let x = random_below(w);
        let slot = &mut self.characters[i];
        *slot = Coord { y, x };
    }

    fn duplicate(&self) -> (r: Self) {
        let board = copy_grid(&self.point);
        let characters = self.clone_characters();
        let r = AutoMoveMazeState {
            characters,
            point: board,
            turn: self.turn,
            end_turn: self.end_turn,
            game_score: self.game_score,
        };
        proof {
            assert(r@ == self@);
        }
        r
    }
}

impl AutoMoveMazeState {
    /// Copies the character placement.
    fn clone_characters(&self) -> (r: Vec<Coord>)
        ensures
            r@ == self.characters@,
    {
        let mut characters: Vec<Coord> = Vec::new();
        let mut i: usize = 0;
        while i < self.characters.len()
            invariant
                i <= self.characters@.len(),
                characters@ =~= self.characters@.subrange(0, i as int),
            decreases self.characters@.len() - i,
        {
            characters.push(self.characters[i]);
            i += 1;
        }
        proof {
            assert(characters@ =~= self.characters@);
        }
        characters
    }
}

/// Unrolling `k` turns from the back: running `k` turns is one turn after
/// `k - 1` turns.
pub proof fn lemma_run_turns_snoc(m: AutoMazeModel, k: nat)
    requires
        k >= 1,
    ensures
        run_turns(m, k) == turn_step(run_turns(m, (k - 1) as nat)),
    decreases k,
{
    if k == 1 {
        assert(run_turns(turn_step(m), 0) == turn_step(m));
    } else {
        lemma_run_turns_snoc(turn_step(m), (k - 1) as nat);
    }
}

/// One full turn of the rollout, on the live board: every character in
/// order moves to its best neighbor and collects the entered cell.
fn simulate_turn(board: &mut Vec<Vec<u8>>, characters: &mut Vec<Coord>) -> (gained: u32)
    requires
        board_ok(old(board).deep_view()),
        chars_ok(old(board).deep_view(), old(characters)@),
        old(characters)@.len() <= MAX_CHARACTERS,
    ensures
        final(board).deep_view() == chars_turn(
            old(board).deep_view(),
            old(characters)@,
            old(characters)@.len() as nat,
        ).0,
        final(characters)@ == chars_turn(
            old(board).deep_view(),
            old(characters)@,
            old(characters)@.len() as nat,
        ).1,
        gained as int == chars_turn(
            old(board).deep_view(),
            old(characters)@,
            old(characters)@.len() as nat,
        ).2,
        board_ok(final(board).deep_view()),
        chars_ok(final(board).deep_view(), final(characters)@),
        final(characters)@.len() == old(characters)@.len(),
        gained <= 9 * old(characters)@.len(),
{
    let ghost b0 = board.deep_view();
    let ghost cs0 = characters@;
    let n = characters.len();
    let mut gained: u32 = 0;
    let mut i: usize = 0;
    while i < n
        invariant
            n == cs0.len(),
            cs0.len() <= MAX_CHARACTERS,
            i <= n,
            board_ok(b0),
            chars_ok(b0, cs0),
            board.deep_view() == chars_turn(b0, cs0, i as nat).0,
            characters@ == chars_turn(b0, cs0, i as nat).1,
            gained as int == chars_turn(b0, cs0, i as nat).2,
        decreases n - i,
    {
        proof {
            lemma_chars_turn_ok(b0, cs0, i as nat);
            lemma_chars_turn_ok(b0, cs0, (i + 1) as nat);
            lemma_grid_view(board);
        }
        let c = characters[i];
        proof {
            assert(c == chars_turn(b0, cs0, i as nat).1[i as int]);
            assert(c.y < board.deep_view().len() && c.x < board.deep_view()[0].len());
        }
        let t = best_neighbor(board, c);
        proof {
            lemma_moved_char_ok(board.deep_view(), c);
            assert(board.deep_view()[t.y as int] == board@[t.y as int]@);
            assert(board.deep_view()[t.y as int].len() == board.deep_view()[0].len());
            assert(board.deep_view()[t.y as int][t.x as int] <= 9);
        }
        let ghost pre = board.deep_view();
        let cell = board[t.y][t.x];
        let row = &mut board[t.y];
        row[t.x] = 0;
        let slot = &mut characters[i];
        *slot = t;
        gained = gained + cell as u32;
        i += 1;
        proof {
            lemma_grid_view(board);
            assert(board.deep_view() =~~= pre.update(
                t.y as int,
                pre[t.y as int].update(t.x as int, 0u8),
            ));
            assert(characters@ =~= chars_turn(b0, cs0, i as nat).1);
        }
    }
    proof {
        lemma_chars_turn_ok(b0, cs0, n as nat);
    }
    gained
}

} // verus!
