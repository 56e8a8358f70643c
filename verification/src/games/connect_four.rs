use vstd::prelude::*;

use crate::game::alternate::{AlternateGameState, WinningStatus};

verus! {

/// Dropping one piece into a column.
#[derive(Clone, Copy, Debug, PartialEq, Eq, Structural)]
pub struct DropPiece {
    x: usize,
}

impl DropPiece {
    /// The column this action drops into.
    pub closed spec fn spec_column(&self) -> usize {
        self.x
    }

    /// The column this action drops into, as an executable getter.
    pub fn column(&self) -> (r: usize)
        ensures
            r == self.spec_column(),
    {
        self.x
    }
}

/// Connect four on an `h` by `w` board. Row 0 is the bottom; `me` holds
/// the pieces of the player about to move, `foe` the opponent's.
/// `advance` drops a piece, swaps the two boards, and caches the outcome:
/// `Lose` when the drop completed a line of four (the player now about to
/// move has lost), `Draw` when the board filled up.
pub struct ConnectFourState {
    h: usize,
    w: usize,
    my_board: Vec<Vec<bool>>,
    enemy_board: Vec<Vec<bool>>,
    winning_status_cache: Option<WinningStatus>,
}

/// The mathematical model of a connect four state.
pub struct ConnectFourModel {
    pub h: int,
    pub w: int,
    pub me: Seq<Seq<bool>>,
    pub foe: Seq<Seq<bool>>,
    pub cache: Option<WinningStatus>,
}

impl View for ConnectFourState {
    type V = ConnectFourModel;

    closed spec fn view(&self) -> ConnectFourModel {
        ConnectFourModel {
            h: self.h as int,
            w: self.w as int,
            me: self.my_board.deep_view(),
            foe: self.enemy_board.deep_view(),
            cache: self.winning_status_cache,
        }
    }
}

/// A rectangular board of the given dimensions.
pub open spec fn grid_ok(b: Seq<Seq<bool>>, h: int, w: int) -> bool {
    &&& b.len() == h
    &&& forall|y: int| 0 <= y < h ==> (#[trigger] b[y]).len() == w
}

/// Whether column `c` can still take a piece: its top cell is free on
/// both boards.
pub open spec fn column_open(m: ConnectFourModel, c: int) -> bool {
    !m.me[m.h - 1][c] && !m.foe[m.h - 1][c]
}

/// Whether any column is still open.
pub open spec fn has_open_column(m: ConnectFourModel) -> bool {
    exists|c: int| 0 <= c < m.w && #[trigger] column_open(m, c)
}

/// The legal drops among the first `x` columns, in column order.
pub closed spec fn legal_upto(m: ConnectFourModel, x: nat) -> Seq<DropPiece>
    decreases x,
{
    if x == 0 {
        Seq::empty()
    } else {
        legal_upto(m, (x - 1) as nat) + (if column_open(m, x - 1) {
            seq![DropPiece { x: (x - 1) as usize }]
        } else {
            Seq::empty()
        })
    }
}

/// Every legal drop is an open column below `x`.
pub proof fn lemma_legal_upto_open(m: ConnectFourModel, x: nat, a: DropPiece)
    requires
        x <= usize::MAX,
        legal_upto(m, x).contains(a),
    ensures
        (a.spec_column() as int) < x,
        column_open(m, a.spec_column() as int),
    decreases x,
{
    if x > 0 {
        let prefix = legal_upto(m, (x - 1) as nat);
        let whole = legal_upto(m, x);
        let i = choose|i: int| 0 <= i < whole.len() && whole[i] == a;
        if i < prefix.len() {
            assert(prefix[i] == a);
            assert(prefix.contains(a));
            lemma_legal_upto_open(m, (x - 1) as nat, a);
        } else {
            if column_open(m, x - 1) {
                let suffix = seq![DropPiece { x: (x - 1) as usize }];
                assert(whole == prefix + suffix);
                assert(whole[i] == suffix[i - prefix.len()]);
                assert(a == DropPiece { x: (x - 1) as usize });
            } else {
                assert(whole == prefix + Seq::<DropPiece>::empty());
                assert(whole.len() == prefix.len());
                assert(false);
            }
        }
    }
}

/// Every open column below `x` appears among the legal drops.
proof fn lemma_open_in_legal(m: ConnectFourModel, x: nat, c: int)
    requires
        x <= usize::MAX,
        0 <= c < x,
        column_open(m, c),
    ensures
        legal_upto(m, x).contains(DropPiece { x: c as usize }),
    decreases x,
{
    if c < x - 1 {
        lemma_open_in_legal(m, (x - 1) as nat, c);
        assert(legal_upto(m, x)[legal_upto(m, (x - 1) as nat).index_of(
            DropPiece { x: c as usize },
        )] == DropPiece { x: c as usize });
    } else {
        assert(legal_upto(m, x).last() == DropPiece { x: c as usize });
    }
}

/// The row the dropped piece lands in: the lowest free cell of the
/// column, searching upward from `y`.
pub open spec fn drop_row(me: Seq<Seq<bool>>, foe: Seq<Seq<bool>>, h: int, x: int, y: int) -> int
    decreases
            (if y <= h {
                h - y
            } else {
                0
            }),
{
    if y >= h {
        h
    } else if !me[y][x] && !foe[y][x] {
        y
    } else {
        drop_row(me, foe, h, x, y + 1)
    }
}

/// If some cell of the column at or above `y` is free, the search finds a
/// free cell.
pub proof fn lemma_drop_row_found(
    me: Seq<Seq<bool>>,
    foe: Seq<Seq<bool>>,
    h: int,
    x: int,
    y: int,
    free: int,
)
    requires
        y <= free < h,
        !me[free][x] && !foe[free][x],
    ensures
        y <= drop_row(me, foe, h, x, y) <= free,
        !me[drop_row(me, foe, h, x, y)][x] && !foe[drop_row(me, foe, h, x, y)][x],
        forall|j: int| y <= j < drop_row(me, foe, h, x, y) ==> (#[trigger] me[j][x]) || foe[j][x],
    decreases h - y,
{
    if !(!me[y][x] && !foe[y][x]) {
        lemma_drop_row_found(me, foe, h, x, y + 1, free);
    }
}

/// Length of the run of own pieces just left of `x` in a row: cells
/// `x - 1`, `x - 2`, … while they are set.
pub open spec fn run_left(row: Seq<bool>, x: int) -> int
    decreases
            (if x >= 0 {
                x
            } else {
                0
            }),
{
    if x <= 0 {
        0
    } else if row[x - 1] {
        1 + run_left(row, x - 1)
    } else {
        0
    }
}

/// Length of the run of own pieces at and right of `x` in a row of width
/// `w`.
pub open spec fn run_right(row: Seq<bool>, x: int, w: int) -> int
    decreases
            (if x <= w {
                w - x
            } else {
                0
            }),
{
    if x >= w || x < 0 {
        0
    } else if row[x] {
        1 + run_right(row, x + 1, w)
    } else {
        0
    }
}

/// Length of the run of own pieces below `(y, x)`: cells `y - 1`,
/// `y - 2`, … while they are set.
pub open spec fn run_down(b: Seq<Seq<bool>>, y: int, x: int) -> int
    decreases
            (if y >= 0 {
                y
            } else {
                0
            }),
{
    if y <= 0 {
        0
    } else if b[y - 1][x] {
        1 + run_down(b, y - 1, x)
    } else {
        0
    }
}

/// Length of the run of own pieces from `(y, x)` moving up-left, one row
/// up and one column left per step.
pub open spec fn run_up_left(b: Seq<Seq<bool>>, h: int, y: int, x: int) -> int
    decreases
            (if x >= -1 {
                x + 1
            } else {
                0
            }),
{
    if y < 0 || y >= h || x < 0 {
        0
    } else if b[y][x] {
        1 + run_up_left(b, h, y + 1, x - 1)
    } else {
        0
    }
}

/// Length of the run of own pieces from `(y, x)` moving down-right in a
/// board of width `w`.
pub open spec fn run_down_right(b: Seq<Seq<bool>>, w: int, y: int, x: int) -> int
    decreases
            (if y >= -1 {
                y + 1
            } else {
                0
            }),
{
    if y < 0 || x < 0 || x >= w {
        0
    } else if b[y][x] {
        1 + run_down_right(b, w, y - 1, x + 1)
    } else {
        0
    }
}

/// Length of the run of own pieces from `(y, x)` moving up-right.
pub open spec fn run_up_right(b: Seq<Seq<bool>>, h: int, w: int, y: int, x: int) -> int
    decreases
            (if y <= h && y >= 0 {
                h - y
            } else {
                0
            }),
{
    if y < 0 || y >= h || x < 0 || x >= w {
        0
    } else if b[y][x] {
        1 + run_up_right(b, h, w, y + 1, x + 1)
    } else {
        0
    }
}

/// Length of the run of own pieces from `(y, x)` moving down-left.
pub open spec fn run_down_left(b: Seq<Seq<bool>>, y: int, x: int) -> int
    decreases
            (if y >= -1 {
                y + 1
            } else {
                0
            }),
{
    if y < 0 || x < 0 {
        0
    } else if b[y][x] {
        1 + run_down_left(b, y - 1, x - 1)
    } else {
        0
    }
}

/// Whether the piece just placed at `(py, x)` on `b` completed a line of
/// four. The horizontal count includes the piece through its rightward
/// run, the vertical count adds one for the piece itself, and the
/// up-right diagonal includes the piece. The remaining diagonal pair is
/// deliberately offset: its up-left arm starts level with the piece at
/// `(py, x - 1)` and its down-right arm directly below it at
/// `(py - 1, x)`, so together they scan the anti-diagonal *beside* the
/// placed piece and never count the piece itself. That offset probe is
/// part of this game's rules as played here, not a repair candidate.
pub open spec fn completed_four(b: Seq<Seq<bool>>, h: int, w: int, py: int, x: int) -> bool {
    let yoko = run_left(b[py], x) + run_right(b[py], x, w);
    let naname = run_up_left(b, h, py, x - 1) + run_down_right(b, w, py - 1, x);
    let menana = run_up_right(b, h, w, py, x) + run_down_left(b, py - 1, x - 1);
    let tate = 1 + run_down(b, py, x);
    yoko >= 4 || naname >= 4 || menana >= 4 || tate >= 4
}

/// Number of pieces among the first `k` cells of a row.
pub open spec fn pieces_in_row(row: Seq<bool>, k: nat) -> nat
    decreases k,
{
    if k == 0 {
        0
    } else {
        pieces_in_row(row, (k - 1) as nat) + (if row[k - 1] {
            1nat
        } else {
            0nat
        })
    }
}

/// Number of pieces among the first `r` rows of a board of width `w`.
pub open spec fn pieces_on_board(b: Seq<Seq<bool>>, r: nat, w: nat) -> nat
    decreases r,
{
    if r == 0 {
        0
    } else {
        pieces_on_board(b, (r - 1) as nat, w) + pieces_in_row(b[r - 1], w)
    }
}

/// Number of free cells among the first `k` of a row pair.
pub open spec fn free_in_row(a: Seq<bool>, b: Seq<bool>, k: nat) -> nat
    decreases k,
{
    if k == 0 {
        0
    } else {
        free_in_row(a, b, (k - 1) as nat) + (if !a[k - 1] && !b[k - 1] {
            1nat
        } else {
            0nat
        })
    }
}

/// Number of free cells among the first `r` rows.
pub open spec fn free_cells(ma: Seq<Seq<bool>>, mb: Seq<Seq<bool>>, r: nat, w: nat) -> nat
    decreases r,
{
    if r == 0 {
        0
    } else {
        free_cells(ma, mb, (r - 1) as nat, w) + free_in_row(ma[r - 1], mb[r - 1], w)
    }
}

pub proof fn lemma_pieces_in_row_update(a: Seq<bool>, k: nat, x: int)
    requires
        0 <= x < a.len(),
        k <= a.len(),
        !a[x],
    ensures
        pieces_in_row(a.update(x, true), k) == pieces_in_row(a, k) + (if x < k {
            1int
        } else {
            0int
        }),
    decreases k,
{
    if k > 0 {
        lemma_pieces_in_row_update(a, (k - 1) as nat, x);
    }
}

pub proof fn lemma_pieces_update(b: Seq<Seq<bool>>, r: nat, w: nat, py: int, x: int)
    requires
        0 <= py < b.len(),
        r <= b.len(),
        0 <= x < w,
        x < b[py].len(),
        w <= b[py].len(),
        !b[py][x],
    ensures
        pieces_on_board(b.update(py, b[py].update(x, true)), r, w) == pieces_on_board(b, r, w) + (
        if py < r {
            1int
        } else {
            0int
        }),
    decreases r,
{
    if r > 0 {
        let bu = b.update(py, b[py].update(x, true));
        lemma_pieces_update(b, (r - 1) as nat, w, py, x);
        if py == r - 1 {
            lemma_pieces_in_row_update(b[py], w, x);
            assert(bu[r - 1] == b[py].update(x, true));
        } else {
            assert(bu[r - 1] == b[r - 1]);
        }
        assert(pieces_on_board(bu, r, w) == pieces_on_board(bu, (r - 1) as nat, w)
            + pieces_in_row(bu[r - 1], w));
    }
}

/// A board with no set cell holds no pieces.
pub proof fn lemma_pieces_in_row_zero(a: Seq<bool>, k: nat)
    requires
        forall|x: int| 0 <= x < k ==> !(#[trigger] a[x]),
    ensures
        pieces_in_row(a, k) == 0,
    decreases k,
{
    if k > 0 {
        lemma_pieces_in_row_zero(a, (k - 1) as nat);
    }
}

pub proof fn lemma_pieces_zero(b: Seq<Seq<bool>>, r: nat, w: nat)
    requires
        forall|y: int, x: int| 0 <= y < r && 0 <= x < w ==> !(#[trigger] b[y][x]),
    ensures
        pieces_on_board(b, r, w) == 0,
    decreases r,
{
    if r > 0 {
        lemma_pieces_zero(b, (r - 1) as nat, w);
        lemma_pieces_in_row_zero(b[r - 1], w);
    }
}

pub proof fn lemma_free_in_row_sym(a: Seq<bool>, b: Seq<bool>, k: nat)
    ensures
        free_in_row(a, b, k) == free_in_row(b, a, k),
    decreases k,
{
    if k > 0 {
        lemma_free_in_row_sym(a, b, (k - 1) as nat);
    }
}

pub proof fn lemma_free_cells_sym(ma: Seq<Seq<bool>>, mb: Seq<Seq<bool>>, r: nat, w: nat)
    ensures
        free_cells(ma, mb, r, w) == free_cells(mb, ma, r, w),
    decreases r,
{
    if r > 0 {
        lemma_free_cells_sym(ma, mb, (r - 1) as nat, w);
        lemma_free_in_row_sym(ma[r - 1], mb[r - 1], w);
    }
}

pub proof fn lemma_free_in_row_update(a: Seq<bool>, b: Seq<bool>, k: nat, x: int)
    requires
        0 <= x < a.len(),
        k <= a.len(),
        !a[x] && !b[x],
    ensures
        free_in_row(a.update(x, true), b, k) == free_in_row(a, b, k) - (if x < k {
            1int
        } else {
            0int
        }),
    decreases k,
{
    if k > 0 {
        lemma_free_in_row_update(a, b, (k - 1) as nat, x);
    }
}

pub proof fn lemma_free_cells_update(
    ma: Seq<Seq<bool>>,
    mb: Seq<Seq<bool>>,
    r: nat,
    w: nat,
    py: int,
    x: int,
)
    requires
        0 <= py < ma.len(),
        r <= ma.len(),
        0 <= x < w,
        x < ma[py].len(),
        w <= ma[py].len(),
        !ma[py][x] && !mb[py][x],
    ensures
        free_cells(ma.update(py, ma[py].update(x, true)), mb, r, w) == free_cells(ma, mb, r, w) - (
        if py < r {
            1int
        } else {
            0int
        }),
    decreases r,
{
    if r > 0 {
        let mau = ma.update(py, ma[py].update(x, true));
        lemma_free_cells_update(ma, mb, (r - 1) as nat, w, py, x);
        if py == r - 1 {
            lemma_free_in_row_update(ma[py], mb[py], w, x);
            assert(mau[r - 1] == ma[py].update(x, true));
        } else {
            assert(mau[r - 1] == ma[r - 1]);
        }
        assert(free_cells(mau, mb, r, w) == free_cells(mau, mb, (r - 1) as nat, w) + free_in_row(
            mau[r - 1],
            mb[r - 1],
            w,
        ));
    }
}

/// The deep view of a piece board is the sequence of its rows' views.
proof fn lemma_bool_grid_view(v: &Vec<Vec<bool>>)
    ensures
        v.deep_view().len() == v@.len(),
        forall|i: int| 0 <= i < v@.len() ==> #[trigger] v.deep_view()[i] == v@[i]@,
{
    assert forall|i: int| 0 <= i < v@.len() implies #[trigger] v.deep_view()[i] == v@[i]@ by {
        assert(v.deep_view()[i] =~= v@[i]@);
    }
}

/// Builds an all-false board of `h` rows and `w` columns.
fn empty_board(h: usize, w: usize) -> (r: Vec<Vec<bool>>)
    ensures
        grid_ok(r.deep_view(), h as int, w as int),
        forall|y: int, x: int|
            0 <= y < h && 0 <= x < w ==> !(#[trigger] r.deep_view()[y][x]),
{
    let mut board: Vec<Vec<bool>> = Vec::new();
    let mut y: usize = 0;
    while y < h
        invariant
            y <= h,
            board@.len() == y,
            forall|q: int|
                0 <= q < y ==> (#[trigger] board@[q])@.len() == w && forall|x: int|
                    0 <= x < w ==> !board@[q]@[x],
        decreases h - y,
    {
        let mut row: Vec<bool> = Vec::new();
        let mut x: usize = 0;
        while x < w
            invariant
                x <= w,
                row@.len() == x,
                forall|q: int| 0 <= q < x ==> !(#[trigger] row@[q]),
            decreases w - x,
        {
            row.push(false);
            x += 1;
        }
        board.push(row);
        y += 1;
    }
    proof {
        lemma_bool_grid_view(&board);
    }
    board
}

/// Copies a piece board.
fn copy_bool_grid(v: &Vec<Vec<bool>>) -> (r: Vec<Vec<bool>>)
    ensures
        r.deep_view() == v.deep_view(),
{
    proof {
        lemma_bool_grid_view(v);
    }
    let mut board: Vec<Vec<bool>> = Vec::new();
    let mut y: usize = 0;
    while y < v.len()
        invariant
            y <= v@.len(),
            board.deep_view() =~~= v.deep_view().subrange(0, y as int),
        decreases v@.len() - y,
    {
        let src = &v[y];
        let mut row: Vec<bool> = Vec::new();
        let mut x: usize = 0;
        while x < src.len()
            invariant
                x <= src@.len(),
                row@ =~= src@.subrange(0, x as int),
            decreases src@.len() - x,
        {
            row.push(src[x]);
            x += 1;
        }
        proof {
            assert(row@ =~= src@);
            assert(row.deep_view() =~= src@);
            assert(v.deep_view()[y as int] == v@[y as int]@);
        }
        board.push(row);
        proof {
            assert(board.deep_view() =~~= v.deep_view().subrange(0, y + 1));
        }
        y += 1;
    }
    proof {
        assert(board.deep_view() =~~= v.deep_view());
    }
    board
}

/// Whether any column of the pair of boards still has its top cell free.
fn any_open_column(a: &Vec<Vec<bool>>, b: &Vec<Vec<bool>>, h: usize, w: usize) -> (r: bool)
    requires
        grid_ok(a.deep_view(), h as int, w as int),
        grid_ok(b.deep_view(), h as int, w as int),
        h >= 1,
    ensures
        r == exists|c: int|
            0 <= c < w && !(#[trigger] a.deep_view()[h - 1][c]) && !b.deep_view()[h - 1][c],
{
    proof {
        lemma_bool_grid_view(a);
        lemma_bool_grid_view(b);
    }
    let mut c: usize = 0;
    while c < w
        invariant
            c <= w,
            h >= 1,
            grid_ok(a.deep_view(), h as int, w as int),
            grid_ok(b.deep_view(), h as int, w as int),
            a.deep_view()[h - 1] == a@[h - 1]@,
            b.deep_view()[h - 1] == b@[h - 1]@,
            a@.len() == h,
            b@.len() == h,
            forall|q: int|
                0 <= q < c ==> (#[trigger] a.deep_view()[h - 1][q]) || b.deep_view()[h - 1][q],
        decreases w - c,
    {
        let top_a = &a[h - 1];
        let top_b = &b[h - 1];
        if !top_a[c] && !top_b[c] {
            return true;
        }
        c += 1;
    }
    false
}

impl ConnectFourState {
    /// An empty board for the first player to move; at least one row and
    /// one column, so that a piece can always be dropped at the start.
    pub fn new(h: usize, w: usize) -> (r: Self)
        requires
            1 <= h <= 1000,
            1 <= w <= 1000,
        ensures
            <Self as AlternateGameState>::wf(r@),
            r@.h == h as int,
            r@.w == w as int,
            r@.cache is None,
            forall|y: int, x: int| 0 <= y < h && 0 <= x < w ==> !(#[trigger] r@.me[y][x]),
            forall|y: int, x: int| 0 <= y < h && 0 <= x < w ==> !(#[trigger] r@.foe[y][x]),
    {
        let my_board = empty_board(h, w);
        let enemy_board = empty_board(h, w);
        let r = ConnectFourState { h, w, my_board, enemy_board, winning_status_cache: None };
        proof {
            assert((h as int) * (w as int) <= 1000000) by (nonlinear_arith)
                requires
                    1 <= h <= 1000,
                    1 <= w <= 1000,
            ;
            assert(!r@.me[h - 1][0] && !r@.foe[h - 1][0]);
            assert(column_open(r@, 0));
            assert(has_open_column(r@));
            lemma_pieces_zero(r@.me, h as nat, w as nat);
            lemma_pieces_zero(r@.foe, h as nat, w as nat);
        }
        r
    }

    /// Whether the first player is about to move: the two players have
    /// placed equally many pieces exactly when it is the first player's
    /// turn again. Exposed for drivers that render the board.
    pub fn first(&self) -> (r: bool)
        requires
            <Self as AlternateGameState>::wf(self@),
        ensures
            r == (pieces_on_board(self@.me, self@.h as nat, self@.w as nat) == pieces_on_board(
                self@.foe,
                self@.h as nat,
                self@.w as nat,
            )),
    {
        let mut my: usize = 0;
        let mut enemy: usize = 0;
        let mut y: usize = 0;
        proof {
            lemma_bool_grid_view(&self.my_board);
            lemma_bool_grid_view(&self.enemy_board);
        }
        while y < self.h
            invariant
                <Self as AlternateGameState>::wf(self@),
                y <= self.h,
                my <= y * self@.w,
                enemy <= y * self@.w,
                my == pieces_on_board(self@.me, y as nat, self@.w as nat),
                enemy == pieces_on_board(self@.foe, y as nat, self@.w as nat),
                self@.me.len() == self.h,
                self@.foe.len() == self.h,
            decreases self.h - y,
        {
            proof {
                assert(self@.me[y as int] == self.my_board@[y as int]@);
                assert(self@.foe[y as int] == self.enemy_board@[y as int]@);
                assert(self@.me[y as int].len() == self@.w);
                assert(self@.foe[y as int].len() == self@.w);
                assert((y + 1) * self@.w == y * self@.w + self@.w) by (nonlinear_arith);
            }
            let my_row = &self.my_board[y];
            let enemy_row = &self.enemy_board[y];
            let mut x: usize = 0;
            let w = my_row.len();
            proof {
                assert((y as int) * (w as int) + (w as int) <= 100000000) by (nonlinear_arith)
                    requires
                        0 <= y as int,
                        (y as int) < self@.h,
                        w as int == self@.w,
                        self@.h * self@.w <= 100000000,
                        self@.w >= 0,
                ;
            }
            while x < w
                invariant
                    x <= w,
                    w == my_row@.len(),
                    w == enemy_row@.len(),
                    my <= y as int * w + x,
                    enemy <= y as int * w + x,
                    my == pieces_on_board(self@.me, y as nat, w as nat) + pieces_in_row(
                        my_row@,
                        x as nat,
                    ),
                    enemy == pieces_on_board(self@.foe, y as nat, w as nat) + pieces_in_row(
                        enemy_row@,
                        x as nat,
                    ),
                    y < self@.me.len(),
                    w as int == self@.w,
                    my_row@ == self@.me[y as int],
                    enemy_row@ == self@.foe[y as int],
                    (y as int) * (w as int) + (w as int) <= 100000000,
                decreases w - x,
            {
                if my_row[x] {
                    my = my + 1;
                }
                if enemy_row[x] {
                    enemy = enemy + 1;
                }
                x += 1;
            }
            y += 1;
        }
        my == enemy
    }
}

impl AlternateGameState for ConnectFourState {
    type Action = DropPiece;

    open spec fn wf(m: ConnectFourModel) -> bool {
        &&& m.h >= 1
        &&& m.w >= 1
        &&& m.h * m.w <= 100000000
        &&& grid_ok(m.me, m.h, m.w)
        &&& grid_ok(m.foe, m.h, m.w)
        &&& (m.cache is None ==> has_open_column(m))
        // No cell holds pieces of both players.
        &&& forall|y: int, x: int|
            0 <= y < m.h && 0 <= x < m.w ==> !((#[trigger] m.me[y][x]) && m.foe[y][x])
        // Pieces are packed from the bottom of each column.
        &&& forall|y: int, x: int|
            1 <= y < m.h && 0 <= x < m.w && ((#[trigger] m.me[y][x]) || m.foe[y][x]) ==> m.me[y
                - 1][x] || m.foe[y - 1][x]
        // The waiting player, who just moved, holds the same number of
        // pieces as the mover or exactly one more.
        &&& {
            let pm = pieces_on_board(m.me, m.h as nat, m.w as nat);
            let pf = pieces_on_board(m.foe, m.h as nat, m.w as nat);
            pf == pm || pf == pm + 1
        }
    }

    open spec fn is_done(m: ConnectFourModel) -> bool {
        m.cache is Some
    }

    open spec fn legal(m: ConnectFourModel) -> Seq<DropPiece> {
        legal_upto(m, m.w as nat)
    }

    /// Connect four carries no positional heuristic: the depth-cutoff
    /// score is always zero, so the minimax family treats every
    /// non-terminal horizon state alike.
    open spec fn score_of(m: ConnectFourModel) -> i16 {
        0
    }

    open spec fn status_of(m: ConnectFourModel) -> Option<WinningStatus> {
        m.cache
    }

    /// No bounded self-estimate either: the rate is the neutral zero.
    open spec fn rate_of(m: ConnectFourModel) -> u64 {
        0
    }

    open spec fn step(m: ConnectFourModel, a: DropPiece) -> ConnectFourModel {
        let x = a.spec_column() as int;
        let py = drop_row(m.me, m.foe, m.h, x, 0);
        let me2 = m.me.update(py, m.me[py].update(x, true));
        let won = completed_four(me2, m.h, m.w, py, x);
        let swapped = ConnectFourModel { h: m.h, w: m.w, me: m.foe, foe: me2, cache: m.cache };
        let cache2: Option<WinningStatus> = if won {
            Some(WinningStatus::Lose)
        } else if !has_open_column(swapped) {
            Some(WinningStatus::Draw)
        } else {
            None
        };
        ConnectFourModel { h: m.h, w: m.w, me: m.foe, foe: me2, cache: cache2 }
    }

    open spec fn steps_to_end(m: ConnectFourModel) -> nat {
        free_cells(m.me, m.foe, m.h as nat, m.w as nat)
    }

    proof fn lemma_step_wf(m: ConnectFourModel, a: DropPiece) {
        assert(m.h <= 100000000 && m.w <= 100000000) by (nonlinear_arith)
            requires
                m.h >= 1,
                m.w >= 1,
                m.h * m.w <= 100000000,
        ;
        lemma_legal_upto_open(m, m.w as nat, a);
        let x = a.spec_column() as int;
        lemma_drop_row_found(m.me, m.foe, m.h, x, 0, m.h - 1);
        let py = drop_row(m.me, m.foe, m.h, x, 0);
        let me2 = m.me.update(py, m.me[py].update(x, true));
        let m2 = Self::step(m, a);
        assert forall|y: int| 0 <= y < m.h implies (#[trigger] me2[y]).len() == m.w by {
            assert(m.me[y].len() == m.w);
        }
        assert(m.me[py].len() == m.w);
        assert(x < m.me[py].len());
        lemma_free_cells_update(m.me, m.foe, m.h as nat, m.w as nat, py, x);
        lemma_free_cells_sym(m.foe, me2, m.h as nat, m.w as nat);
        assert(free_in_row(m.me[py], m.foe[py], m.w as nat) == free_in_row(
            m.foe[py],
            m.me[py],
            m.w as nat,
        )) by {
            lemma_free_in_row_sym(m.me[py], m.foe[py], m.w as nat);
        }
        assert(free_cells(me2, m.foe, m.h as nat, m.w as nat) < free_cells(
            m.me,
            m.foe,
            m.h as nat,
            m.w as nat,
        ));
        assert(free_cells(m.foe, me2, m.h as nat, m.w as nat) == free_cells(
            me2,
            m.foe,
            m.h as nat,
            m.w as nat,
        ));

        // The placed cell was free on both boards, so the boards of the
        // successor stay disjoint.
        assert forall|y: int, z: int|
            0 <= y < m2.h && 0 <= z < m2.w implies !((#[trigger] m2.me[y][z]) && m2.foe[y][z]) by {
            if y == py && z == x {
                assert(!m.foe[py][x]);
            } else {
                assert(me2[y][z] == m.me[y][z]);
                assert(!(m.me[y][z] && m.foe[y][z]));
            }
        }
        // The piece landed on the lowest free cell of its column, so the
        // successor's columns stay packed from the bottom.
        assert forall|y: int, z: int|
            1 <= y < m2.h && 0 <= z < m2.w && ((#[trigger] m2.me[y][z]) || m2.foe[y][z]) implies m2
                .me[y - 1][z] || m2.foe[y - 1][z] by {
            if y == py && z == x {
                assert(m.me[py - 1][x] || m.foe[py - 1][x]);
            } else {
                assert(me2[y][z] == m.me[y][z]);
                if m.me[y][z] || m.foe[y][z] {
                    assert(m.me[y - 1][z] || m.foe[y - 1][z]);
                    assert(me2[y - 1][z] == m.me[y - 1][z] || (y - 1 == py && z == x));
                }
            }
        }
        // The drop adds exactly one piece to the board of the player who
        // moved, so the piece counts stay balanced.
        assert(!m.me[py][x]);
        lemma_pieces_update(m.me, m.h as nat, m.w as nat, py, x);
        assert(pieces_on_board(me2, m.h as nat, m.w as nat) == pieces_on_board(
            m.me,
            m.h as nat,
            m.w as nat,
        ) + 1);
    }

    proof fn lemma_nonterminal_can_move(m: ConnectFourModel) {
        assert(m.h <= 100000000 && m.w <= 100000000) by (nonlinear_arith)
            requires
                m.h >= 1,
                m.w >= 1,
                m.h * m.w <= 100000000,
        ;
        let c = choose|c: int| 0 <= c < m.w && #[trigger] column_open(m, c);
        lemma_open_in_legal(m, m.w as nat, c);
    }

    proof fn lemma_score_range(m: ConnectFourModel) {
    }

    proof fn lemma_status_iff_done(m: ConnectFourModel) {
    }

    proof fn lemma_rate_bounded(m: ConnectFourModel) {
    }

    fn legal_actions(&self) -> (r: Vec<DropPiece>) {
        proof {
            lemma_bool_grid_view(&self.my_board);
            lemma_bool_grid_view(&self.enemy_board);
            assert(self@.me[self.h - 1] == self.my_board@[self.h as int - 1]@);
            assert(self@.foe[self.h - 1] == self.enemy_board@[self.h as int - 1]@);
        }
        let mut actions: Vec<DropPiece> = Vec::new();
        let top_my = &self.my_board[self.h - 1];
        let top_enemy = &self.enemy_board[self.h - 1];
        let mut c: usize = 0;
        while c < self.w
            invariant
                c <= self.w,
                <Self as AlternateGameState>::wf(self@),
                top_my@ == self@.me[self@.h - 1],
                top_enemy@ == self@.foe[self@.h - 1],
                actions@ == legal_upto(self@, c as nat),
            decreases self.w - c,
        {
            if !top_my[c] && !top_enemy[c] {
                actions.push(DropPiece { x: c });
            }
            proof {
                assert(actions@ =~= legal_upto(self@, (c + 1) as nat));
            }
            c += 1;
        }
        actions
    }

    fn advance(&mut self, action: DropPiece) {
        let ghost pre = self@;
        proof {
            lemma_bool_grid_view(&self.my_board);
            lemma_bool_grid_view(&self.enemy_board);
            assert(pre.h <= 100000000 && pre.w <= 100000000) by (nonlinear_arith)
                requires
                    pre.h >= 1,
                    pre.w >= 1,
                    pre.h * pre.w <= 100000000,
            ;
            lemma_legal_upto_open(pre, pre.w as nat, action);
            lemma_drop_row_found(pre.me, pre.foe, pre.h, action.spec_column() as int, 0, pre.h - 1);
        }
        let x = action.x;
        let h = self.h;
        let w = self.w;

        // The lowest free cell of the column.
        let mut py: usize = 0;
        while py < h
            invariant
                py <= h,
                pre == self@,
                <Self as AlternateGameState>::wf(pre),
                (x as int) < pre.w,
                self@.me.len() == h,
                self@.foe.len() == h,
                h == pre.h,
                forall|i: int| 0 <= i < h ==> #[trigger] self@.me[i] == self.my_board@[i]@,
                forall|i: int| 0 <= i < h ==> #[trigger] self@.foe[i] == self.enemy_board@[i]@,
                drop_row(pre.me, pre.foe, pre.h, x as int, 0) == drop_row(
                    pre.me,
                    pre.foe,
                    pre.h,
                    x as int,
                    py as int,
                ),
            ensures
                py < h ==> !pre.me[py as int][x as int] && !pre.foe[py as int][x as int],
            decreases h - py,
        {
            proof {
                assert(pre.me[py as int].len() == pre.w);
                assert(pre.foe[py as int].len() == pre.w);
            }
            let my_row = &self.my_board[py];
            let enemy_row = &self.enemy_board[py];
            if !my_row[x] && !enemy_row[x] {
                break ;
            }
            py += 1;
        }
        proof {
            assert(py as int == drop_row(pre.me, pre.foe, pre.h, x as int, 0));
            assert(py < h);
        }

        // Place the piece.
        let ghost me_pre = self.my_board.deep_view();
        let row = &mut self.my_board[py];
        row[x] = true;
        proof {
            lemma_bool_grid_view(&self.my_board);
            assert(self.my_board.deep_view() =~~= me_pre.update(
                py as int,
                me_pre[py as int].update(x as int, true),
            ));
        }
        let ghost me2 = self.my_board.deep_view();

        // Count the lines through or beside the new piece.
        proof {
            assert forall|y: int| 0 <= y < h implies (#[trigger] me2[y]).len() == pre.w by {
                assert(me_pre[y].len() == pre.w);
            }
        }
        proof {
            assert((pre.h) <= 100000000 && (pre.w) <= 100000000) by (nonlinear_arith)
                requires
                    pre.h >= 1,
                    pre.w >= 1,
                    pre.h * pre.w <= 100000000,
            ;
        }
        let placed_row = &self.my_board[py];
        let yoko = count_left(placed_row, x) + count_right(placed_row, x);
        let naname = count_up_left(&self.my_board, h, w, py, x) + count_down_right(
            &self.my_board,
            h,
            w,
            py,
            x,
        );
        let menana = count_up_right(&self.my_board, h, w, py, x) + count_down_left(
            &self.my_board,
            h,
            w,
            py,
            x,
        );
        let tate = 1 + count_down(&self.my_board, h, w, py, x);

        // Swap perspectives and cache the outcome.
        std::mem::swap(&mut self.my_board, &mut self.enemy_board);
        let ghost swapped = ConnectFourModel {
            h: pre.h,
            w: pre.w,
            me: pre.foe,
            foe: me2,
            cache: pre.cache,
        };
        if yoko >= 4 || naname >= 4 || menana >= 4 || tate >= 4 {
            self.winning_status_cache = Some(WinningStatus::Lose);
        } else {
            let open_any = any_open_column(&self.my_board, &self.enemy_board, h, w);
            proof {
                if open_any {
                    let c = choose|c: int|
                        0 <= c < w && !(#[trigger] self.my_board.deep_view()[h - 1][c])
                            && !self.enemy_board.deep_view()[h - 1][c];
                    assert(column_open(swapped, c));
                    assert(has_open_column(swapped));
                }
                if has_open_column(swapped) {
                    let c = choose|c: int| 0 <= c < swapped.w && #[trigger] column_open(swapped, c);
                    assert(!self.my_board.deep_view()[h - 1][c] && !self.enemy_board.deep_view()[h
                        - 1][c]);
                    assert(open_any);
                }
                assert(open_any == has_open_column(swapped));
            }
            if !open_any {
                self.winning_status_cache = Some(WinningStatus::Draw);
            } else {
                self.winning_status_cache = None;
            }
        }
        proof {
            let ghost target = <Self as AlternateGameState>::step(pre, action);
            assert(self@.me == target.me);
            assert(self@.foe == target.foe);
            assert(self@.cache == target.cache);
            assert(self@ == target);
        }
    }

    fn done(&self) -> (r: bool) {
        self.winning_status_cache.is_some()
    }

    fn score(&self) -> (r: i16) {
        0
    }

    fn winning_status(&self) -> (r: Option<WinningStatus>) {
        self.winning_status_cache
    }

    fn score_rate(&self) -> (r: u64) {
        0
    }

    fn duplicate(&self) -> (r: Self) {
        let r = ConnectFourState {
            h: self.h,
            w: self.w,
            my_board: copy_bool_grid(&self.my_board),
            enemy_board: copy_bool_grid(&self.enemy_board),
            winning_status_cache: self.winning_status_cache,
        };
        proof {
            assert(r@ == self@);
        }
        r
    }
}

/// Counts the run of set cells just left of `x` in a placed row.
fn count_left(row: &Vec<bool>, x: usize) -> (r: usize)
    requires
        x <= row@.len(),
    ensures
        r as int == run_left(row@, x as int),
        r <= x,
{
    let mut cnt: usize = 0;
    let mut cx: usize = x;
    while cx > 0
        invariant
            cx <= x <= row@.len(),
            cnt == x - cx,
            run_left(row@, x as int) == cnt + run_left(row@, cx as int),
        decreases cx,
    {
        if !row[cx - 1] {
            return cnt;
        }
        cx -= 1;
        cnt += 1;
    }
    cnt
}

/// Counts the run of set cells at and right of `x` in a placed row.
fn count_right(row: &Vec<bool>, x: usize) -> (r: usize)
    requires
        x <= row@.len(),
    ensures
        r as int == run_right(row@, x as int, row@.len() as int),
        r <= row@.len() - x,
{
    let w = row.len();
    let mut cnt: usize = 0;
    let mut cx: usize = x;
    while cx < w
        invariant
            x <= cx <= w,
            w == row@.len(),
            cnt == cx - x,
            run_right(row@, x as int, w as int) == cnt + run_right(row@, cx as int, w as int),
        decreases w - cx,
    {
        if !row[cx] {
            return cnt;
        }
        cx += 1;
        cnt += 1;
    }
    cnt
}

/// Counts the run of set cells below the placed piece.
fn count_down(b: &Vec<Vec<bool>>, h: usize, w: usize, py: usize, x: usize) -> (r: usize)
    requires
        grid_ok(b.deep_view(), h as int, w as int),
        py < h,
        x < w,
    ensures
        r as int == run_down(b.deep_view(), py as int, x as int),
        r <= py,
{
    proof {
        lemma_bool_grid_view(b);
    }
    let ghost bd = b.deep_view();
    let mut cnt: usize = 0;
    let mut cy: usize = py;
    while cy > 0
        invariant
            cy <= py < h,
            bd == b.deep_view(),
            grid_ok(bd, h as int, w as int),
            x < w,
            b@.len() == h,
            cnt == py - cy,
            run_down(bd, py as int, x as int) == cnt + run_down(bd, cy as int, x as int),
        decreases cy,
    {
        proof {
            assert(bd[cy - 1] == b@[cy - 1]@);
            assert(bd[cy - 1].len() == w);
        }
        let row = &b[cy - 1];
        if !row[x] {
            return cnt;
        }
        cy -= 1;
        cnt += 1;
    }
    cnt
}

/// Counts the up-left run probed beside the placed piece: cells
/// `(py, x - 1)`, `(py + 1, x - 2)`, …
fn count_up_left(b: &Vec<Vec<bool>>, h: usize, w: usize, py: usize, x: usize) -> (r: usize)
    requires
        grid_ok(b.deep_view(), h as int, w as int),
        py < h,
        x < w,
    ensures
        r as int == run_up_left(b.deep_view(), h as int, py as int, x as int - 1),
        r <= x,
{
    proof {
        lemma_bool_grid_view(b);
    }
    let ghost bd = b.deep_view();
    let mut cnt: usize = 0;
    let mut cy: usize = py;
    let mut cxo: usize = x;
    while cxo > 0 && cy < h
        invariant
            bd == b.deep_view(),
            grid_ok(bd, h as int, w as int),
            b@.len() == h,
            cxo <= x < w,
            run_up_left(bd, h as int, py as int, x as int - 1) == cnt + run_up_left(
                bd,
                h as int,
                cy as int,
                cxo as int - 1,
            ),
            cnt == x - cxo,
            cy == py + cnt,
        decreases cxo,
    {
        proof {
            assert(bd[cy as int] == b@[cy as int]@);
            assert(bd[cy as int].len() == w);
        }
        let row = &b[cy];
        if !row[cxo - 1] {
            return cnt;
        }
        cy += 1;
        cxo -= 1;
        cnt += 1;
    }
    cnt
}

/// Counts the down-right run probed beside the placed piece: cells
/// `(py - 1, x)`, `(py - 2, x + 1)`, …
fn count_down_right(b: &Vec<Vec<bool>>, h: usize, w: usize, py: usize, x: usize) -> (r: usize)
    requires
        grid_ok(b.deep_view(), h as int, w as int),
        py < h,
        x < w,
    ensures
        r as int == run_down_right(b.deep_view(), w as int, py as int - 1, x as int),
        r <= py,
{
    proof {
        lemma_bool_grid_view(b);
    }
    let ghost bd = b.deep_view();
    let mut cnt: usize = 0;
    let mut cyo: usize = py;
    let mut cx: usize = x;
    while cyo > 0 && cx < w
        invariant
            bd == b.deep_view(),
            grid_ok(bd, h as int, w as int),
            b@.len() == h,
            cyo <= py < h,
            x <= cx,
            run_down_right(bd, w as int, py as int - 1, x as int) == cnt + run_down_right(
                bd,
                w as int,
                cyo as int - 1,
                cx as int,
            ),
            cnt == py - cyo,
            cx == x + cnt,
        decreases cyo,
    {
        proof {
            assert(bd[cyo - 1] == b@[cyo - 1]@);
            assert(bd[cyo - 1].len() == w);
        }
        let row = &b[cyo - 1];
        if !row[cx] {
            return cnt;
        }
        cyo -= 1;
        cx += 1;
        cnt += 1;
    }
    cnt
}

/// Counts the up-right run through the placed piece: cells `(py, x)`,
/// `(py + 1, x + 1)`, …
fn count_up_right(b: &Vec<Vec<bool>>, h: usize, w: usize, py: usize, x: usize) -> (r: usize)
    requires
        grid_ok(b.deep_view(), h as int, w as int),
        py < h,
        x < w,
    ensures
        r as int == run_up_right(b.deep_view(), h as int, w as int, py as int, x as int),
        r <= h - py,
{
    proof {
        lemma_bool_grid_view(b);
    }
    let ghost bd = b.deep_view();
    let mut cnt: usize = 0;
    let mut cy: usize = py;
    let mut cx: usize = x;
    while cy < h && cx < w
        invariant
            bd == b.deep_view(),
            grid_ok(bd, h as int, w as int),
            b@.len() == h,
            py <= cy,
            x <= cx,
            cy <= h,
            run_up_right(bd, h as int, w as int, py as int, x as int) == cnt + run_up_right(
                bd,
                h as int,
                w as int,
                cy as int,
                cx as int,
            ),
            cnt == cy - py,
            cx == x + cnt,
        decreases h - cy,
    {
        proof {
            assert(bd[cy as int] == b@[cy as int]@);
            assert(bd[cy as int].len() == w);
        }
        let row = &b[cy];
        if !row[cx] {
            return cnt;
        }
        cy += 1;
        cx += 1;
        cnt += 1;
    }
    cnt
}

/// Counts the down-left run probed beside the placed piece: cells
/// `(py - 1, x - 1)`, `(py - 2, x - 2)`, …
fn count_down_left(b: &Vec<Vec<bool>>, h: usize, w: usize, py: usize, x: usize) -> (r: usize)
    requires
        grid_ok(b.deep_view(), h as int, w as int),
        py < h,
        x < w,
    ensures
        r as int == run_down_left(b.deep_view(), py as int - 1, x as int - 1),
        r <= py,
{
    proof {
        lemma_bool_grid_view(b);
    }
    let ghost bd = b.deep_view();
    let mut cnt: usize = 0;
    let mut cyo: usize = py;
    let mut cxo: usize = x;
    while cyo > 0 && cxo > 0
        invariant
            bd == b.deep_view(),
            grid_ok(bd, h as int, w as int),
            b@.len() == h,
            cyo <= py < h,
            cxo <= x < w,
            run_down_left(bd, py as int - 1, x as int - 1) == cnt + run_down_left(
                bd,
                cyo as int - 1,
                cxo as int - 1,
            ),
            cnt == py - cyo,
            cnt == x - cxo,
        decreases cyo,
    {
        proof {
            assert(bd[cyo - 1] == b@[cyo - 1]@);
            assert(bd[cyo - 1].len() == w);
        }
        let row = &b[cyo - 1];
        if !row[cxo - 1] {
            return cnt;
        }
        cyo -= 1;
        cxo -= 1;
        cnt += 1;
    }
    cnt
}

} // verus!
