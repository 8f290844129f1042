//! The board: hidden truth of every cell, what the player sees, and the rules
//! that place mines, count them, reveal cells and decide the game.
use crate::grid::{
    adjacent, cell_index, count_true, in_grid, lemma_count_true_none, lemma_count_true_bound,
    lemma_count_true_set, lemma_count_true_take, lemma_index_in_range,
    lemma_update_other_cells,
};
use crate::layout::{mouse_key_in_which_tile, pointer_tile};
use rand::Rng;
use vstd::prelude::*;

verus! {

/// The hidden truth of one cell.
#[derive(Clone, Copy, Debug, PartialEq, Eq, Structural)]
pub enum Tile {
    /// Not yet decided: mines placed, counts not yet computed.
    Unknown,
    Mine,
    /// A safe cell with this many mines among its neighbours (1 to 8).
    Num(u8),
    /// A safe cell with no mine among its neighbours.
    Safe,
}

/// What `reveal_cell` did.
#[derive(Clone, Copy, Debug, PartialEq, Eq, Structural)]
pub enum RevealOutcome {
    /// A safe cell was revealed (with its cascade); the game goes on.
    Continue,
    HitMine,
    /// Nothing changed: the cell is revealed or flagged, or the game has ended.
    AlreadyRevealed,
    OutOfBounds,
}

/// What a renderer may show of one cell.
#[derive(Clone, Copy, Debug, PartialEq, Eq, Structural)]
pub enum CellView {
    Hidden,
    Flagged,
    Revealed(Tile),
}

#[derive(Clone, Copy, Debug, PartialEq, Eq, Structural)]
pub enum BoardError {
    InvalidDimensions,
    TooManyMines,
    AlreadyPlaced,
    /// A listed mine position lies off the board or is listed twice.
    InvalidCell,
}

/// A board of `n` rows and `m` columns. Cell `(r, c)` is entry `r * m + c`
/// of each of the three grids.
pub struct Matrix {
    n: usize,
    m: usize,
    data: Vec<Tile>,
    flag: Vec<bool>,
    shown: Vec<bool>,
    placed: bool,
    counted: bool,
    lost: bool,
    show_all: bool,
}

/// The mathematical state of a board.
pub ghost struct BoardView {
    pub rows: nat,
    pub cols: nat,
    pub tiles: Seq<Tile>,
    pub flags: Seq<bool>,
    pub shown: Seq<bool>,
    /// Mines have been placed in this session.
    pub placed: bool,
    /// Adjacency counts have been computed for the placed mines.
    pub counted: bool,
    /// A mine was revealed in this session.
    pub lost: bool,
    /// The renderer is asked to show every cell's truth (game over, debug view).
    pub show_all: bool,
}

/// Which entries of `tiles` are mines.
pub open spec fn mine_flags(tiles: Seq<Tile>) -> Seq<bool> {
    tiles.map_values(|t: Tile| t is Mine)
}

/// `(r, c)` is one of `cells`.
pub open spec fn lists(cells: Seq<(usize, usize)>, r: int, c: int) -> bool {
    exists|k: int| 0 <= k < cells.len() && #[trigger] cells[k] == (r as usize, c as usize)
}

/// The tile that a safe cell with `k` neighbouring mines holds.
pub open spec fn count_tile(k: nat) -> Tile {
    if k == 0 {
        Tile::Safe
    } else {
        Tile::Num(k as u8)
    }
}

impl BoardView {
    pub open spec fn in_bounds(self, r: int, c: int) -> bool {
        in_grid(self.rows as int, self.cols as int, r, c)
    }

    pub open spec fn tile(self, r: int, c: int) -> Tile {
        self.tiles[cell_index(self.cols as int, r, c)]
    }

    pub open spec fn is_mine(self, r: int, c: int) -> bool {
        self.tile(r, c) is Mine
    }

    pub open spec fn is_flagged(self, r: int, c: int) -> bool {
        self.flags[cell_index(self.cols as int, r, c)]
    }

    pub open spec fn is_shown(self, r: int, c: int) -> bool {
        self.shown[cell_index(self.cols as int, r, c)]
    }

    /// 1 if `(r, c)` is a mine on the board, 0 otherwise (also off the board).
    pub open spec fn mine_at(self, r: int, c: int) -> nat {
        if self.in_bounds(r, c) && self.is_mine(r, c) {
            1
        } else {
            0
        }
    }

    /// The number of mines among the up to eight neighbours of `(r, c)`.
    pub open spec fn mines_around(self, r: int, c: int) -> nat {
        self.mine_at(r - 1, c - 1) + self.mine_at(r - 1, c) + self.mine_at(r - 1, c + 1)
            + self.mine_at(r, c - 1) + self.mine_at(r, c + 1) + self.mine_at(r + 1, c - 1)
            + self.mine_at(r + 1, c) + self.mine_at(r + 1, c + 1)
    }

    /// The cell holds a mine, or the count of its neighbouring mines.
    pub open spec fn count_is_correct(self, r: int, c: int) -> bool {
        self.is_mine(r, c) || self.tile(r, c) == count_tile(self.mines_around(r, c))
    }

    /// The number of mines on the board.
    pub open spec fn mine_count(self) -> nat {
        count_true(mine_flags(self.tiles))
    }

    /// `cells` lists distinct cells of the board.
    pub open spec fn valid_layout(self, cells: Seq<(usize, usize)>) -> bool {
        &&& forall|k: int| 0 <= k < cells.len() ==> self.in_bounds(#[trigger] cells[k].0 as int, cells[k].1 as int)
        &&& forall|k1: int, k2: int| 0 <= k1 < k2 < cells.len() ==> #[trigger] cells[k1] != #[trigger] cells[k2]
    }

    /// Every cell that is not a mine is revealed.
    pub open spec fn won(self) -> bool {
        forall|r: int, c: int|
            self.in_bounds(r, c) && !#[trigger] self.is_mine(r, c) ==> self.is_shown(r, c)
    }

    /// The game has ended, won or lost.
    pub open spec fn terminal(self) -> bool {
        self.lost || self.won()
    }

    /// Mines are placed and counted: the board is ready for play.
    pub open spec fn ready(self) -> bool {
        self.counted
    }

    /// Every cell revealed in `self` is revealed in `next`.
    pub open spec fn reveals_kept(self, next: BoardView) -> bool {
        forall|r: int, c: int| self.in_bounds(r, c) && #[trigger] self.is_shown(r, c) ==> next.is_shown(r, c)
    }

    /// A cell that a cascade may reveal: on the board, hidden and not flagged.
    pub open spec fn open_cell(self, r: int, c: int) -> bool {
        self.in_bounds(r, c) && !self.is_shown(r, c) && !self.is_flagged(r, c)
    }

    /// A chain of open cells, each adjacent to the next, where every cell but
    /// the last is a safe cell with no neighbouring mine.
    pub open spec fn is_cascade_path(self, p: Seq<(int, int)>) -> bool {
        &&& p.len() > 0
        &&& forall|i: int| 0 <= i < p.len() ==> self.open_cell(#[trigger] p[i].0, p[i].1)
        &&& forall|i: int|
            0 <= i < p.len() - 1 ==> self.tile(#[trigger] p[i].0, p[i].1) == Tile::Safe && adjacent(
                p[i].0,
                p[i].1,
                p[i + 1].0,
                p[i + 1].1,
            )
    }

    /// Revealing `(r0, c0)` reaches `(r, c)`: through the region of connected
    /// empty cells around `(r0, c0)`, or as a numbered cell on its border.
    pub open spec fn cascade_reaches(self, r0: int, c0: int, r: int, c: int) -> bool {
        exists|p: Seq<(int, int)>|
            #[trigger] self.is_cascade_path(p) && p[0] == (r0, c0) && p.last() == (r, c)
    }

    /// What `reveal(r, c)` reports on this board.
    pub open spec fn reveal_outcome(self, r: int, c: int) -> RevealOutcome {
        if !self.in_bounds(r, c) {
            RevealOutcome::OutOfBounds
        } else if self.terminal() || self.is_flagged(r, c) || self.is_shown(r, c) {
            RevealOutcome::AlreadyRevealed
        } else if self.is_mine(r, c) {
            RevealOutcome::HitMine
        } else {
            RevealOutcome::Continue
        }
    }

    /// `next` is this board after `reveal(r, c)`.
    pub open spec fn reveal_effect(self, r: int, c: int, next: BoardView) -> bool {
        match self.reveal_outcome(r, c) {
            RevealOutcome::HitMine => next == BoardView {
                shown: self.shown.update(cell_index(self.cols as int, r, c), true),
                lost: true,
                ..self
            },
            RevealOutcome::Continue => {
                &&& next == BoardView { shown: next.shown, ..self }
                &&& next.shown.len() == self.shown.len()
                &&& forall|x: int, y: int|
                    self.in_bounds(x, y) ==> (#[trigger] next.is_shown(x, y) <==> self.is_shown(x, y)
                        || self.cascade_reaches(r, c, x, y))
            },
            _ => next == self,
        }
    }

    /// `next` is this board after `toggle_flag(r, c)`.
    pub open spec fn toggle_effect(self, r: int, c: int, next: BoardView) -> bool {
        if self.in_bounds(r, c) && !self.is_shown(r, c) {
            next == BoardView {
                flags: self.flags.update(cell_index(self.cols as int, r, c), !self.is_flagged(r, c)),
                ..self
            }
        } else {
            next == self
        }
    }

    /// What a renderer is shown of cell `(r, c)`: its truth once revealed or
    /// while every cell is on display, else whether it is flagged.
    pub open spec fn visible(self, r: int, c: int) -> CellView {
        if self.show_all || self.is_shown(r, c) {
            CellView::Revealed(self.tile(r, c))
        } else if self.is_flagged(r, c) {
            CellView::Flagged
        } else {
            CellView::Hidden
        }
    }

    pub open spec fn wf(self) -> bool {
        &&& self.rows > 0
        &&& self.cols > 0
        &&& self.rows * self.cols <= usize::MAX
        &&& self.tiles.len() == self.rows * self.cols
        &&& self.flags.len() == self.rows * self.cols
        &&& self.shown.len() == self.rows * self.cols
        &&& forall|r: int, c: int| self.in_bounds(r, c) && #[trigger] self.is_mine(r, c) ==> self.placed
        &&& forall|r: int, c: int|
            self.in_bounds(r, c) && #[trigger] self.is_flagged(r, c) ==> !self.is_shown(r, c)
        &&& forall|r: int, c: int|
            self.in_bounds(r, c) && #[trigger] self.is_shown(r, c) && self.is_mine(r, c) ==> self.lost
        &&& self.counted ==> self.placed
        &&& self.counted ==> forall|r: int, c: int|
            self.in_bounds(r, c) ==> #[trigger] self.count_is_correct(r, c)
        &&& !self.counted ==> !self.lost
        &&& !self.counted ==> forall|r: int, c: int| self.in_bounds(r, c) ==> !#[trigger] self.is_shown(r, c)
        &&& self.lost ==> !self.won()
    }
}

/// A lost game is never also won: on a well-formed board whose session has
/// revealed a mine, some cell that is not a mine is still hidden.
pub proof fn lemma_loss_excludes_win(b: BoardView)
    requires
        b.wf(),
        b.lost,
    ensures
        !b.won(),
{
}

/// Revealing a mine loses the game, and the board is then not won.
pub proof fn lemma_hit_mine_loses(b: BoardView, r: int, c: int, next: BoardView)
    requires
        b.wf(),
        next.wf(),
        b.reveal_outcome(r, c) == RevealOutcome::HitMine,
        b.reveal_effect(r, c, next),
    ensures
        next.lost,
        !next.won(),
{
}

/// A board with a hidden cell that is not a mine is not won, whatever the
/// mines show.
pub proof fn lemma_hidden_safe_cell_not_won(b: BoardView, r: int, c: int)
    requires
        b.in_bounds(r, c),
        !b.is_mine(r, c),
        !b.is_shown(r, c),
    ensures
        !b.won(),
{
}

/// Revealing a cell never hides another: every revealed cell stays revealed.
pub proof fn lemma_reveal_keeps_reveals(b: BoardView, r: int, c: int, next: BoardView)
    requires
        b.wf(),
        b.reveal_effect(r, c, next),
    ensures
        b.reveals_kept(next),
{
    assert forall|x: int, y: int| b.in_bounds(x, y) && #[trigger] b.is_shown(x, y) implies next.is_shown(x, y) by {
        if b.reveal_outcome(r, c) == RevealOutcome::HitMine {
            if x != r || y != c {
                lemma_update_other_cells(b.rows as int, b.cols as int, b.shown, r, c, true);
            } else {
                lemma_index_in_range(b.rows as int, b.cols as int, r, c);
            }
        }
    }
}

/// A safe cell has no mine among its neighbours.
proof fn lemma_safe_neighbour(v: BoardView, r: int, c: int, x: int, y: int)
    requires
        v.wf(),
        v.counted,
        v.in_bounds(r, c),
        v.tile(r, c) == Tile::Safe,
        v.in_bounds(x, y),
        adjacent(r, c, x, y),
    ensures
        !v.is_mine(x, y),
{
    assert(v.count_is_correct(r, c));
    assert(v.mines_around(r, c) == 0) by {
        if v.mines_around(r, c) != 0 {
            assert(count_tile(v.mines_around(r, c)) is Num);
        }
    }
    assert(v.mine_at(x, y) == 0);
}

/// A cascade from a cell that is not a mine reaches no mine: past the first
/// cell it only enters neighbours of empty cells.
pub proof fn lemma_cascade_avoids_mines(b: BoardView, r0: int, c0: int, r: int, c: int)
    requires
        b.wf(),
        b.counted,
        !b.is_mine(r0, c0),
        b.cascade_reaches(r0, c0, r, c),
    ensures
        !b.is_mine(r, c),
{
    let p = choose|p: Seq<(int, int)>| #[trigger] b.is_cascade_path(p) && p[0] == (r0, c0) && p.last() == (r, c);
    if p.len() > 1 {
        let i = p.len() - 2;
        assert(b.open_cell(p[i].0, p[i].1));
        assert(b.open_cell(p[i + 1].0, p[i + 1].1));
        assert(b.tile(p[i].0, p[i].1) == Tile::Safe);
        lemma_safe_neighbour(b, p[i].0, p[i].1, r, c);
    }
}

impl View for Matrix {
    type V = BoardView;

    closed spec fn view(&self) -> BoardView {
        BoardView {
            rows: self.n as nat,
            cols: self.m as nat,
            tiles: self.data@,
            flags: self.flag@,
            shown: self.shown@,
            placed: self.placed,
            counted: self.counted,
            lost: self.lost,
            show_all: self.show_all,
        }
    }
}

/// `(r, c)` was hidden on `start`, is revealed on `cur`, and is an empty cell.
spec fn newly_safe(cur: BoardView, start: BoardView, r: int, c: int) -> bool {
    &&& start.in_bounds(r, c)
    &&& cur.is_shown(r, c)
    &&& !start.is_shown(r, c)
    &&& start.tile(r, c) == Tile::Safe
}

/// Every unflagged neighbour of `(r, c)` is revealed.
spec fn spread(cur: BoardView, r: int, c: int) -> bool {
    forall|x: int, y: int|
        cur.in_bounds(x, y) && adjacent(r, c, x, y) && !cur.is_flagged(x, y) ==> #[trigger] cur.is_shown(x, y)
}

spec fn on_stack(stack: Seq<(usize, usize)>, r: int, c: int) -> bool {
    exists|k: int| 0 <= k < stack.len() && #[trigger] stack[k] == (r as usize, c as usize)
}

/// The neighbour at offset `(a - 1, b - 1)` of `(r, c)` is revealed or flagged.
spec fn neighbour_done(cur: BoardView, r: int, c: int, a: int, b: int) -> bool {
    cur.in_bounds(r + a - 1, c + b - 1) ==> cur.is_shown(r + a - 1, c + b - 1) || cur.is_flagged(
        r + a - 1,
        c + b - 1,
    )
}

/// The measure that each step of a cascade decreases.
spec fn cascade_measure(cur: BoardView, stack: Seq<(usize, usize)>) -> int {
    2 * (cur.shown.len() - count_true(cur.shown)) + stack.len()
}

/// What holds throughout the cascade from `(r0, c0)` on `start`; `busy` is the
/// cell whose neighbours are being visited.
spec fn cascade_inv(
    cur: BoardView,
    start: BoardView,
    r0: int,
    c0: int,
    stack: Seq<(usize, usize)>,
    busy: Option<(int, int)>,
) -> bool {
    &&& cur == BoardView { shown: cur.shown, ..start }
    &&& cur.shown.len() == start.shown.len()
    &&& count_true(cur.shown) <= cur.shown.len()
    &&& start.in_bounds(r0, c0)
    &&& start.reveals_kept(cur)
    &&& cur.is_shown(r0, c0)
    &&& forall|x: int, y: int|
        start.in_bounds(x, y) && #[trigger] cur.is_shown(x, y) && !start.is_shown(x, y) ==> {
            &&& start.cascade_reaches(r0, c0, x, y)
            &&& !start.is_mine(x, y)
            &&& !start.is_flagged(x, y)
        }
    &&& forall|k: int|
        0 <= k < stack.len() ==> newly_safe(cur, start, #[trigger] stack[k].0 as int, stack[k].1 as int)
    &&& forall|x: int, y: int|
        #[trigger] newly_safe(cur, start, x, y) && busy != Some((x, y)) ==> on_stack(stack, x, y) || spread(cur, x, y)
}

/// Relies on rand's `thread_rng()` and `Rng::gen_range(0..bound)`: a number
/// drawn from `0..bound` (`gen_range` panics on an empty range).
#[verifier::external_body]
fn draw_below(bound: usize) -> (r: usize)
    requires
        bound > 0,
    ensures
        r < bound,
{
    rand::thread_rng().gen_range(0..bound)
}

/// The index of the entry of `tiles` that is the `pick`-th one (from 0)
/// that is not a mine.
fn nth_free(tiles: &Vec<Tile>, pick: usize) -> (i: usize)
    requires
        pick < tiles@.len() - count_true(mine_flags(tiles@)),
    ensures
        i < tiles@.len(),
        !(tiles@[i as int] is Mine),
        i - count_true(mine_flags(tiles@).take(i as int)) == pick,
{
    let ghost mf = mine_flags(tiles@);
    let mut j: usize = 0;
    let mut seen: usize = 0;
    while j < tiles.len()
        invariant
            pick < tiles@.len() - count_true(mf),
            mf == mine_flags(tiles@),
            j <= tiles@.len(),
            seen == j - count_true(mf.take(j as int)),
            seen <= pick,
        decreases tiles@.len() - j,
    {
        proof {
            lemma_count_true_take(mf, j as int);
        }
        if tiles[j] != Tile::Mine {
            if seen == pick {
                return j;
            }
            seen = seen + 1;
        }
        j = j + 1;
    }
    proof {
        assert(mf.take(j as int) =~= mf);
    }
    j
}

/// A vector of `len` copies of `x`.
fn filled<T: Copy>(x: T, len: usize) -> (v: Vec<T>)
    ensures
        v@.len() == len,
        forall|i: int| 0 <= i < len ==> v@[i] == x,
{
    let mut v: Vec<T> = Vec::new();
    let mut i: usize = 0;
    while i < len
        invariant
            i <= len,
            v@.len() == i,
            forall|j: int| 0 <= j < i ==> v@[j] == x,
        decreases len - i,
    {
        v.push(x);
        i = i + 1;
    }
    v
}

impl Matrix {
    pub open spec fn wf(&self) -> bool {
        self@.wf()
    }

    /// A fresh board of `n` rows and `m` columns: nothing placed, revealed or flagged.
    pub open spec fn fresh(v: BoardView, n: nat, m: nat) -> bool {
        &&& v.rows == n
        &&& v.cols == m
        &&& v.tiles =~= Seq::new(n * m, |i: int| Tile::Unknown)
        &&& v.flags =~= Seq::new(n * m, |i: int| false)
        &&& v.shown =~= Seq::new(n * m, |i: int| false)
        &&& !v.placed
        &&& !v.counted
        &&& !v.lost
        &&& !v.show_all
    }

    proof fn lemma_fresh_wf(v: BoardView, n: nat, m: nat)
        requires
            Self::fresh(v, n, m),
            n > 0,
            m > 0,
            n * m <= usize::MAX,
        ensures
            v.wf(),
    {
        assert forall|r: int, c: int| v.in_bounds(r, c) implies v.tile(r, c) == Tile::Unknown
            && !v.is_flagged(r, c) && !v.is_shown(r, c) by {
            lemma_index_in_range(n as int, m as int, r, c);
        }
    }

    /// The cells of a fresh board of the given size.
    fn fresh_grids(n: usize, m: usize) -> (r: (Vec<Tile>, Vec<bool>, Vec<bool>))
        requires
            n * m <= usize::MAX,
        ensures
            r.0@ =~= Seq::new((n * m) as nat, |i: int| Tile::Unknown),
            r.1@ =~= Seq::new((n * m) as nat, |i: int| false),
            r.2@ =~= Seq::new((n * m) as nat, |i: int| false),
    {
        let len = n * m;
        (filled(Tile::Unknown, len), filled(false, len), filled(false, len))
    }

    /// A board of `n` rows and `m` columns; both must be positive.
    pub fn new(n: usize, m: usize) -> (r: Result<Matrix, BoardError>)
        requires
            n * m <= usize::MAX,
        ensures
            n == 0 || m == 0 ==> r == Err::<Matrix, BoardError>(BoardError::InvalidDimensions),
            r is Ok <==> n > 0 && m > 0,
            r is Ok ==> r->Ok_0.wf() && Self::fresh(r->Ok_0@, n as nat, m as nat),
    {
        if n == 0 || m == 0 {
            return Err(BoardError::InvalidDimensions);
        }
        let (data, flag, shown) = Self::fresh_grids(n, m);
        proof {
            Self::lemma_fresh_wf(
                BoardView {
                    rows: n as nat,
                    cols: m as nat,
                    tiles: data@,
                    flags: flag@,
                    shown: shown@,
                    placed: false,
                    counted: false,
                    lost: false,
                    show_all: false,
                },
                n as nat,
                m as nat,
            );
        }
        Ok(Matrix { n, m, data, flag, shown, placed: false, counted: false, lost: false, show_all: false })
    }

    /// Starts a new session on a board of `n` rows and `m` columns: every cell
    /// is unknown, hidden and unflagged, and the loss is forgotten.
    pub fn renew(&mut self, n: usize, m: usize)
        requires
            n > 0,
            m > 0,
            n * m <= usize::MAX,
        ensures
            final(self).wf(),
            Self::fresh(final(self)@, n as nat, m as nat),
    {
        let (data, flag, shown) = Self::fresh_grids(n, m);
        self.n = n;
        self.m = m;
        self.data = data;
        self.flag = flag;
        self.shown = shown;
        self.placed = false;
        self.counted = false;
        self.lost = false;
        self.show_all = false;
        proof {
            Self::lemma_fresh_wf(self@, n as nat, m as nat);
        }
    }

    /// The position of cell `(r, c)` in the three grids.
    fn index(&self, r: usize, c: usize) -> (i: usize)
        requires
            self@.rows * self@.cols <= usize::MAX,
            self@.in_bounds(r as int, c as int),
        ensures
            i == cell_index(self.m as int, r as int, c as int),
            i < self@.rows * self@.cols,
    {
        proof {
            lemma_index_in_range(self.n as int, self.m as int, r as int, c as int);
        }
        r * self.m + c
    }

    /// Whether every cell that is not a mine is revealed.
    pub fn check(&self) -> (won: bool)
        requires
            self.wf(),
        ensures
            won == self@.won(),
    {
        let mut i: usize = 0;
        while i < self.n
            invariant
                self.wf(),
                i <= self.n,
                forall|x: int, y: int|
                    0 <= x < i && 0 <= y < self.m && !#[trigger] self@.is_mine(x, y) ==> self@.is_shown(x, y),
            decreases self.n - i,
        {
            let mut j: usize = 0;
            while j < self.m
                invariant
                    self.wf(),
                    i < self.n,
                    j <= self.m,
                    forall|x: int, y: int|
                        0 <= x < i && 0 <= y < self.m && !#[trigger] self@.is_mine(x, y) ==> self@.is_shown(x, y),
                    forall|y: int| 0 <= y < j && !#[trigger] self@.is_mine(i as int, y) ==> self@.is_shown(i as int, y),
                decreases self.m - j,
            {
                let k = self.index(i, j);
                if !self.shown[k] && self.data[k] != Tile::Mine {
                    assert(!self@.is_shown(i as int, j as int) && !self@.is_mine(i as int, j as int));
                    return false;
                }
                j = j + 1;
            }
            i = i + 1;
        }
        true
    }

    /// The coordinate `p + d - 1`, when it lies in `0..bound`.
    fn shifted(p: usize, d: usize, bound: usize) -> (q: Option<usize>)
        requires
            p < bound,
            d < 3,
        ensures
            q matches Some(v) ==> v == p + d - 1 && v < bound,
            q is None ==> p + d - 1 < 0 || p + d - 1 >= bound,
    {
        if d == 0 {
            if p == 0 {
                None
            } else {
                Some(p - 1)
            }
        } else if p + (d - 1) < bound {
            Some(p + (d - 1))
        } else {
            None
        }
    }

    /// Revealing hidden, unflagged `(x, y)` next to `from` during a cascade;
    /// an empty cell goes on the stack.
    fn visit(
        &mut self,
        stack: &mut Vec<(usize, usize)>,
        x: usize,
        y: usize,
        Ghost(start): Ghost<BoardView>,
        Ghost(r0): Ghost<int>,
        Ghost(c0): Ghost<int>,
        Ghost(from): Ghost<(int, int)>,
    )
        requires
            start.wf(),
            start.counted,
            cascade_inv(old(self)@, start, r0, c0, old(stack)@, Some(from)),
            newly_safe(old(self)@, start, from.0, from.1),
            start.in_bounds(x as int, y as int),
            adjacent(from.0, from.1, x as int, y as int),
        ensures
            cascade_inv(final(self)@, start, r0, c0, final(stack)@, Some(from)),
            old(self)@.reveals_kept(final(self)@),
            final(self)@.is_shown(x as int, y as int) || start.is_flagged(x as int, y as int),
            cascade_measure(final(self)@, final(stack)@) <= cascade_measure(old(self)@, old(stack)@),
    {
        let ghost cur = self@;
        let i = self.index(x, y);
        if self.shown[i] || self.flag[i] {
            return;
        }
        let ghost (xi, yi) = (x as int, y as int);
        proof {
            lemma_count_true_set(self.shown@, i as int);
            lemma_update_other_cells(start.rows as int, start.cols as int, self.shown@, xi, yi, true);
            lemma_safe_neighbour(start, from.0, from.1, xi, yi);
            let p = choose|p: Seq<(int, int)>|
                #[trigger] start.is_cascade_path(p) && p[0] == (r0, c0) && p.last() == from;
            let q = p.push((xi, yi));
            assert(q[q.len() - 2] == from);
            assert(start.is_cascade_path(q));
            assert(start.cascade_reaches(r0, c0, xi, yi));
        }
        self.shown.set(i, true);
        if self.data[i] == Tile::Safe {
            stack.push((x, y));
            proof {
                assert(stack@[stack@.len() - 1] == (x, y));
            }
        }
        proof {
            let nxt = self@;
            lemma_count_true_bound(nxt.shown);
            assert(cur.reveals_kept(nxt));
            assert(start.reveals_kept(nxt));
            assert(nxt == BoardView { shown: nxt.shown, ..start });
            assert(nxt.is_shown(r0, c0));
            assert forall|x2: int, y2: int|
                start.in_bounds(x2, y2) && #[trigger] nxt.is_shown(x2, y2) && !start.is_shown(x2, y2) implies {
                &&& start.cascade_reaches(r0, c0, x2, y2)
                &&& !start.is_mine(x2, y2)
                &&& !start.is_flagged(x2, y2)
            } by {
                if x2 != xi || y2 != yi {
                    assert(cur.is_shown(x2, y2));
                }
            }
            assert forall|k: int| 0 <= k < stack@.len() implies newly_safe(
                nxt,
                start,
                #[trigger] stack@[k].0 as int,
                stack@[k].1 as int,
            ) by {
                if k < old(stack)@.len() {
                    assert(stack@[k] == old(stack)@[k]);
                    assert(newly_safe(cur, start, old(stack)@[k].0 as int, old(stack)@[k].1 as int));
                }
            }
            assert forall|x2: int, y2: int|
                #[trigger] newly_safe(nxt, start, x2, y2) && Some(from) != Some((x2, y2)) implies on_stack(
                stack@,
                x2,
                y2,
            ) || spread(nxt, x2, y2) by {
                if x2 == xi && y2 == yi {
                    assert(stack@[stack@.len() - 1] == (x2 as usize, y2 as usize));
                } else {
                    assert(newly_safe(cur, start, x2, y2));
                    if on_stack(old(stack)@, x2, y2) {
                        let k = choose|k: int|
                            0 <= k < old(stack)@.len() && #[trigger] old(stack)@[k] == (x2 as usize, y2 as usize);
                        assert(stack@[k] == (x2 as usize, y2 as usize));
                    } else {
                        assert(spread(cur, x2, y2));
                        assert forall|x3: int, y3: int|
                            nxt.in_bounds(x3, y3) && adjacent(x2, y2, x3, y3) && !nxt.is_flagged(x3, y3) implies #[trigger] nxt.is_shown(
                            x3,
                            y3,
                        ) by {
                            assert(cur.is_shown(x3, y3));
                        }
                    }
                }
            }
        }
    }

    /// Every cell of a cascade path is revealed once the cascade is complete.
    proof fn lemma_path_revealed(
        cur: BoardView,
        start: BoardView,
        r0: int,
        c0: int,
        p: Seq<(int, int)>,
        i: int,
    )
        requires
            cascade_inv(cur, start, r0, c0, Seq::empty(), None),
            start.is_cascade_path(p),
            p[0] == (r0, c0),
            0 <= i < p.len(),
        ensures
            cur.is_shown(p[i].0, p[i].1),
        decreases i,
    {
        if i > 0 {
            Self::lemma_path_revealed(cur, start, r0, c0, p, i - 1);
            let (x, y) = p[i - 1];
            assert(start.open_cell(p[i - 1].0, p[i - 1].1));
            assert(start.open_cell(p[i].0, p[i].1));
            assert(start.tile(p[i - 1].0, p[i - 1].1) == Tile::Safe);
            assert(newly_safe(cur, start, x, y));
            assert(!on_stack(Seq::empty(), x, y));
            assert(spread(cur, x, y));
        }
    }

    /// Reveals hidden, unflagged, safe `(r, c)` and, where it is empty, the
    /// region that a cascade from it reaches.
    fn flood(&mut self, r: usize, c: usize)
        requires
            old(self).wf(),
            old(self)@.counted,
            !old(self)@.lost,
            old(self)@.open_cell(r as int, c as int),
            !old(self)@.is_mine(r as int, c as int),
        ensures
            final(self).wf(),
            final(self)@ == (BoardView { shown: final(self)@.shown, ..old(self)@ }),
            final(self)@.shown.len() == old(self)@.shown.len(),
            forall|x: int, y: int|
                old(self)@.in_bounds(x, y) ==> (#[trigger] final(self)@.is_shown(x, y) <==> old(self)@.is_shown(x, y)
                    || old(self)@.cascade_reaches(r as int, c as int, x, y)),
    {
        let ghost start = self@;
        let ghost (ri, ci) = (r as int, c as int);
        let i = self.index(r, c);
        proof {
            lemma_count_true_set(self.shown@, i as int);
            lemma_update_other_cells(start.rows as int, start.cols as int, self.shown@, ri, ci, true);
            assert(start.is_cascade_path(seq![(ri, ci)]));
        }
        self.shown.set(i, true);
        let mut stack: Vec<(usize, usize)> = Vec::new();
        if self.data[i] == Tile::Safe {
            stack.push((r, c));
        }
        proof {
            lemma_count_true_bound(self.shown@);
            assert(start.reveals_kept(self@));
            assert forall|x: int, y: int|
                #[trigger] newly_safe(self@, start, x, y) implies on_stack(stack@, x, y) || spread(self@, x, y) by {
                assert(x == ri && y == ci);
                assert(stack@[0] == (r, c));
            }
        }
        while stack.len() > 0
            invariant
                start.wf(),
                start.counted,
                !start.lost,
                start.rows == self.n,
                start.cols == self.m,
                cascade_inv(self@, start, ri, ci, stack@, None),
            decreases cascade_measure(self@, stack@),
        {
            let ghost before = cascade_measure(self@, stack@);
            let ghost old_stack = stack@;
            let (x, y) = stack.pop().unwrap();
            let ghost from = (x as int, y as int);
            proof {
                assert(old_stack[old_stack.len() - 1] == (x, y));
                assert(newly_safe(self@, start, x as int, y as int));
                assert forall|x2: int, y2: int|
                    #[trigger] newly_safe(self@, start, x2, y2) && Some(from) != Some((x2, y2)) implies on_stack(
                    stack@,
                    x2,
                    y2,
                ) || spread(self@, x2, y2) by {
                    if on_stack(old_stack, x2, y2) {
                        let k = choose|k: int|
                            0 <= k < old_stack.len() && #[trigger] old_stack[k] == (x2 as usize, y2 as usize);
                        assert(k != old_stack.len() - 1);
                        assert(stack@[k] == (x2 as usize, y2 as usize));
                    }
                }
            }
            let mut a: usize = 0;
            while a < 3
                invariant
                    start.wf(),
                    start.counted,
                    start.rows == self.n,
                    start.cols == self.m,
                    a <= 3,
                    from == (x as int, y as int),
                    cascade_inv(self@, start, ri, ci, stack@, Some(from)),
                    newly_safe(self@, start, from.0, from.1),
                    cascade_measure(self@, stack@) < before,
                    forall|a2: int, b2: int|
                        0 <= a2 < a && 0 <= b2 < 3 ==> #[trigger] neighbour_done(self@, from.0, from.1, a2, b2),
                decreases 3 - a,
            {
                let mut b: usize = 0;
                while b < 3
                    invariant
                        start.wf(),
                        start.counted,
                        start.rows == self.n,
                        start.cols == self.m,
                        a < 3,
                        b <= 3,
                        from == (x as int, y as int),
                        cascade_inv(self@, start, ri, ci, stack@, Some(from)),
                        newly_safe(self@, start, from.0, from.1),
                        cascade_measure(self@, stack@) < before,
                        forall|a2: int, b2: int|
                            0 <= a2 < a && 0 <= b2 < 3 ==> #[trigger] neighbour_done(self@, from.0, from.1, a2, b2),
                        forall|b2: int| 0 <= b2 < b ==> #[trigger] neighbour_done(self@, from.0, from.1, a as int, b2),
                    decreases 3 - b,
                {
                    let ghost prev = self@;
                    if a != 1 || b != 1 {
                        if let Some(nx) = Self::shifted(x, a, self.n) {
                            if let Some(ny) = Self::shifted(y, b, self.m) {
                                self.visit(&mut stack, nx, ny, Ghost(start), Ghost(ri), Ghost(ci), Ghost(from));
                            }
                        }
                    }
                    proof {
                        assert forall|a2: int, b2: int|
                            neighbour_done(prev, from.0, from.1, a2, b2) implies #[trigger] neighbour_done(
                            self@,
                            from.0,
                            from.1,
                            a2,
                            b2,
                        ) by {
                            if self@.in_bounds(from.0 + a2 - 1, from.1 + b2 - 1) {
                                if prev.is_shown(from.0 + a2 - 1, from.1 + b2 - 1) {
                                    assert(prev.reveals_kept(self@));
                                }
                            }
                        }
                        assert(neighbour_done(self@, from.0, from.1, a as int, b as int));
                    }
                    b = b + 1;
                }
                a = a + 1;
            }
            proof {
                assert forall|x2: int, y2: int|
                    self@.in_bounds(x2, y2) && adjacent(from.0, from.1, x2, y2) && !self@.is_flagged(
                        x2,
                        y2,
                    ) implies #[trigger] self@.is_shown(x2, y2) by {
                    assert(neighbour_done(self@, from.0, from.1, x2 - from.0 + 1, y2 - from.1 + 1));
                }
                assert(spread(self@, from.0, from.1));
            }
        }
        proof {
            let fin = self@;
            assert forall|x: int, y: int| fin.in_bounds(x, y) implies #[trigger] fin.count_is_correct(x, y)
                == start.count_is_correct(x, y) by {
                assert(fin.mines_around(x, y) == start.mines_around(x, y));
            }
            assert forall|x: int, y: int|
                fin.in_bounds(x, y) && #[trigger] fin.is_shown(x, y) implies !fin.is_mine(x, y)
                && !fin.is_flagged(x, y) by {
                if !start.is_shown(x, y) {
                } else {
                    assert(start.is_flagged(x, y) ==> !start.is_shown(x, y));
                }
            }
            assert forall|x: int, y: int|
                fin.in_bounds(x, y) && #[trigger] fin.is_flagged(x, y) implies !fin.is_shown(x, y) by {
                assert(fin.is_shown(x, y) ==> !fin.is_flagged(x, y));
            }
            assert forall|x: int, y: int| fin.in_bounds(x, y) && #[trigger] fin.is_mine(x, y) implies fin.placed by {
                assert(start.is_mine(x, y));
            }
            assert forall|x: int, y: int| start.in_bounds(x, y) implies (#[trigger] fin.is_shown(x, y)
                <==> start.is_shown(x, y) || start.cascade_reaches(ri, ci, x, y)) by {
                if start.cascade_reaches(ri, ci, x, y) {
                    let p = choose|p: Seq<(int, int)>|
                        #[trigger] start.is_cascade_path(p) && p[0] == (ri, ci) && p.last() == (x, y);
                    Self::lemma_path_revealed(fin, start, ri, ci, p, p.len() - 1);
                }
            }
        }
    }

    /// Reveals cell `(r, c)`. Off the board nothing changes. On a flagged or
    /// revealed cell, or once the game is won or lost, nothing changes either.
    /// A mine is revealed and the game is lost. A safe cell is revealed, and
    /// an empty one reveals the whole region that a cascade from it reaches.
    pub fn reveal_cell(&mut self, r: usize, c: usize) -> (out: RevealOutcome)
        requires
            old(self).wf(),
            old(self)@.ready(),
        ensures
            final(self).wf(),
            out == old(self)@.reveal_outcome(r as int, c as int),
            old(self)@.reveal_effect(r as int, c as int, final(self)@),
            old(self)@.reveals_kept(final(self)@),
            old(self)@.lost ==> final(self)@.lost,
            out == RevealOutcome::HitMine ==> final(self)@.lost,
    {
        if r >= self.n || c >= self.m {
            return RevealOutcome::OutOfBounds;
        }
        if self.lost || self.check() {
            return RevealOutcome::AlreadyRevealed;
        }
        let i = self.index(r, c);
        if self.flag[i] || self.shown[i] {
            return RevealOutcome::AlreadyRevealed;
        }
        if self.data[i] == Tile::Mine {
            let ghost before = self@;
            proof {
                lemma_update_other_cells(self.n as int, self.m as int, self.shown@, r as int, c as int, true);
            }
            self.shown.set(i, true);
            self.lost = true;
            proof {
                let after = self@;
                let (x, y) = choose|x: int, y: int|
                    !(before.in_bounds(x, y) && !#[trigger] before.is_mine(x, y) ==> before.is_shown(x, y));
                assert(!after.is_shown(x, y));
                assert(after.in_bounds(x, y) && !after.is_mine(x, y));
                assert(!after.won());
                assert(before.reveals_kept(after));
                assert forall|x2: int, y2: int| after.in_bounds(x2, y2) implies #[trigger] after.count_is_correct(
                    x2,
                    y2,
                ) by {
                    assert(before.count_is_correct(x2, y2));
                    assert(after.mines_around(x2, y2) == before.mines_around(x2, y2));
                }
                assert forall|x2: int, y2: int|
                    after.in_bounds(x2, y2) && #[trigger] after.is_flagged(x2, y2) implies !after.is_shown(x2, y2) by {
                    assert(before.is_flagged(x2, y2));
                }
                assert forall|x2: int, y2: int| after.in_bounds(x2, y2) && #[trigger] after.is_mine(x2, y2) implies after.placed by {
                    assert(before.is_mine(x2, y2));
                }
            }
            return RevealOutcome::HitMine;
        }
        self.flood(r, c);
        proof {
            assert(old(self)@.reveals_kept(self@));
        }
        RevealOutcome::Continue
    }

    /// Places `count` mines on distinct cells drawn at random: each mine goes
    /// to a cell drawn uniformly among those that hold none yet. Every other
    /// cell is left unknown until `generate_num`. Fails if mines were already
    /// placed in this session, or if `count` is not below the number of cells.
    pub fn generate_mine(&mut self, count: usize) -> (res: Result<(), BoardError>)
        requires
            old(self).wf(),
        ensures
            final(self).wf(),
            old(self)@.placed ==> res == Err::<(), BoardError>(BoardError::AlreadyPlaced),
            !old(self)@.placed && count >= old(self)@.rows * old(self)@.cols ==> res == Err::<(), BoardError>(
                BoardError::TooManyMines,
            ),
            res is Err ==> final(self)@ == old(self)@,
            res is Ok <==> !old(self)@.placed && count < old(self)@.rows * old(self)@.cols,
            res is Ok ==> {
                &&& final(self)@ == (BoardView { tiles: final(self)@.tiles, placed: true, ..old(self)@ })
                &&& final(self)@.tiles.len() == old(self)@.tiles.len()
                &&& final(self)@.mine_count() == count
                &&& forall|r: int, c: int|
                    final(self)@.in_bounds(r, c) ==> #[trigger] final(self)@.tile(r, c) == Tile::Mine
                        || final(self)@.tile(r, c) == Tile::Unknown
            },
            old(self)@.reveals_kept(final(self)@),
            old(self)@.lost ==> final(self)@.lost,
    {
        if self.placed {
            return Err(BoardError::AlreadyPlaced);
        }
        let len = self.n * self.m;
        if count >= len {
            return Err(BoardError::TooManyMines);
        }
        let mut data = filled(Tile::Unknown, len);
        proof {
            lemma_count_true_none(mine_flags(data@));
        }
        let mut k: usize = 0;
        while k < count
            invariant
                count < len,
                k <= count,
                data@.len() == len,
                count_true(mine_flags(data@)) == k,
                forall|i: int| 0 <= i < len ==> #[trigger] data@[i] == Tile::Mine || data@[i] == Tile::Unknown,
            decreases count - k,
        {
            let pick = draw_below(len - k);
            let i = nth_free(&data, pick);
            proof {
                assert(mine_flags(data@.update(i as int, Tile::Mine)) =~= mine_flags(data@).update(i as int, true));
                lemma_count_true_set(mine_flags(data@), i as int);
            }
            data.set(i, Tile::Mine);
            k = k + 1;
        }
        let ghost before = self@;
        self.data = data;
        self.placed = true;
        proof {
            let fin = self@;
            assert forall|r: int, c: int| fin.in_bounds(r, c) implies #[trigger] fin.tile(r, c) == Tile::Mine
                || fin.tile(r, c) == Tile::Unknown by {
                lemma_index_in_range(fin.rows as int, fin.cols as int, r, c);
            }
            assert forall|r: int, c: int| fin.in_bounds(r, c) implies !#[trigger] fin.is_shown(r, c) by {
                assert(!before.is_shown(r, c));
            }
            assert forall|r: int, c: int|
                fin.in_bounds(r, c) && #[trigger] fin.is_flagged(r, c) implies !fin.is_shown(r, c) by {
                assert(!before.is_shown(r, c));
            }
            assert(before.reveals_kept(fin));
        }
        Ok(())
    }

    /// Places a mine on each of `cells` and on no other cell; every other cell
    /// is left unknown until `generate_num`. Fails if mines were already placed
    /// in this session, if there are not fewer cells listed than on the board,
    /// or if a listed cell lies off the board or is listed twice.
    pub fn place_mines_at(&mut self, cells: &Vec<(usize, usize)>) -> (res: Result<(), BoardError>)
        requires
            old(self).wf(),
        ensures
            final(self).wf(),
            old(self)@.placed ==> res == Err::<(), BoardError>(BoardError::AlreadyPlaced),
            !old(self)@.placed && cells@.len() >= old(self)@.rows * old(self)@.cols ==> res == Err::<
                (),
                BoardError,
            >(BoardError::TooManyMines),
            !old(self)@.placed && cells@.len() < old(self)@.rows * old(self)@.cols && !old(self)@.valid_layout(
                cells@,
            ) ==> res == Err::<(), BoardError>(BoardError::InvalidCell),
            res is Err ==> final(self)@ == old(self)@,
            res is Ok <==> !old(self)@.placed && cells@.len() < old(self)@.rows * old(self)@.cols
                && old(self)@.valid_layout(cells@),
            res is Ok ==> {
                &&& final(self)@ == (BoardView { tiles: final(self)@.tiles, placed: true, ..old(self)@ })
                &&& final(self)@.tiles.len() == old(self)@.tiles.len()
                &&& final(self)@.mine_count() == cells@.len()
                &&& forall|r: int, c: int|
                    final(self)@.in_bounds(r, c) ==> #[trigger] final(self)@.tile(r, c) == if lists(cells@, r, c) {
                        Tile::Mine
                    } else {
                        Tile::Unknown
                    }
            },
            old(self)@.reveals_kept(final(self)@),
            old(self)@.lost ==> final(self)@.lost,
    {
        if self.placed {
            return Err(BoardError::AlreadyPlaced);
        }
        let len = self.n * self.m;
        if cells.len() >= len {
            return Err(BoardError::TooManyMines);
        }
        let ghost v = self@;
        let mut data = filled(Tile::Unknown, len);
        proof {
            lemma_count_true_none(mine_flags(data@));
            assert forall|r: int, c: int| v.in_bounds(r, c) implies #[trigger] data@[cell_index(v.cols as int, r, c)]
                == Tile::Unknown && !lists(cells@.take(0), r, c) by {
                lemma_index_in_range(v.rows as int, v.cols as int, r, c);
            }
        }
        let mut k: usize = 0;
        while k < cells.len()
            invariant
                v == self@,
                v.wf(),
                !v.placed,
                cells@.len() < len,
                len == v.rows * v.cols,
                k <= cells@.len(),
                data@.len() == len,
                count_true(mine_flags(data@)) == k,
                forall|r: int, c: int|
                    v.in_bounds(r, c) ==> #[trigger] data@[cell_index(v.cols as int, r, c)] == if lists(
                        cells@.take(k as int),
                        r,
                        c,
                    ) {
                        Tile::Mine
                    } else {
                        Tile::Unknown
                    },
                v.valid_layout(cells@.take(k as int)),
            decreases cells@.len() - k,
        {
            let (r, c) = cells[k];
            if r >= self.n || c >= self.m {
                proof {
                    assert(!v.valid_layout(cells@));
                }
                return Err(BoardError::InvalidCell);
            }
            let i = self.index(r, c);
            let ghost (ri, ci) = (r as int, c as int);
            if data[i] == Tile::Mine {
                proof {
                    assert(lists(cells@.take(k as int), ri, ci));
                    let k1 = choose|k1: int|
                        0 <= k1 < k && #[trigger] cells@.take(k as int)[k1] == (ri as usize, ci as usize);
                    assert(cells@[k1] == cells@[k as int]);
                    assert(!v.valid_layout(cells@));
                }
                return Err(BoardError::InvalidCell);
            }
            proof {
                assert(mine_flags(data@.update(i as int, Tile::Mine)) =~= mine_flags(data@).update(i as int, true));
                lemma_count_true_set(mine_flags(data@), i as int);
                lemma_update_other_cells(v.rows as int, v.cols as int, data@, ri, ci, Tile::Mine);
            }
            let ghost prev = data@;
            data.set(i, Tile::Mine);
            proof {
                let t0 = cells@.take(k as int);
                let t1 = cells@.take(k + 1);
                assert(t1 =~= t0.push((r, c)));
                assert forall|x: int, y: int| v.in_bounds(x, y) implies #[trigger] data@[cell_index(
                    v.cols as int,
                    x,
                    y,
                )] == if lists(t1, x, y) {
                    Tile::Mine
                } else {
                    Tile::Unknown
                } by {
                    if x == ri && y == ci {
                        assert(t1[k as int] == (x as usize, y as usize));
                    } else {
                        assert(data@[cell_index(v.cols as int, x, y)] == prev[cell_index(v.cols as int, x, y)]);
                        if lists(t1, x, y) {
                            let k1 = choose|k1: int| 0 <= k1 < t1.len() && #[trigger] t1[k1] == (x as usize, y as usize);
                            assert(k1 < k);
                            assert(t0[k1] == t1[k1]);
                        }
                        if lists(t0, x, y) {
                            let k1 = choose|k1: int| 0 <= k1 < t0.len() && #[trigger] t0[k1] == (x as usize, y as usize);
                            assert(t1[k1] == t0[k1]);
                        }
                    }
                }
                assert forall|k1: int, k2: int| 0 <= k1 < k2 < t1.len() implies #[trigger] t1[k1] != #[trigger] t1[k2] by {
                    if k2 == k {
                        if t1[k1] == t1[k2] {
                            assert(t0[k1] == (ri as usize, ci as usize));
                            assert(lists(t0, ri, ci));
                        }
                    } else {
                        assert(t0[k1] != t0[k2]);
                    }
                }
                assert forall|k1: int| 0 <= k1 < t1.len() implies v.in_bounds(#[trigger] t1[k1].0 as int, t1[k1].1 as int) by {
                    if k1 < k {
                        assert(t1[k1] == t0[k1]);
                    }
                }
            }
            k = k + 1;
        }
        proof {
            assert(cells@.take(k as int) =~= cells@);
        }
        self.data = data;
        self.placed = true;
        proof {
            let fin = self@;
            assert forall|r: int, c: int| fin.in_bounds(r, c) implies !#[trigger] fin.is_shown(r, c) by {
                assert(!v.is_shown(r, c));
            }
            assert forall|r: int, c: int|
                fin.in_bounds(r, c) && #[trigger] fin.is_flagged(r, c) implies !fin.is_shown(r, c) by {
                assert(!v.is_shown(r, c));
            }
            assert(v.reveals_kept(fin));
        }
        Ok(())
    }

    /// 1 if the neighbour at offset `(a - 1, b - 1)` of `(r, c)` is a mine, else 0.
    fn mine_value(&self, r: usize, c: usize, a: usize, b: usize) -> (k: u8)
        requires
            self@.rows * self@.cols <= usize::MAX,
            self@.tiles.len() == self@.rows * self@.cols,
            self@.in_bounds(r as int, c as int),
            a < 3,
            b < 3,
        ensures
            k == self@.mine_at(r + a - 1, c + b - 1),
    {
        match (Self::shifted(r, a, self.n), Self::shifted(c, b, self.m)) {
            (Some(x), Some(y)) => {
                let i = self.index(x, y);
                if self.data[i] == Tile::Mine {
                    1
                } else {
                    0
                }
            },
            _ => 0,
        }
    }

    /// The number of mines among the neighbours of `(r, c)`.
    fn mines_near(&self, r: usize, c: usize) -> (k: u8)
        requires
            self@.rows * self@.cols <= usize::MAX,
            self@.tiles.len() == self@.rows * self@.cols,
            self@.in_bounds(r as int, c as int),
        ensures
            k == self@.mines_around(r as int, c as int),
    {
        self.mine_value(r, c, 0, 0) + self.mine_value(r, c, 0, 1) + self.mine_value(r, c, 0, 2)
            + self.mine_value(r, c, 1, 0) + self.mine_value(r, c, 1, 2) + self.mine_value(r, c, 2, 0)
            + self.mine_value(r, c, 2, 1) + self.mine_value(r, c, 2, 2)
    }

    /// Computes, for every cell that is not a mine, the number of mines among
    /// its up to eight neighbours: `Safe` for none, `Num(k)` for `k`.
    pub fn generate_num(&mut self)
        requires
            old(self).wf(),
            old(self)@.placed,
        ensures
            final(self).wf(),
            final(self)@ == (BoardView { tiles: final(self)@.tiles, counted: true, ..old(self)@ }),
            final(self)@.tiles.len() == old(self)@.tiles.len(),
            forall|r: int, c: int|
                old(self)@.in_bounds(r, c) ==> #[trigger] final(self)@.tile(r, c) == if old(self)@.is_mine(r, c) {
                    Tile::Mine
                } else {
                    count_tile(old(self)@.mines_around(r, c))
                },
            old(self)@.reveals_kept(final(self)@),
            old(self)@.lost ==> final(self)@.lost,
    {
        let ghost start = self@;
        let mut i: usize = 0;
        while i < self.n
            invariant
                start.wf(),
                self@ == (BoardView { tiles: self@.tiles, ..start }),
                self@.tiles.len() == start.tiles.len(),
                i <= self.n,
                forall|x: int, y: int| start.in_bounds(x, y) ==> #[trigger] self@.is_mine(x, y) == start.is_mine(x, y),
                forall|x: int, y: int|
                    0 <= x < i && 0 <= y < self.m ==> #[trigger] self@.tile(x, y) == if start.is_mine(x, y) {
                        Tile::Mine
                    } else {
                        count_tile(start.mines_around(x, y))
                    },
            decreases self.n - i,
        {
            let mut j: usize = 0;
            while j < self.m
                invariant
                    start.wf(),
                    self@ == (BoardView { tiles: self@.tiles, ..start }),
                    self@.tiles.len() == start.tiles.len(),
                    i < self.n,
                    j <= self.m,
                    forall|x: int, y: int| start.in_bounds(x, y) ==> #[trigger] self@.is_mine(x, y) == start.is_mine(x, y),
                    forall|x: int, y: int|
                        (0 <= x < i && 0 <= y < self.m) || (x == i && 0 <= y < j) ==> #[trigger] self@.tile(x, y)
                            == if start.is_mine(x, y) {
                            Tile::Mine
                        } else {
                            count_tile(start.mines_around(x, y))
                        },
                decreases self.m - j,
            {
                let k = self.index(i, j);
                if self.data[k] != Tile::Mine {
                    let near = self.mines_near(i, j);
                    let t = if near == 0 {
                        Tile::Safe
                    } else {
                        Tile::Num(near)
                    };
                    let ghost cur = self@;
                    proof {
                        assert(t == count_tile(near as nat));
                        assert(cur.mines_around(i as int, j as int) == start.mines_around(i as int, j as int));
                        lemma_update_other_cells(
                            self.n as int,
                            self.m as int,
                            self.data@,
                            i as int,
                            j as int,
                            t,
                        );
                    }
                    self.data.set(k, t);
                    proof {
                        assert forall|x: int, y: int| start.in_bounds(x, y) implies #[trigger] self@.is_mine(x, y)
                            == start.is_mine(x, y) by {
                            if x != i || y != j {
                                assert(self@.tile(x, y) == cur.tile(x, y));
                                assert(cur.is_mine(x, y) == start.is_mine(x, y));
                            } else {
                                assert(!cur.is_mine(x, y));
                                assert(cur.is_mine(x, y) == start.is_mine(x, y));
                            }
                        }
                        assert forall|x: int, y: int|
                            (0 <= x < i && 0 <= y < self.m) || (x == i && 0 <= y < j) implies #[trigger] self@.tile(
                            x,
                            y,
                        ) == cur.tile(x, y) by {
                            assert(x != i || y != j);
                        }
                        assert(self@.tile(i as int, j as int) == count_tile(start.mines_around(i as int, j as int)));
                        assert(cur.is_mine(i as int, j as int) == start.is_mine(i as int, j as int));
                        assert(!start.is_mine(i as int, j as int));
                    }
                } else {
                    proof {
                        assert(self@.is_mine(i as int, j as int));
                        assert(start.is_mine(i as int, j as int));
                    }
                }
                j = j + 1;
            }
            i = i + 1;
        }
        let ghost mid = self@;
        self.counted = true;
        proof {
            let fin = self@;
            assert forall|x: int, y: int| fin.in_bounds(x, y) implies #[trigger] fin.tile(x, y) == mid.tile(x, y)
                && fin.is_shown(x, y) == mid.is_shown(x, y) && fin.is_flagged(x, y) == mid.is_flagged(x, y)
                && fin.is_mine(x, y) == start.is_mine(x, y) by {
                assert(mid.is_mine(x, y) == start.is_mine(x, y));
            }
            assert forall|x: int, y: int| fin.in_bounds(x, y) implies fin.mines_around(x, y) == start.mines_around(
                x,
                y,
            ) && #[trigger] fin.count_is_correct(x, y) by {
                assert(fin.tile(x, y) == if start.is_mine(x, y) {
                    Tile::Mine
                } else {
                    count_tile(start.mines_around(x, y))
                });
            }
            assert(start.reveals_kept(fin));
            assert forall|x: int, y: int| fin.in_bounds(x, y) && #[trigger] fin.is_mine(x, y) implies fin.placed by {
                assert(start.is_mine(x, y));
            }
            assert forall|x: int, y: int|
                fin.in_bounds(x, y) && #[trigger] fin.is_shown(x, y) && fin.is_mine(x, y) implies fin.lost by {
                assert(start.is_mine(x, y) && start.is_shown(x, y));
            }
            assert forall|x: int, y: int|
                fin.in_bounds(x, y) && #[trigger] fin.is_flagged(x, y) implies !fin.is_shown(x, y) by {
                assert(start.is_flagged(x, y));
            }
            if fin.lost {
                assert(!start.won());
                let (x, y) = choose|x: int, y: int|
                    !(start.in_bounds(x, y) && !#[trigger] start.is_mine(x, y) ==> start.is_shown(x, y));
                assert(fin.in_bounds(x, y) && !fin.is_mine(x, y) && !fin.is_shown(x, y));
            }
        }
    }

    /// A board that differs from a well-formed one only in its flags, which
    /// stay off revealed cells, and in its display switch is well-formed.
    proof fn lemma_wf_frame(a: BoardView, b: BoardView)
        requires
            a.wf(),
            b == (BoardView { flags: b.flags, show_all: b.show_all, ..a }),
            b.flags.len() == a.flags.len(),
            forall|x: int, y: int| b.in_bounds(x, y) && #[trigger] b.is_flagged(x, y) ==> !b.is_shown(x, y),
        ensures
            b.wf(),
    {
        assert forall|x: int, y: int| b.in_bounds(x, y) implies {
            &&& #[trigger] b.count_is_correct(x, y) == a.count_is_correct(x, y)
            &&& b.is_shown(x, y) == a.is_shown(x, y)
            &&& b.is_mine(x, y) == a.is_mine(x, y)
        } by {
            assert(b.mines_around(x, y) == a.mines_around(x, y));
        }
        assert forall|x: int, y: int| b.in_bounds(x, y) && #[trigger] b.is_mine(x, y) implies b.placed by {
            assert(a.is_mine(x, y));
        }
        assert forall|x: int, y: int| b.in_bounds(x, y) && #[trigger] b.is_shown(x, y) && b.is_mine(x, y) implies b.lost by {
            assert(a.is_mine(x, y) && a.is_shown(x, y));
        }
        if !b.counted {
            assert forall|x: int, y: int| b.in_bounds(x, y) implies !#[trigger] b.is_shown(x, y) by {
                assert(!a.is_shown(x, y));
            }
        }
        if b.lost {
            let (x, y) = choose|x: int, y: int| !(a.in_bounds(x, y) && !#[trigger] a.is_mine(x, y) ==> a.is_shown(x, y));
            assert(b.in_bounds(x, y) && !b.is_mine(x, y) && !b.is_shown(x, y));
        }
    }

    /// Flips the flag on hidden cell `(r, c)`. On a revealed cell, or off the
    /// board, nothing changes. The number of flags is not limited.
    pub fn toggle_flag(&mut self, r: usize, c: usize)
        requires
            old(self).wf(),
        ensures
            final(self).wf(),
            old(self)@.toggle_effect(r as int, c as int, final(self)@),
            old(self)@.reveals_kept(final(self)@),
            old(self)@.lost ==> final(self)@.lost,
    {
        if r >= self.n || c >= self.m {
            return;
        }
        let i = self.index(r, c);
        if self.shown[i] {
            return;
        }
        let ghost before = self@;
        proof {
            lemma_update_other_cells(self.n as int, self.m as int, self.flag@, r as int, c as int, !self.flag@[i as int]);
        }
        let f = !self.flag[i];
        self.flag.set(i, f);
        proof {
            let after = self@;
            assert forall|x: int, y: int|
                after.in_bounds(x, y) && #[trigger] after.is_flagged(x, y) implies !after.is_shown(x, y) by {
                if x != r || y != c {
                    assert(before.is_flagged(x, y));
                }
            }
            assert(before.reveals_kept(after));
            Self::lemma_wf_frame(before, after);
        }
    }

    /// Flips the flag on the hidden cell under pointer position `(x, y)`.
    pub fn set_flag(&mut self, x: i32, y: i32)
        requires
            old(self).wf(),
        ensures
            final(self).wf(),
            match pointer_tile(x as int, y as int) {
                Some(p) => old(self)@.toggle_effect(p.0, p.1, final(self)@),
                None => final(self)@ == old(self)@,
            },
            old(self)@.reveals_kept(final(self)@),
            old(self)@.lost ==> final(self)@.lost,
    {
        match mouse_key_in_which_tile(x, y) {
            Ok((r, c)) => self.toggle_flag(r, c),
            Err(_) => {},
        }
    }

    /// Reveals the cell under pointer position `(x, y)`, as `reveal_cell`
    /// does; false when that revealed a mine, true otherwise.
    pub fn show_tile(&mut self, x: i32, y: i32) -> (goon: bool)
        requires
            old(self).wf(),
            old(self)@.ready(),
        ensures
            final(self).wf(),
            match pointer_tile(x as int, y as int) {
                Some(p) => {
                    &&& old(self)@.reveal_effect(p.0, p.1, final(self)@)
                    &&& goon == (old(self)@.reveal_outcome(p.0, p.1) != RevealOutcome::HitMine)
                },
                None => final(self)@ == old(self)@ && goon,
            },
            old(self)@.reveals_kept(final(self)@),
            old(self)@.lost ==> final(self)@.lost,
    {
        match mouse_key_in_which_tile(x, y) {
            Ok((r, c)) => {
                let out = self.reveal_cell(r, c);
                out != RevealOutcome::HitMine
            },
            Err(_) => true,
        }
    }

    /// Switches the display of every cell's truth on or off (after the game
    /// ends, or as a debug view). What the player has revealed is unchanged.
    pub fn set_shown(&mut self, flag: bool)
        requires
            old(self).wf(),
        ensures
            final(self).wf(),
            final(self)@ == (BoardView { show_all: flag, ..old(self)@ }),
            old(self)@.reveals_kept(final(self)@),
            old(self)@.lost ==> final(self)@.lost,
    {
        let ghost before = self@;
        self.show_all = flag;
        proof {
            let after = self@;
            assert forall|x: int, y: int|
                after.in_bounds(x, y) && #[trigger] after.is_flagged(x, y) implies !after.is_shown(x, y) by {
                assert(before.is_flagged(x, y));
            }
            assert(before.reveals_kept(after));
            Self::lemma_wf_frame(before, after);
        }
    }

    /// What a renderer is shown of cell `(r, c)`.
    pub fn cell_view(&self, r: usize, c: usize) -> (v: CellView)
        requires
            self.wf(),
            self@.in_bounds(r as int, c as int),
        ensures
            v == self@.visible(r as int, c as int),
    {
        let i = self.index(r, c);
        if self.show_all || self.shown[i] {
            CellView::Revealed(self.data[i])
        } else if self.flag[i] {
            CellView::Flagged
        } else {
            CellView::Hidden
        }
    }

    /// Whether a mine was revealed in this session.
    pub fn is_lost(&self) -> (r: bool)
        ensures
            r == self@.lost,
    {
        self.lost
    }

    /// Whether mines are placed and counted, so that cells may be revealed.
    pub fn is_ready(&self) -> (r: bool)
        ensures
            r == self@.ready(),
    {
        self.counted
    }

    pub fn rows(&self) -> (r: usize)
        ensures
            r == self@.rows,
    {
        self.n
    }

    pub fn cols(&self) -> (r: usize)
        ensures
            r == self@.cols,
    {
        self.m
    }
}

} // verus!
