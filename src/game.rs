use crate::cell::{
    hidden_count, lemma_hidden_count_uncover, lemma_mine_count_le_len, lemma_mine_count_same, mine_count, mine_spec, valid_value, Cellule, State,
};
use vstd::prelude::*;

verus! {

/// The messages that the view sends to the game.
pub enum Msg {
    Start,
    Reset,
    ToggleCellule(usize),
    ToggleMark(usize),
    Stop,
}

/// The lifecycle of a game: New, then InProgress after the first reveal,
/// then Over once a mine is revealed.
#[derive(Clone, Copy, Debug, PartialEq, Eq, Structural)]
pub enum GameState {
    New,
    InProgress,
    Over,
}

/// The game engine: a grid of `cellules_width * cellules_height` cells in
/// row-major order, framed by a border of Outside cells.
pub struct App {
    state: GameState,
    cellules: Vec<Cellule>,
    cellules_width: usize,
    cellules_height: usize,
}

/// What a game is, mathematically.
pub struct GameView {
    pub state: GameState,
    pub cells: Seq<Cellule>,
    pub width: int,
    pub height: int,
}

impl View for App {
    type V = GameView;

    closed spec fn view(&self) -> GameView {
        GameView {
            state: self.state,
            cells: self.cellules@,
            width: self.cellules_width as int,
            height: self.cellules_height as int,
        }
    }
}

/// One fold of a coordinate into `[0, range)`.
pub open spec fn wrap_spec(coord: int, range: int) -> int {
    if coord < 0 {
        coord + range
    } else if coord >= range {
        coord - range
    } else {
        coord
    }
}

/// Row offset of the `k`-th neighbour.
pub open spec fn dr(k: int) -> int {
    if k == 0 || k == 1 || k == 2 {
        1
    } else if k == 3 || k == 4 || k == 5 {
        -1
    } else {
        0
    }
}

/// Column offset of the `k`-th neighbour.
pub open spec fn dc(k: int) -> int {
    if k == 1 || k == 4 || k == 7 {
        1
    } else if k == 2 || k == 5 || k == 6 {
        -1
    } else {
        0
    }
}

/// The flat index of a (possibly one-off) coordinate pair.
pub open spec fn idx_of(w: int, h: int, row: int, col: int) -> int {
    wrap_spec(row, h) * w + wrap_spec(col, w)
}

/// The flat index of the `k`-th neighbour (`0 <= k < 8`) of cell `i`.
pub open spec fn nbr(w: int, h: int, i: int, k: int) -> int {
    idx_of(w, h, i / w + dr(k), i % w + dc(k))
}

/// Cell `j` is one of the first `n` neighbours of cell `i`.
pub open spec fn nbr_upto(w: int, h: int, i: int, j: int, n: int) -> bool {
    exists|k: int| 0 <= k < n && #[trigger] nbr(w, h, i, k) == j
}

/// Cell `j` is one of the eight neighbours of cell `i`.
pub open spec fn is_nbr(w: int, h: int, i: int, j: int) -> bool {
    nbr_upto(w, h, i, j, 8)
}

/// Cell `i` lies in the sentinel frame.
pub open spec fn is_border(w: int, h: int, i: int) -> bool {
    i / w == 0 || i / w == h - 1 || i % w == 0 || i % w == w - 1
}

/// The eight neighbours of cell `i`, in neighbour order.
pub open spec fn nbr_cells(cells: Seq<Cellule>, w: int, h: int, i: int) -> Seq<Cellule> {
    Seq::new(8, |k: int| cells[nbr(w, h, i, k)])
}

/// The number of mines among the neighbours of cell `i`.
pub open spec fn nbr_mines(cells: Seq<Cellule>, w: int, h: int, i: int) -> nat {
    mine_count(nbr_cells(cells, w, h, i))
}

impl GameView {
    /// The grid is at least 3 by 3, its border is Outside and cleared, no
    /// interior cell is Outside, every value is in its domain, and a new
    /// game holds no marks.
    pub open spec fn wf(self) -> bool {
        &&& self.width >= 3
        &&& self.height >= 3
        &&& self.cells.len() == self.width * self.height
        &&& self.width * self.height <= isize::MAX
        &&& forall|i: int|
            0 <= i < self.cells.len() && is_border(self.width, self.height, i) ==> #[trigger] self.cells[i]
                == (Cellule { state: State::Outside, val: -2i8 })
        &&& forall|i: int|
            0 <= i < self.cells.len() && !is_border(self.width, self.height, i) ==> #[trigger] self.cells[i].state
                != State::Outside
        &&& forall|i: int| 0 <= i < self.cells.len() ==> valid_value(#[trigger] self.cells[i].val as int)
        &&& self.state == GameState::New ==> forall|i: int|
            0 <= i < self.cells.len() ==> #[trigger] self.cells[i].state != State::Marked
    }

    /// The same grid shape and game state.
    pub open spec fn same_frame(self, o: GameView) -> bool {
        &&& o.width == self.width
        &&& o.height == self.height
        &&& o.cells.len() == self.cells.len()
    }
}

/// `b` is `a` after mines were laid with `draws` (one byte per cell, a mine
/// where the byte is below 25) and then cleared from `idx` and its
/// neighbours, and every interior cell that is not a mine counts the mines
/// round it. The border stays.
pub open spec fn placed(a: GameView, b: GameView, idx: int, draws: Seq<u8>) -> bool {
    let (w, h) = (a.width, a.height);
    &&& a.same_frame(b)
    &&& forall|i: int|
        0 <= i < a.cells.len() && is_border(w, h, i) ==> #[trigger] b.cells[i] == a.cells[i]
    &&& forall|i: int|
        0 <= i < a.cells.len() && !is_border(w, h, i) && (i == idx || is_nbr(w, h, idx, i))
            ==> #[trigger] b.cells[i].state == State::Hidden && !mine_spec(b.cells[i])
    &&& forall|i: int|
        0 <= i < a.cells.len() && !is_border(w, h, i) && !(i == idx || is_nbr(w, h, idx, i))
            ==> #[trigger] b.cells[i].state == a.cells[i].state && mine_spec(b.cells[i]) == (
        draws[i] < 25 || mine_spec(a.cells[i]))
    &&& forall|i: int|
        0 <= i < a.cells.len() && !is_border(w, h, i) && !mine_spec(#[trigger] b.cells[i])
            ==> b.cells[i].val == nbr_mines(b.cells, w, h, i)
}

/// No neighbour of cell `i` is hidden.
pub open spec fn closed_at(v: GameView, i: int) -> bool {
    forall|k: int|
        0 <= k < 8 ==> v.cells[#[trigger] nbr(v.width, v.height, i, k)].state != State::Hidden
}

/// Cell `i`, hidden in `a`, is a revealed zero in `b`.
pub open spec fn newly_zero(a: GameView, b: GameView, i: int) -> bool {
    &&& a.cells[i].state == State::Hidden
    &&& b.cells[i].state == State::Revealed
    &&& b.cells[i].val == 0
}

/// Cell `i` borders `idx`, or a zero uncovered between `a` and `b` that
/// `rank` puts before it.
pub open spec fn justified(a: GameView, b: GameView, idx: int, rank: Seq<int>, i: int) -> bool {
    ||| is_nbr(a.width, a.height, idx, i)
    ||| exists|j: int|
        0 <= j < a.cells.len() && #[trigger] newly_zero(a, b, j) && is_nbr(a.width, a.height, j, i)
            && rank[j] < rank[i]
}

/// Ordered by `rank`, every cell revealed between `a` and `b` borders `idx`
/// or a zero revealed before it: each traces back to `idx` through zeros.
pub open spec fn reveal_order(a: GameView, b: GameView, idx: int, rank: Seq<int>) -> bool {
    &&& rank.len() == a.cells.len()
    &&& forall|i: int|
        0 <= i < a.cells.len() && a.cells[i].state == State::Hidden && #[trigger] b.cells[i].state
            == State::Revealed ==> justified(a, b, idx, rank, i)
}

/// `b` is `a` after a flood reveal from `idx`: only hidden cells change, and
/// only to revealed; each cell revealed is reached from `idx` through zeros;
/// no neighbour of `idx`, nor of any zero it uncovered, is left hidden; and
/// where no neighbour of `idx` was hidden nothing changes.
pub open spec fn flooded(a: GameView, b: GameView, idx: int) -> bool {
    &&& a.same_frame(b)
    &&& forall|i: int| 0 <= i < a.cells.len() ==> #[trigger] b.cells[i].val == a.cells[i].val
    &&& forall|i: int|
        0 <= i < a.cells.len() && a.cells[i].state != State::Hidden ==> #[trigger] b.cells[i]
            == a.cells[i]
    &&& forall|i: int|
        0 <= i < a.cells.len() && a.cells[i].state == State::Hidden ==> (#[trigger] b.cells[i].state
            == State::Hidden || b.cells[i].state == State::Revealed)
    &&& exists|rank: Seq<int>| #[trigger] reveal_order(a, b, idx, rank)
    &&& closed_at(b, idx)
    &&& forall|i: int| 0 <= i < a.cells.len() && #[trigger] newly_zero(a, b, i) ==> closed_at(b, i)
    &&& closed_at(a, idx) ==> b.cells == a.cells
}

/// `v` with cell `i` revealed if it was hidden.
pub open spec fn uncover(v: GameView, i: int) -> GameView {
    if v.cells[i].state == State::Hidden {
        GameView {
            cells: v.cells.update(i, Cellule { state: State::Revealed, ..v.cells[i] }),
            ..v
        }
    } else {
        v
    }
}

/// `v` with cell `i` toggled between hidden and marked.
pub open spec fn toggle_mark_at(v: GameView, i: int) -> GameView {
    let c = v.cells[i];
    GameView {
        cells: v.cells.update(
            i,
            if c.state == State::Marked {
                Cellule { state: State::Hidden, ..c }
            } else if c.state == State::Hidden {
                Cellule { state: State::Marked, ..c }
            } else {
                c
            },
        ),
        ..v
    }
}

/// `v` with every interior cell hidden and cleared, in a new game.
pub open spec fn cleared_game(v: GameView) -> GameView {
    GameView {
        state: GameState::New,
        cells: Seq::new(
            v.cells.len(),
            |i: int|
                if is_border(v.width, v.height, i) {
                    v.cells[i]
                } else {
                    Cellule { state: State::Hidden, val: -2i8 }
                },
        ),
        ..v
    }
}

/// `b` is `a` after a reveal of cell `idx`, mines being laid from `draws`
/// if the game is new. A new game lays its mines safely round `idx`,
/// reveals `idx` and floods from it, and is then in progress. A game in
/// progress reveals `idx` if it is hidden: a mine ends the game, a zero
/// floods, any other value is shown alone. Anything else changes nothing.
pub open spec fn revealed(a: GameView, b: GameView, idx: int, draws: Seq<u8>) -> bool {
    let c = a.cells[idx];
    &&& a.same_frame(b)
    &&& a.state == GameState::Over ==> b == a
    &&& a.state == GameState::InProgress && c.state != State::Hidden ==> b == a
    &&& a.state == GameState::InProgress && c.state == State::Hidden && mine_spec(c) ==> b == (
    GameView { state: GameState::Over, ..uncover(a, idx) })
    &&& a.state == GameState::InProgress && c.state == State::Hidden && !mine_spec(c) && c.val != 0
        ==> b == uncover(a, idx)
    &&& a.state == GameState::InProgress && c.state == State::Hidden && c.val == 0 ==> b.state
        == GameState::InProgress && flooded(uncover(a, idx), b, idx)
    &&& a.state == GameState::New ==> b.state == GameState::InProgress && exists|p: GameView|
        #[trigger] placed(a, p, idx, draws) && flooded(uncover(p, idx), b, idx)
}

proof fn lemma_push_contains(s: Seq<usize>, x: usize, i: usize)
    requires
        s.contains(i),
    ensures
        s.push(x).contains(i),
{
    let p = choose|p: int| 0 <= p < s.len() && s[p] == i;
    assert(s.push(x)[p] == i);
}

proof fn lemma_pop_contains(s: Seq<usize>, i: usize)
    requires
        s.len() > 0,
        s.contains(i),
        i != s.last(),
    ensures
        s.drop_last().contains(i),
{
    let p = choose|p: int| 0 <= p < s.len() && s[p] == i;
    assert(s.drop_last()[p] == i);
}

/// Coordinates of a flat index.
proof fn lemma_coords(w: int, h: int, i: int)
    requires
        w > 0,
        h > 0,
        0 <= i < w * h,
    ensures
        0 <= i / w < h,
        0 <= i % w < w,
        (i / w) * w + i % w == i,
{
    vstd::arithmetic::div_mod::lemma_fundamental_div_mod(i, w);
    let q = i / w;
    let r = i % w;
    assert(0 <= q < h) by (nonlinear_arith)
        requires
            i == w * q + r,
            0 <= r < w,
            0 <= i < w * h,
    ;
    assert((i / w) * w == w * (i / w)) by (nonlinear_arith);
}

/// A coordinate pair inside the grid has a flat index inside the grid.
proof fn lemma_flat(w: int, h: int, row: int, col: int)
    requires
        w > 0,
        0 <= row < h,
        0 <= col < w,
    ensures
        0 <= row * w + col < w * h,
        (row * w + col) / w == row,
        (row * w + col) % w == col,
{
    assert(0 <= row * w + col < w * h) by (nonlinear_arith)
        requires
            w > 0,
            0 <= row < h,
            0 <= col < w,
    ;
    vstd::arithmetic::div_mod::lemma_fundamental_div_mod_converse_div(row * w + col, w, row, col);
    vstd::arithmetic::div_mod::lemma_fundamental_div_mod_converse_mod(row * w + col, w, row, col);
}

/// Every neighbour of a cell of the grid is a cell of the grid.
pub proof fn lemma_nbr_in_grid(w: int, h: int, i: int, k: int)
    requires
        w >= 3,
        h >= 3,
        0 <= i < w * h,
        0 <= k < 8,
    ensures
        0 <= nbr(w, h, i, k) < w * h,
{
    lemma_coords(w, h, i);
    lemma_flat(w, h, wrap_spec(i / w + dr(k), h), wrap_spec(i % w + dc(k), w));
}

/// Fold `coord` into `[0, range)`, for a coordinate at most one step outside.
pub fn wrap(coord: isize, range: isize) -> (r: usize)
    requires
        range > 0,
        -range <= coord < 2 * range,
    ensures
        r == wrap_spec(coord as int, range as int),
        r < range,
{
    let result = if coord < 0 {
        coord + range
    } else if coord >= range {
        coord - range
    } else {
        coord
    };
    result as usize
}

/// Relies on rand::thread_rng and rand::Rng::gen::<u8>: one byte from the
/// thread's generator, of which nothing is known.
#[verifier::external_body]
fn random_byte() -> (r: u8) {
    rand::Rng::gen::<u8>(&mut rand::thread_rng())
}

/// `n` random bytes.
fn random_draws(n: usize) -> (r: Vec<u8>)
    ensures
        r@.len() == n,
{
    let mut draws: Vec<u8> = Vec::new();
    let mut i: usize = 0;
    while i < n
        invariant
            i <= n,
            draws@.len() == i,
        decreases n - i,
    {
        draws.push(random_byte());
        i = i + 1;
    }
    draws
}

impl App {
    /// The grid is well formed.
    pub open spec fn wf(&self) -> bool {
        self@.wf()
    }

    proof fn lemma_dims(&self)
        requires
            self.wf(),
        ensures
            (self.cellules_height as int) * 3 <= self@.cells.len(),
            (self.cellules_width as int) * 3 <= self@.cells.len(),
            self.cellules_height < isize::MAX,
            self.cellules_width < isize::MAX,
    {
        let w = self.cellules_width as int;
        let h = self.cellules_height as int;
        assert(h * 3 <= w * h && w * 3 <= w * h) by (nonlinear_arith)
            requires
                w >= 3,
                h >= 3,
        ;
    }

    /// The flat index of `(row, col)`, each folded once into the grid.
    pub fn row_col_as_idx(&self, row: isize, col: isize) -> (r: usize)
        requires
            self.wf(),
            -1 <= row <= self@.height,
            -1 <= col <= self@.width,
        ensures
            r == idx_of(self@.width, self@.height, row as int, col as int),
            r < self@.cells.len(),
    {
        proof {
            self.lemma_dims();
        }
        let row = wrap(row, self.cellules_height as isize);
        let col = wrap(col, self.cellules_width as isize);
        proof {
            lemma_flat(self@.width, self@.height, row as int, col as int);
        }
        row * self.cellules_width + col
    }

    /// The flat indices of the eight neighbours of `(row, col)`.
    pub fn ref_neighbors(&self, row: isize, col: isize) -> (r: [usize; 8])
        requires
            self.wf(),
            0 <= row < self@.height,
            0 <= col < self@.width,
        ensures
            forall|k: int|
                0 <= k < 8 ==> #[trigger] r@[k] == idx_of(
                    self@.width,
                    self@.height,
                    row + dr(k),
                    col + dc(k),
                ) && r@[k] < self@.cells.len(),
    {
        proof {
            self.lemma_dims();
        }
        [
            self.row_col_as_idx(row + 1, col),
            self.row_col_as_idx(row + 1, col + 1),
            self.row_col_as_idx(row + 1, col - 1),
            self.row_col_as_idx(row - 1, col),
            self.row_col_as_idx(row - 1, col + 1),
            self.row_col_as_idx(row - 1, col - 1),
            self.row_col_as_idx(row, col - 1),
            self.row_col_as_idx(row, col + 1),
        ]
    }

    /// The eight neighbours of `(row, col)`.
    pub fn neighbors(&self, row: isize, col: isize) -> (r: [Cellule; 8])
        requires
            self.wf(),
            0 <= row < self@.height,
            0 <= col < self@.width,
        ensures
            forall|k: int|
                0 <= k < 8 ==> #[trigger] r@[k] == self@.cells[idx_of(
                    self@.width,
                    self@.height,
                    row + dr(k),
                    col + dc(k),
                )],
    {
        proof {
            self.lemma_dims();
        }
        [
            self.cellules[self.row_col_as_idx(row + 1, col)],
            self.cellules[self.row_col_as_idx(row + 1, col + 1)],
            self.cellules[self.row_col_as_idx(row + 1, col - 1)],
            self.cellules[self.row_col_as_idx(row - 1, col)],
            self.cellules[self.row_col_as_idx(row - 1, col + 1)],
            self.cellules[self.row_col_as_idx(row - 1, col - 1)],
            self.cellules[self.row_col_as_idx(row, col - 1)],
            self.cellules[self.row_col_as_idx(row, col + 1)],
        ]
    }

    /// A new game of `width` by `height` cells: an Outside frame round
    /// hidden, cleared cells, waiting for its first reveal.
    pub fn new(width: usize, height: usize) -> (r: Self)
        requires
            3 <= width,
            3 <= height,
            width * height <= isize::MAX,
        ensures
            r.wf(),
            r@.state == GameState::New,
            r@.width == width,
            r@.height == height,
            forall|i: int|
                0 <= i < r@.cells.len() && !is_border(r@.width, r@.height, i) ==> #[trigger] r@.cells[i]
                    == (Cellule { state: State::Hidden, val: -2i8 }),
    {
        let n = width * height;
        let mut cellules: Vec<Cellule> = Vec::new();
        let mut i: usize = 0;
        while i < n
            invariant
                n == width * height,
                i <= n,
                cellules@.len() == i,
                forall|j: int|
                    0 <= j < i ==> #[trigger] cellules@[j] == if is_border(
                        width as int,
                        height as int,
                        j,
                    ) {
                        Cellule { state: State::Outside, val: -2i8 }
                    } else {
                        Cellule { state: State::Hidden, val: -2i8 }
                    },
            decreases n - i,
        {
            let row = i / width;
            let col = i % width;
            let mut c = Cellule::new_empty();
            if !(row == 0 || row == height - 1 || col == 0 || col == width - 1) {
                c.reset();
            }
            cellules.push(c);
            i = i + 1;
        }
        App { state: GameState::New, cellules, cellules_width: width, cellules_height: height }
    }

    /// Clears every interior cell to hidden and unset and starts a new game;
    /// the border stays as it is.
    pub fn reset(&mut self)
        requires
            old(self).wf(),
        ensures
            final(self).wf(),
            old(self)@.same_frame(final(self)@),
            final(self)@ == cleared_game(old(self)@),
    {
        let n = self.cellules.len();
        let mut i: usize = 0;
        while i < n
            invariant
                self.wf(),
                old(self)@.same_frame(self@),
                n == self@.cells.len(),
                i <= n,
                forall|j: int|
                    0 <= j < n ==> #[trigger] self@.cells[j] == if j < i && !is_border(
                        self@.width,
                        self@.height,
                        j,
                    ) {
                        Cellule { state: State::Hidden, val: -2i8 }
                    } else {
                        old(self)@.cells[j]
                    },
            decreases n - i,
        {
            if self.cellules[i].state != State::Outside {
                self.cellules[i].reset();
            }
            i = i + 1;
        }
        self.state = GameState::New;
        assert(self@.cells =~= cleared_game(old(self)@).cells);
    }

    /// The same as [`App::reset`]: a fresh game on a cleared grid.
    pub fn start(&mut self)
        requires
            old(self).wf(),
        ensures
            final(self).wf(),
            old(self)@.same_frame(final(self)@),
            final(self)@ == cleared_game(old(self)@),
    {
        self.reset();
    }

    /// Lays mines with one byte of `draws` per cell (a mine where the byte
    /// is below 25), clears `idx` and its neighbours, and counts the mines
    /// round every interior cell that is not one.
    pub fn place_mines_safe(&mut self, idx: usize, draws: &[u8])
        requires
            old(self).wf(),
            idx < old(self)@.cells.len(),
            draws@.len() == old(self)@.cells.len(),
        ensures
            final(self).wf(),
            final(self)@.state == old(self)@.state,
            placed(old(self)@, final(self)@, idx as int, draws@),
    {
        let n = self.cellules.len();
        let w = self.cellules_width;
        let ghost g0 = self@;
        let mut i: usize = 0;
        while i < n
            invariant
                self.wf(),
                g0.same_frame(self@),
                self@.state == g0.state,
                self@.width == w,
                n == self@.cells.len(),
                draws@.len() == n,
                i <= n,
                forall|j: int|
                    0 <= j < n && !is_border(self@.width, self@.height, j) ==> #[trigger] self@.cells[j].state
                        == g0.cells[j].state && mine_spec(self@.cells[j]) == ((j < i && draws@[j]
                        < 25) || mine_spec(g0.cells[j])) && (!mine_spec(self@.cells[j])
                        ==> self@.cells[j] == g0.cells[j]),
            decreases n - i,
        {
            if self.cellules[i].state != State::Outside && draws[i] < 25 {
                self.cellules[i].set_mine();
            }
            i = i + 1;
        }
        let ghost g1 = self@;
        proof {
            lemma_coords(self@.width, self@.height, idx as int);
            self.lemma_dims();
        }
        let around = self.ref_neighbors((idx / w) as isize, (idx % w) as isize);
        if self.cellules[idx].state != State::Outside {
            self.cellules[idx].reset();
        }
        let mut k: usize = 0;
        while k < 8
            invariant
                self.wf(),
                g0.same_frame(self@),
                self@.state == g0.state,
                n == self@.cells.len(),
                idx < n,
                k <= 8,
                forall|m: int|
                    0 <= m < 8 ==> #[trigger] around@[m] == nbr(
                        self@.width,
                        self@.height,
                        idx as int,
                        m,
                    ) && around@[m] < n,
                forall|j: int|
                    0 <= j < n ==> #[trigger] self@.cells[j] == if !is_border(
                        self@.width,
                        self@.height,
                        j,
                    ) && (j == idx || nbr_upto(self@.width, self@.height, idx as int, j, k as int)) {
                        Cellule { state: State::Hidden, val: -2i8 }
                    } else {
                        g1.cells[j]
                    },
            decreases 8 - k,
        {
            let j = around[k];
            if self.cellules[j].state != State::Outside {
                self.cellules[j].reset();
            }
            k = k + 1;
        }
        let ghost g2 = self@;
        let mut i: usize = 0;
        while i < n
            invariant
                self.wf(),
                g0.same_frame(self@),
                self@.state == g0.state,
                self@.width == w,
                g2 == (GameView { cells: g2.cells, ..self@ }),
                g2.cells.len() == n,
                n == self@.cells.len(),
                i <= n,
                forall|j: int|
                    0 <= j < n ==> #[trigger] self@.cells[j].state == g2.cells[j].state && mine_spec(
                        self@.cells[j],
                    ) == mine_spec(g2.cells[j]),
                forall|j: int|
                    0 <= j < n && !is_border(self@.width, self@.height, j) && !mine_spec(
                        #[trigger] self@.cells[j],
                    ) ==> if j < i {
                        self@.cells[j].val == nbr_mines(g2.cells, self@.width, self@.height, j)
                    } else {
                        self@.cells[j] == g2.cells[j]
                    },
            decreases n - i,
        {
            if self.cellules[i].state != State::Outside {
                proof {
                    lemma_coords(self@.width, self@.height, i as int);
                }
                let around = self.neighbors((i / w) as isize, (i % w) as isize);
                proof {
                    let (ww, hh) = (self@.width, self@.height);
                    assert forall|m: int| 0 <= m < 8 implies mine_spec(#[trigger] around@[m])
                        == mine_spec(nbr_cells(g2.cells, ww, hh, i as int)[m]) by {
                        lemma_nbr_in_grid(ww, hh, i as int, m);
                    }
                    lemma_mine_count_same(around@, nbr_cells(g2.cells, ww, hh, i as int));
                    lemma_mine_count_le_len(around@);
                }
                self.cellules[i].set_value(&around);
            }
            i = i + 1;
        }
        proof {
            let (ww, hh) = (self@.width, self@.height);
            assert forall|j: int|
                0 <= j < n && !is_border(ww, hh, j) && !mine_spec(
                    #[trigger] self@.cells[j],
                ) implies self@.cells[j].val == nbr_mines(self@.cells, ww, hh, j) by {
                assert forall|m: int| 0 <= m < 8 implies mine_spec(
                    #[trigger] nbr_cells(self@.cells, ww, hh, j)[m],
                ) == mine_spec(nbr_cells(g2.cells, ww, hh, j)[m]) by {
                    lemma_nbr_in_grid(ww, hh, j, m);
                    let q = nbr(ww, hh, j, m);
                    assert(self@.cells[q].state == g2.cells[q].state);
                }
                lemma_mine_count_same(nbr_cells(self@.cells, ww, hh, j), nbr_cells(g2.cells, ww, hh, j));
            }
        }
    }

    /// Reveals outward from `idx`: every hidden neighbour is revealed, and
    /// the neighbourhood of each revealed zero in turn. Marked cells stay.
    pub fn expand_zero(&mut self, idx: usize)
        requires
            old(self).wf(),
            idx < old(self)@.cells.len(),
        ensures
            final(self).wf(),
            final(self)@.state == old(self)@.state,
            flooded(old(self)@, final(self)@, idx as int),
    {
        let n = self.cellules.len();
        let w = self.cellules_width;
        let ghost g0 = self@;
        let ghost mut rank: Seq<int> = Seq::new(n as nat, |i: int| 0int);
        let ghost mut clock: int = 0;
        let mut stack: Vec<usize> = Vec::new();
        stack.push(idx);
        assert(stack@[0] == idx);
        while stack.len() > 0
            invariant
                self.wf(),
                g0.same_frame(self@),
                self@.state == g0.state,
                self@.width == w,
                n == self@.cells.len(),
                idx < n,
                forall|p: int| 0 <= p < stack@.len() ==> #[trigger] stack@[p] < n,
                forall|i: int| 0 <= i < n ==> #[trigger] self@.cells[i].val == g0.cells[i].val,
                forall|i: int|
                    0 <= i < n && g0.cells[i].state != State::Hidden ==> #[trigger] self@.cells[i]
                        == g0.cells[i],
                forall|i: int|
                    0 <= i < n && g0.cells[i].state == State::Hidden ==> (
                    #[trigger] self@.cells[i].state == State::Hidden || self@.cells[i].state
                        == State::Revealed),
                forall|i: int|
                    0 <= i < n && #[trigger] newly_zero(g0, self@, i) ==> stack@.contains(
                        i as usize,
                    ) || closed_at(self@, i),
                stack@.contains(idx) || closed_at(self@, idx as int),
                closed_at(g0, idx as int) ==> self@.cells == g0.cells && forall|p: int|
                    0 <= p < stack@.len() ==> #[trigger] stack@[p] == idx,
                forall|p: int|
                    0 <= p < stack@.len() ==> #[trigger] stack@[p] == idx || newly_zero(
                        g0,
                        self@,
                        stack@[p] as int,
                    ),
                rank.len() == n,
                forall|i: int|
                    0 <= i < n && g0.cells[i].state == State::Hidden && #[trigger] self@.cells[i].state
                        == State::Revealed ==> justified(g0, self@, idx as int, rank, i) && rank[i]
                        < clock,
            decreases 9 * hidden_count(self@.cells) + stack@.len(),
        {
            let ghost measure = 9 * hidden_count(self@.cells) + stack@.len();
            let ghost s0 = stack@;
            let j = stack.pop().unwrap();
            proof {
                assert(s0[s0.len() - 1] == j);
                assert(stack@ =~= s0.drop_last());
                assert forall|p: int| 0 <= p < stack@.len() implies #[trigger] stack@[p] == idx
                    || newly_zero(g0, self@, stack@[p] as int) by {
                    assert(stack@[p] == s0[p]);
                }
                assert forall|i: usize| s0.contains(i) && i != j implies stack@.contains(i) by {
                    lemma_pop_contains(s0, i);
                }
                lemma_coords(self@.width, self@.height, j as int);
                self.lemma_dims();
            }
            let around = self.ref_neighbors((j / w) as isize, (j % w) as isize);
            let mut k: usize = 0;
            while k < 8
                invariant
                    self.wf(),
                    g0.same_frame(self@),
                    self@.state == g0.state,
                    self@.width == w,
                    n == self@.cells.len(),
                    idx < n,
                    j < n,
                    k <= 8,
                    forall|m: int|
                        0 <= m < 8 ==> #[trigger] around@[m] == nbr(
                            self@.width,
                            self@.height,
                            j as int,
                            m,
                        ) && around@[m] < n,
                    forall|p: int| 0 <= p < stack@.len() ==> #[trigger] stack@[p] < n,
                    forall|i: int| 0 <= i < n ==> #[trigger] self@.cells[i].val == g0.cells[i].val,
                    forall|i: int|
                        0 <= i < n && g0.cells[i].state != State::Hidden ==> #[trigger] self@.cells[i]
                            == g0.cells[i],
                    forall|i: int|
                        0 <= i < n && g0.cells[i].state == State::Hidden ==> (
                        #[trigger] self@.cells[i].state == State::Hidden || self@.cells[i].state
                            == State::Revealed),
                    forall|m: int|
                        0 <= m < k ==> self@.cells[#[trigger] around@[m] as int].state
                            != State::Hidden,
                    forall|i: int|
                        0 <= i < n && #[trigger] newly_zero(g0, self@, i) ==> stack@.contains(
                            i as usize,
                        ) || closed_at(self@, i) || i == j,
                    stack@.contains(idx) || closed_at(self@, idx as int) || j == idx,
                    closed_at(g0, idx as int) ==> j == idx && self@.cells == g0.cells && forall|p: int|
                        0 <= p < stack@.len() ==> #[trigger] stack@[p] == idx,
                    j == idx || newly_zero(g0, self@, j as int),
                    forall|p: int|
                        0 <= p < stack@.len() ==> #[trigger] stack@[p] == idx || newly_zero(
                            g0,
                            self@,
                            stack@[p] as int,
                        ),
                    rank.len() == n,
                    forall|i: int|
                        0 <= i < n && g0.cells[i].state == State::Hidden
                            && #[trigger] self@.cells[i].state == State::Revealed ==> justified(
                            g0,
                            self@,
                            idx as int,
                            rank,
                            i,
                        ) && rank[i] < clock,
                    9 * hidden_count(self@.cells) + stack@.len() < measure,
                decreases 8 - k,
            {
                let t = around[k];
                if self.cellules[t].is_hidden() {
                    let ghost c0 = self@;
                    let ghost st0 = stack@;
                    let ghost w0 = rank;
                    self.cellules[t].toggle();
                    proof {
                        rank = rank.update(t as int, clock);
                        clock = clock + 1;
                    }
                    proof {
                        lemma_hidden_count_uncover(c0.cells, t as int, self@.cells[t as int]);
                        assert(self@.cells == c0.cells.update(t as int, self@.cells[t as int]));
                    }
                    if self.cellules[t].is_zero() {
                        stack.push(t);
                        proof {
                            assert(stack@[stack@.len() - 1] == t);
                        }
                    }
                    proof {
                        assert forall|i: usize| st0.contains(i) implies stack@.contains(i) by {
                            if stack@ != st0 {
                                lemma_push_contains(st0, t, i);
                            }
                        }
                        assert forall|i: int| 0 <= i < n && closed_at(c0, i) implies closed_at(
                            self@,
                            i,
                        ) by {
                            assert forall|kk: int| 0 <= kk < 8 implies self@.cells[#[trigger] nbr(
                                self@.width,
                                self@.height,
                                i,
                                kk,
                            )].state != State::Hidden by {
                                let q = nbr(self@.width, self@.height, i, kk);
                                lemma_nbr_in_grid(self@.width, self@.height, i, kk);
                                assert(c0.cells[q].state != State::Hidden);
                            }
                        }
                        assert forall|x: int| 0 <= x < n && #[trigger] newly_zero(g0, c0, x) implies newly_zero(
                            g0,
                            self@,
                            x,
                        ) by {
                            assert(x != t);
                        }
                        assert forall|p: int| 0 <= p < stack@.len() implies #[trigger] stack@[p]
                            == idx || newly_zero(g0, self@, stack@[p] as int) by {
                            if p < st0.len() {
                                assert(stack@[p] == st0[p]);
                                if st0[p] != idx {
                                    assert(newly_zero(g0, c0, st0[p] as int));
                                }
                            } else {
                                assert(stack@[p] == t);
                                assert(g0.cells[t as int].state == State::Hidden);
                            }
                        }
                        assert forall|i: int|
                            0 <= i < n && g0.cells[i].state == State::Hidden
                                && #[trigger] self@.cells[i].state == State::Revealed implies justified(
                            g0,
                            self@,
                            idx as int,
                            rank,
                            i,
                        ) && rank[i] < clock by {
                            let (ww, hh) = (g0.width, g0.height);
                            if i == t {
                                assert(nbr(ww, hh, j as int, k as int) == t);
                                if j == idx {
                                    assert(is_nbr(ww, hh, idx as int, i));
                                } else {
                                    assert(newly_zero(g0, c0, j as int));
                                    assert(c0.cells[j as int].state == State::Revealed);
                                    assert(w0[j as int] < clock - 1);
                                    assert(newly_zero(g0, self@, j as int));
                                    assert(is_nbr(ww, hh, j as int, i));
                                    assert(rank[j as int] < rank[i]);
                                }
                            } else {
                                assert(c0.cells[i].state == State::Revealed);
                                assert(justified(g0, c0, idx as int, w0, i));
                                if !is_nbr(ww, hh, idx as int, i) {
                                    let jj = choose|jj: int|
                                        0 <= jj < n && #[trigger] newly_zero(g0, c0, jj) && is_nbr(
                                            ww,
                                            hh,
                                            jj,
                                            i,
                                        ) && w0[jj] < w0[i];
                                    assert(newly_zero(g0, self@, jj));
                                    assert(jj != t);
                                }
                            }
                        }
                        assert forall|i: int|
                            0 <= i < n && #[trigger] newly_zero(g0, self@, i) implies stack@.contains(
                                i as usize,
                            ) || closed_at(self@, i) || i == j by {
                            if i != t {
                                assert(newly_zero(g0, c0, i));
                            } else {
                                assert(g0.cells[i].state == State::Hidden);
                            }
                        }
                    }
                }
                k = k + 1;
            }
            proof {
                assert forall|m: int| 0 <= m < 8 implies self@.cells[#[trigger] nbr(
                    self@.width,
                    self@.height,
                    j as int,
                    m,
                )].state != State::Hidden by {
                    assert(self@.cells[around@[m] as int].state != State::Hidden);
                }
            }
        }
        assert(reveal_order(g0, self@, idx as int, rank));
    }

    /// Lays mines at random, clears `idx` and its neighbours, and counts the
    /// mines round every other cell.
    pub fn random_mutate(&mut self, idx: usize)
        requires
            old(self).wf(),
            idx < old(self)@.cells.len(),
        ensures
            final(self).wf(),
            final(self)@.state == old(self)@.state,
            exists|d: Seq<u8>|
                d.len() == old(self)@.cells.len() && #[trigger] placed(
                    old(self)@,
                    final(self)@,
                    idx as int,
                    d,
                ),
    {
        let draws = random_draws(self.cellules.len());
        self.place_mines_safe(idx, draws.as_slice());
        assert(placed(old(self)@, self@, idx as int, draws@));
    }

    /// Reveals cell `idx`; a new game lays its mines from `draws`, one byte
    /// per cell, a mine where the byte is below 25.
    pub fn reveal_cell_with(&mut self, idx: usize, draws: &[u8])
        requires
            old(self).wf(),
            idx < old(self)@.cells.len(),
            old(self)@.state == GameState::New ==> draws@.len() == old(self)@.cells.len(),
        ensures
            final(self).wf(),
            revealed(old(self)@, final(self)@, idx as int, draws@),
    {
        if self.state == GameState::InProgress {
            if self.cellules[idx].is_hidden() {
                self.cellules[idx].toggle();
                assert(self@.cells =~= uncover(old(self)@, idx as int).cells);
                assert(self@ == uncover(old(self)@, idx as int));
                if self.cellules[idx].is_mine() {
                    self.state = GameState::Over;
                } else if self.cellules[idx].is_zero() {
                    self.expand_zero(idx);
                }
            }
        } else if self.state == GameState::New {
            self.place_mines_safe(idx, draws);
            self.state = GameState::InProgress;
            let ghost p = self@;
            self.cellules[idx].toggle();
            assert(self@.cells =~= uncover(p, idx as int).cells);
            assert(self@ == uncover(p, idx as int));
            self.expand_zero(idx);
            assert(placed(old(self)@, p, idx as int, draws@));
        }
    }

    /// Reveals cell `idx`; a new game lays its mines at random first.
    pub fn reveal_cell(&mut self, idx: usize)
        requires
            old(self).wf(),
            idx < old(self)@.cells.len(),
        ensures
            final(self).wf(),
            exists|d: Seq<u8>|
                d.len() == old(self)@.cells.len() && #[trigger] revealed(
                    old(self)@,
                    final(self)@,
                    idx as int,
                    d,
                ),
    {
        let n = if self.state == GameState::New {
            self.cellules.len()
        } else {
            0
        };
        let draws = random_draws(n);
        self.reveal_cell_with(idx, draws.as_slice());
        let ghost d = if old(self)@.state == GameState::New {
            draws@
        } else {
            Seq::new(old(self)@.cells.len() as nat, |i: int| 0u8)
        };
        assert(revealed(old(self)@, self@, idx as int, d));
    }

    /// In a game in progress, toggles the mark of cell `idx`; otherwise
    /// nothing changes.
    pub fn toggle_mark(&mut self, idx: usize)
        requires
            old(self).wf(),
            idx < old(self)@.cells.len(),
        ensures
            final(self).wf(),
            old(self)@.state == GameState::InProgress ==> final(self)@ == toggle_mark_at(
                old(self)@,
                idx as int,
            ),
            old(self)@.state != GameState::InProgress ==> final(self)@ == old(self)@,
    {
        if self.state == GameState::InProgress {
            self.cellules[idx].toggle_marked();
            assert(self@.cells =~= toggle_mark_at(old(self)@, idx as int).cells);
        }
    }

    /// Makes interior cell `idx` a mine, without changing what is shown; a
    /// border cell stays as it is.
    pub fn set_mine_at(&mut self, idx: usize)
        requires
            old(self).wf(),
            idx < old(self)@.cells.len(),
        ensures
            final(self).wf(),
            old(self)@.cells[idx as int].state != State::Outside ==> final(self)@ == (GameView {
                cells: old(self)@.cells.update(
                    idx as int,
                    Cellule { val: -1i8, ..old(self)@.cells[idx as int] },
                ),
                ..old(self)@
            }),
            old(self)@.cells[idx as int].state == State::Outside ==> final(self)@ == old(self)@,
    {
        if self.cellules[idx].state != State::Outside {
            self.cellules[idx].set_mine();
            assert(self@.cells =~= old(self)@.cells.update(
                idx as int,
                Cellule { val: -1i8, ..old(self)@.cells[idx as int] },
            ));
        }
    }

    /// Handles one message of the view: Start and Reset clear the grid,
    /// ToggleCellule reveals, ToggleMark toggles a mark, and Stop does
    /// nothing. The result says whether the view should be redrawn.
    pub fn update(&mut self, msg: Msg) -> (r: bool)
        requires
            old(self).wf(),
            msg matches Msg::ToggleCellule(i) ==> i < old(self)@.cells.len(),
            msg matches Msg::ToggleMark(i) ==> i < old(self)@.cells.len(),
        ensures
            final(self).wf(),
            r == !(msg matches Msg::Stop),
            (msg matches Msg::Start) || (msg matches Msg::Reset) ==> final(self)@ == cleared_game(
                old(self)@,
            ),
            msg matches Msg::ToggleCellule(i) ==> exists|d: Seq<u8>|
                d.len() == old(self)@.cells.len() && #[trigger] revealed(
                    old(self)@,
                    final(self)@,
                    i as int,
                    d,
                ),
            msg matches Msg::ToggleMark(i) ==> (old(self)@.state == GameState::InProgress
                ==> final(self)@ == toggle_mark_at(old(self)@, i as int)) && (old(self)@.state
                != GameState::InProgress ==> final(self)@ == old(self)@),
            msg matches Msg::Stop ==> final(self)@ == old(self)@,
    {
        match msg {
            Msg::Start => {
                self.start();
                true
            },
            Msg::Reset => {
                self.reset();
                true
            },
            Msg::ToggleCellule(idx) => {
                self.reveal_cell(idx);
                true
            },
            Msg::ToggleMark(idx) => {
                self.toggle_mark(idx);
                true
            },
            Msg::Stop => false,
        }
    }

    /// The state of the game.
    pub fn state(&self) -> (r: GameState)
        ensures
            r == self@.state,
    {
        self.state
    }

    /// The number of columns, border included.
    pub fn width(&self) -> (r: usize)
        ensures
            r == self@.width,
    {
        self.cellules_width
    }

    /// The number of rows, border included.
    pub fn height(&self) -> (r: usize)
        ensures
            r == self@.height,
    {
        self.cellules_height
    }

    /// The cell at flat index `idx`.
    pub fn cell_at(&self, idx: usize) -> (r: Cellule)
        requires
            idx < self@.cells.len(),
        ensures
            r == self@.cells[idx as int],
    {
        self.cellules[idx]
    }
}

} // verus!
