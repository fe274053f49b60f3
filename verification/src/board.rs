//! The game board: cells, moves, and the grid with move application and win
//! detection.
//!
//! The grid is stored row-major in a single vector, row 0 at the top. Columns
//! fill from the bottom row upward: a dropped piece lands in the lowest empty
//! cell of its column. The spec functions below speak of the grid as a
//! `Seq<Entity>` together with the two dimensions, so that two boards with
//! equal fields satisfy exactly the same predicates.

use vstd::prelude::*;

verus! {

/// What a single cell holds: a piece of one of the two sides, or nothing.
/// The same type names the side to move and the winner of a finished game.
#[derive(Clone, Copy, Debug, PartialEq, Eq, Structural)]
pub enum Entity {
    O,
    X,
    Empty,
}

impl Entity {
    /// The opposing side; `Empty` is its own opposite.
    pub open spec fn flip(self) -> Entity {
        match self {
            Entity::O => Entity::X,
            Entity::X => Entity::O,
            Entity::Empty => Entity::Empty,
        }
    }

    /// Exchanges the two sides, as turns alternate.
    pub fn neg(self) -> (r: Entity)
        ensures
            r == self.flip(),
    {
        match self {
            Entity::O => Entity::X,
            Entity::X => Entity::O,
            Entity::Empty => Entity::Empty,
        }
    }

    /// Reads a cell from its textual form: `o`/`O` and `x`/`X` name the two
    /// sides, anything else is an empty cell.
    pub fn from_char(c: char) -> (r: Entity)
        ensures
            (c == 'o' || c == 'O') ==> r == Entity::O,
            (c == 'x' || c == 'X') ==> r == Entity::X,
            (c != 'o' && c != 'O' && c != 'x' && c != 'X') ==> r == Entity::Empty,
    {
        match c {
            'o' | 'O' => Entity::O,
            'x' | 'X' => Entity::X,
            _ => Entity::Empty,
        }
    }

    /// The textual form of a cell.
    pub fn into_char(self) -> (r: char)
        ensures
            self == Entity::O ==> r == 'o',
            self == Entity::X ==> r == 'x',
            self == Entity::Empty ==> r == '.',
    {
        match self {
            Entity::O => 'o',
            Entity::X => 'x',
            Entity::Empty => '.',
        }
    }
}

/// A move: the column the mover drops a piece into, counted from the left.
#[derive(Clone, Copy, Debug, PartialEq, Eq, Structural)]
pub struct Move {
    pub col: usize,
}

impl Move {
    pub fn new(col: usize) -> (r: Move)
        ensures
            r.col == col,
    {
        Move { col }
    }
}

/// Every way an operation on a board can fail.
#[derive(Clone, Copy, Debug, PartialEq, Eq, Structural)]
pub enum GameError {
    /// The board is smaller than 4x4, or the grid does not match its stated
    /// dimensions, at construction.
    InvalidBoardDimensions,
    /// A move targeted a column with no empty cell.
    ColumnFull,
    /// The solver was asked about a board that already shows a winner.
    GameAlreadyDecided,
    /// The solver found no move to recommend.
    NoLegalMove,
}

/// The cell in row `i`, column `j` of a row-major grid of width `w`.
pub open spec fn cell_of(g: Seq<Entity>, w: int, i: int, j: int) -> Entity {
    g[i * w + j]
}

/// Four cells of side `e` in a row, leftmost at `(i, j)`.
pub open spec fn row_win_at(g: Seq<Entity>, w: int, e: Entity, i: int, j: int) -> bool {
    &&& cell_of(g, w, i, j) == e
    &&& cell_of(g, w, i, j + 1) == e
    &&& cell_of(g, w, i, j + 2) == e
    &&& cell_of(g, w, i, j + 3) == e
}

/// Four cells of side `e` in a column, topmost at `(i, j)`.
pub open spec fn col_win_at(g: Seq<Entity>, w: int, e: Entity, i: int, j: int) -> bool {
    &&& cell_of(g, w, i, j) == e
    &&& cell_of(g, w, i + 1, j) == e
    &&& cell_of(g, w, i + 2, j) == e
    &&& cell_of(g, w, i + 3, j) == e
}

/// Four cells of side `e` on a descending diagonal, top-left at `(i, j)`.
pub open spec fn diag_down_win_at(g: Seq<Entity>, w: int, e: Entity, i: int, j: int) -> bool {
    &&& cell_of(g, w, i, j) == e
    &&& cell_of(g, w, i + 1, j + 1) == e
    &&& cell_of(g, w, i + 2, j + 2) == e
    &&& cell_of(g, w, i + 3, j + 3) == e
}

/// Four cells of side `e` on an ascending diagonal, top-right at `(i, j)`.
pub open spec fn diag_up_win_at(g: Seq<Entity>, w: int, e: Entity, i: int, j: int) -> bool {
    &&& cell_of(g, w, i, j) == e
    &&& cell_of(g, w, i + 1, j - 1) == e
    &&& cell_of(g, w, i + 2, j - 2) == e
    &&& cell_of(g, w, i + 3, j - 3) == e
}

/// Side `e` holds four consecutive cells somewhere in a row.
pub open spec fn has_row_win(g: Seq<Entity>, h: int, w: int, e: Entity) -> bool {
    exists|i: int, j: int|
        0 <= i < h && 0 <= j && j + 4 <= w && #[trigger] row_win_at(g, w, e, i, j)
}

/// Side `e` holds four consecutive cells somewhere in a column.
pub open spec fn has_col_win(g: Seq<Entity>, h: int, w: int, e: Entity) -> bool {
    exists|i: int, j: int|
        0 <= i && i + 4 <= h && 0 <= j < w && #[trigger] col_win_at(g, w, e, i, j)
}

/// Side `e` holds four consecutive cells somewhere on a descending diagonal.
pub open spec fn has_diag_down_win(g: Seq<Entity>, h: int, w: int, e: Entity) -> bool {
    exists|i: int, j: int|
        0 <= i && i + 4 <= h && 0 <= j && j + 4 <= w && #[trigger] diag_down_win_at(g, w, e, i, j)
}

/// Side `e` holds four consecutive cells somewhere on an ascending diagonal.
pub open spec fn has_diag_up_win(g: Seq<Entity>, h: int, w: int, e: Entity) -> bool {
    exists|i: int, j: int|
        0 <= i && i + 4 <= h && 3 <= j < w && #[trigger] diag_up_win_at(g, w, e, i, j)
}

/// Side `e` occupies four aligned cells: in a row, a column, or a diagonal.
pub open spec fn has_four(g: Seq<Entity>, h: int, w: int, e: Entity) -> bool {
    ||| has_row_win(g, h, w, e)
    ||| has_col_win(g, h, w, e)
    ||| has_diag_down_win(g, h, w, e)
    ||| has_diag_up_win(g, h, w, e)
}

/// The side of the first qualifying horizontal window at or after `(i, j)`
/// in scan order (rows top to bottom, left to right within a row, `O`
/// before `X` per window); `Empty` when no later window qualifies.
pub open spec fn row_verdict_from(g: Seq<Entity>, h: int, w: int, i: int, j: int) -> Entity
    decreases h - i, w - j,
{
    if i < 0 || j < 0 || i >= h {
        Entity::Empty
    } else if j + 4 > w {
        row_verdict_from(g, h, w, i + 1, 0)
    } else if row_win_at(g, w, Entity::O, i, j) {
        Entity::O
    } else if row_win_at(g, w, Entity::X, i, j) {
        Entity::X
    } else {
        row_verdict_from(g, h, w, i, j + 1)
    }
}

/// The side of the first qualifying horizontal window, in scan order.
pub open spec fn row_verdict(g: Seq<Entity>, h: int, w: int) -> Entity {
    row_verdict_from(g, h, w, 0, 0)
}

/// The side of the first qualifying vertical window at or after window
/// `(i, j)` (columns left to right, top to bottom within a column, `O`
/// before `X` per window); `Empty` when no later window qualifies.
pub open spec fn col_verdict_from(g: Seq<Entity>, h: int, w: int, j: int, i: int) -> Entity
    decreases w - j, h - i,
{
    if j < 0 || i < 0 || j >= w {
        Entity::Empty
    } else if i + 4 > h {
        col_verdict_from(g, h, w, j + 1, 0)
    } else if col_win_at(g, w, Entity::O, i, j) {
        Entity::O
    } else if col_win_at(g, w, Entity::X, i, j) {
        Entity::X
    } else {
        col_verdict_from(g, h, w, j, i + 1)
    }
}

/// The side of the first qualifying vertical window, in scan order.
pub open spec fn col_verdict(g: Seq<Entity>, h: int, w: int) -> Entity {
    col_verdict_from(g, h, w, 0, 0)
}

/// The side of the first qualifying descending-diagonal window at or after
/// `(i, j)` (by start row, then start column, `O` before `X` per window);
/// `Empty` when no later window qualifies.
pub open spec fn diag_down_verdict_from(g: Seq<Entity>, h: int, w: int, i: int, j: int) -> Entity
    decreases h - i, w - j,
{
    if i < 0 || j < 0 || i + 4 > h {
        Entity::Empty
    } else if j + 4 > w {
        diag_down_verdict_from(g, h, w, i + 1, 0)
    } else if diag_down_win_at(g, w, Entity::O, i, j) {
        Entity::O
    } else if diag_down_win_at(g, w, Entity::X, i, j) {
        Entity::X
    } else {
        diag_down_verdict_from(g, h, w, i, j + 1)
    }
}

/// The side of the first qualifying descending-diagonal window.
pub open spec fn diag_down_verdict(g: Seq<Entity>, h: int, w: int) -> Entity {
    diag_down_verdict_from(g, h, w, 0, 0)
}

/// The side of the first qualifying ascending-diagonal window at or after
/// `(i, j)` (by start row, then start column, `O` before `X` per window);
/// `Empty` when no later window qualifies.
pub open spec fn diag_up_verdict_from(g: Seq<Entity>, h: int, w: int, i: int, j: int) -> Entity
    decreases h - i, w - j,
{
    if i < 0 || j < 3 || i + 4 > h {
        Entity::Empty
    } else if j >= w {
        diag_up_verdict_from(g, h, w, i + 1, 3)
    } else if diag_up_win_at(g, w, Entity::O, i, j) {
        Entity::O
    } else if diag_up_win_at(g, w, Entity::X, i, j) {
        Entity::X
    } else {
        diag_up_verdict_from(g, h, w, i, j + 1)
    }
}

/// The side of the first qualifying ascending-diagonal window.
pub open spec fn diag_up_verdict(g: Seq<Entity>, h: int, w: int) -> Entity {
    diag_up_verdict_from(g, h, w, 0, 3)
}

/// The verdict of the full scan: rows, then columns, then descending
/// diagonals, then ascending diagonals; the first family holding a
/// qualifying window decides, and within it the first window in scan order.
pub open spec fn judge_verdict(g: Seq<Entity>, h: int, w: int) -> Entity {
    if row_verdict(g, h, w) != Entity::Empty {
        row_verdict(g, h, w)
    } else if col_verdict(g, h, w) != Entity::Empty {
        col_verdict(g, h, w)
    } else if diag_down_verdict(g, h, w) != Entity::Empty {
        diag_down_verdict(g, h, w)
    } else {
        diag_up_verdict(g, h, w)
    }
}

/// Row `i` is the landing row of column `c`: the lowest empty cell, every
/// cell below it occupied.
pub open spec fn is_landing(g: Seq<Entity>, h: int, w: int, c: int, i: int) -> bool {
    &&& 0 <= i < h
    &&& cell_of(g, w, i, c) == Entity::Empty
    &&& forall|k: int| i < k < h ==> #[trigger] cell_of(g, w, k, c) != Entity::Empty
}

/// Column `c` of the grid still has an empty cell.
pub open spec fn col_open(g: Seq<Entity>, h: int, w: int, c: int) -> bool {
    exists|i: int| 0 <= i < h && #[trigger] cell_of(g, w, i, c) == Entity::Empty
}

/// `post` is the board whose grid was `g` (dimensions `h` by `w`, side
/// `mover` to play) after one piece dropped into column `c`: the piece lies
/// in the landing row of `c`, the mover has flipped, the empty count is one
/// lower, and nothing else changed.
pub open spec fn drop_applied(
    g: Seq<Entity>,
    h: int,
    w: int,
    mover: Entity,
    post: Game,
    c: int,
) -> bool {
    &&& 0 <= c < w
    &&& col_open(g, h, w, c)
    &&& post.h() == h
    &&& post.w() == w
    &&& post.next == mover.flip()
    &&& exists|i: int|
        #[trigger] is_landing(g, h, w, c, i) && post.grid@ == g.update(i * w + c, mover)
    &&& count_empty(post.grid@) + 1 == count_empty(g)
}

/// How many cells of the grid are empty.
pub open spec fn count_empty(g: Seq<Entity>) -> nat
    decreases g.len(),
{
    if g.len() == 0 {
        0
    } else {
        count_empty(g.drop_last()) + (if g.last() == Entity::Empty {
            1nat
        } else {
            0nat
        })
    }
}

/// Overwriting an empty cell with a piece lowers the empty count by one.
proof fn lemma_count_empty_update(g: Seq<Entity>, k: int, v: Entity)
    requires
        0 <= k < g.len(),
        g[k] == Entity::Empty,
        v != Entity::Empty,
    ensures
        count_empty(g.update(k, v)) + 1 == count_empty(g),
    decreases g.len(),
{
    let gu = g.update(k, v);
    if k == g.len() - 1 {
        assert(gu.drop_last() =~= g.drop_last());
        assert(gu.last() == v);
    } else {
        lemma_count_empty_update(g.drop_last(), k, v);
        assert(gu.drop_last() =~= g.drop_last().update(k, v));
        assert(gu.last() == g.last());
    }
}

/// A non-negative length is `h * w` exactly when dividing it by `w` yields
/// `h` with no remainder.
proof fn lemma_div_mod_is_product(len: int, h: int, w: int)
    requires
        w >= 1,
        h >= 0,
        len >= 0,
    ensures
        (len / w == h && len % w == 0) <==> len == h * w,
{
    assert((len / w == h && len % w == 0) <==> len == h * w) by (nonlinear_arith)
        requires
            w >= 1,
            h >= 0,
            len >= 0;
}

/// The flat index of an in-bounds cell is in bounds.
proof fn lemma_cell_index(h: int, w: int, i: int, j: int)
    requires
        0 <= i < h,
        0 <= j < w,
    ensures
        0 <= i * w + j < h * w,
{
    assert(0 <= i * w + j < h * w) by (nonlinear_arith)
        requires
            0 <= i < h,
            0 <= j < w;
}

/// A rectangular grid of cells with the side to move next.
///
/// Row 0 is the top row; the grid vector is row-major.
#[derive(Debug, PartialEq, Eq)]
pub struct Game {
    /// The side whose turn is next; never `Empty` on a well-formed board.
    pub next: Entity,
    /// Number of rows; at least 4.
    pub height: usize,
    /// Number of columns; at least 4.
    pub width: usize,
    /// The cells, row-major, `height * width` of them.
    pub grid: Vec<Entity>,
}

impl Game {
    /// The board's height as a mathematical integer.
    pub open spec fn h(self) -> int {
        self.height as int
    }

    /// The board's width as a mathematical integer.
    pub open spec fn w(self) -> int {
        self.width as int
    }

    /// Well-formedness: dimensions at least 4x4, the grid matches them, and a
    /// real side is to move.
    pub open spec fn wf(self) -> bool {
        &&& self.height >= 4
        &&& self.width >= 4
        &&& self.grid@.len() == self.h() * self.w()
        &&& self.next != Entity::Empty
    }

    /// The cell in row `i`, column `j`.
    pub open spec fn cell(self, i: int, j: int) -> Entity {
        cell_of(self.grid@, self.w(), i, j)
    }

    /// Side `e` occupies four aligned cells on this board.
    pub open spec fn has_four(self, e: Entity) -> bool {
        has_four(self.grid@, self.h(), self.w(), e)
    }

    /// Column `c` still has room for a piece.
    pub open spec fn col_has_empty(self, c: int) -> bool {
        col_open(self.grid@, self.h(), self.w(), c)
    }

    /// Column `c` is a legal move: in range with its top cell empty.
    pub open spec fn legal_col(self, c: int) -> bool {
        0 <= c < self.w() && self.cell(0, c) == Entity::Empty
    }

    /// No column accepts a piece: the board is full.
    pub open spec fn is_full(self) -> bool {
        forall|c: int| 0 <= c < self.w() ==> #[trigger] self.cell(0, c) != Entity::Empty
    }

    /// Two boards hold the same state, field for field.
    pub open spec fn state_eq(self, other: Game) -> bool {
        &&& self.next == other.next
        &&& self.height == other.height
        &&& self.width == other.width
        &&& self.grid@ == other.grid@
    }

    /// Playing column `c` here immediately shows four for the mover.
    pub open spec fn wins_immediately(self, c: int) -> bool {
        &&& self.legal_col(c)
        &&& forall|i: int|
            is_landing(self.grid@, self.h(), self.w(), c, i) ==> has_four(
                #[trigger] self.grid@.update(i * self.w() + c, self.next),
                self.h(),
                self.w(),
                self.next,
            )
    }
}

/// `post` is `pre` after one piece dropped into column `c`.
pub open spec fn move_applied(pre: Game, post: Game, c: int) -> bool {
    drop_applied(pre.grid@, pre.h(), pre.w(), pre.next, post, c)
}

impl Game {
    /// Builds a board from its parts, rejecting grids smaller than 4x4 in
    /// either dimension or whose cell count does not match the dimensions.
    pub fn new(next: Entity, height: usize, width: usize, grid: Vec<Entity>) -> (r: Result<
        Game,
        GameError,
    >)
        requires
            next != Entity::Empty,
        ensures
            match r {
                Ok(g) => {
                    &&& g.wf()
                    &&& g.next == next
                    &&& g.height == height
                    &&& g.width == width
                    &&& g.grid@ == grid@
                    &&& height >= 4
                    &&& width >= 4
                    &&& grid@.len() == height * width
                },
                Err(e) => {
                    &&& e == GameError::InvalidBoardDimensions
                    &&& (height < 4 || width < 4 || grid@.len() != height * width)
                },
            },
    {
        if height < 4 || width < 4 {
            return Err(GameError::InvalidBoardDimensions);
        }
        let len = grid.len();
        proof {
            lemma_div_mod_is_product(len as int, height as int, width as int);
        }
        if len / width != height || len % width != 0 {
            return Err(GameError::InvalidBoardDimensions);
        }
        Ok(Game { next, height, width, grid })
    }

    /// Reads the cell in row `i`, column `j`.
    pub fn get(&self, i: usize, j: usize) -> (r: Entity)
        requires
            self.wf(),
            i < self.height,
            j < self.width,
        ensures
            r == self.cell(i as int, j as int),
    {
        proof {
            lemma_cell_index(self.h(), self.w(), i as int, j as int);
        }
        let _len = self.grid.len();
        self.grid[i * self.width + j]
    }

    /// A fresh board holding the same state.
    pub fn duplicate(&self) -> (r: Game)
        ensures
            r.state_eq(*self),
    {
        let mut cells: Vec<Entity> = Vec::new();
        let mut i: usize = 0;
        while i < self.grid.len()
            invariant
                i <= self.grid@.len(),
                cells@ =~= self.grid@.subrange(0, i as int),
            decreases self.grid@.len() - i,
        {
            cells.push(self.grid[i]);
            i = i + 1;
        }
        proof {
            assert(cells@ =~= self.grid@);
        }
        Game { next: self.next, height: self.height, width: self.width, grid: cells }
    }

    /// Four cells of side `e` rightward from `(i, j)`?
    fn row_run(&self, e: Entity, i: usize, j: usize) -> (r: bool)
        requires
            self.wf(),
            i < self.height,
            j + 4 <= self.width,
        ensures
            r == row_win_at(self.grid@, self.w(), e, i as int, j as int),
    {
        self.get(i, j) == e && self.get(i, j + 1) == e && self.get(i, j + 2) == e && self.get(
            i,
            j + 3,
        ) == e
    }

    /// Four cells of side `e` downward from `(i, j)`?
    fn col_run(&self, e: Entity, i: usize, j: usize) -> (r: bool)
        requires
            self.wf(),
            i + 4 <= self.height,
            j < self.width,
        ensures
            r == col_win_at(self.grid@, self.w(), e, i as int, j as int),
    {
        self.get(i, j) == e && self.get(i + 1, j) == e && self.get(i + 2, j) == e && self.get(
            i + 3,
            j,
        ) == e
    }

    /// Four cells of side `e` down-rightward from `(i, j)`?
    fn diag_down_run(&self, e: Entity, i: usize, j: usize) -> (r: bool)
        requires
            self.wf(),
            i + 4 <= self.height,
            j + 4 <= self.width,
        ensures
            r == diag_down_win_at(self.grid@, self.w(), e, i as int, j as int),
    {
        self.get(i, j) == e && self.get(i + 1, j + 1) == e && self.get(i + 2, j + 2) == e
            && self.get(i + 3, j + 3) == e
    }

    /// Four cells of side `e` down-leftward from `(i, j)`?
    fn diag_up_run(&self, e: Entity, i: usize, j: usize) -> (r: bool)
        requires
            self.wf(),
            i + 4 <= self.height,
            3 <= j < self.width,
        ensures
            r == diag_up_win_at(self.grid@, self.w(), e, i as int, j as int),
    {
        self.get(i, j) == e && self.get(i + 1, j - 1) == e && self.get(i + 2, j - 2) == e
            && self.get(i + 3, j - 3) == e
    }

    /// Scans every horizontal window, rows top to bottom, left to right
    /// within a row, each window for `O` before `X`.
    #[verifier::loop_isolation(false)]
    fn scan_rows(&self) -> (r: Option<Entity>)
        requires
            self.wf(),
        ensures
            match r {
                Some(e) => (e == Entity::O || e == Entity::X) && has_row_win(
                    self.grid@,
                    self.h(),
                    self.w(),
                    e,
                ),
                None => !has_row_win(self.grid@, self.h(), self.w(), Entity::O) && !has_row_win(
                    self.grid@,
                    self.h(),
                    self.w(),
                    Entity::X,
                ),
            },
            match r {
                Some(e) => row_verdict(self.grid@, self.h(), self.w()) == e,
                None => row_verdict(self.grid@, self.h(), self.w()) == Entity::Empty,
            },
    {
        let mut i: usize = 0;
        while i < self.height
            invariant
                0 <= i <= self.height,
                row_verdict(self.grid@, self.h(), self.w()) == row_verdict_from(
                    self.grid@,
                    self.h(),
                    self.w(),
                    i as int,
                    0,
                ),
                forall|i0: int, j0: int|
                    0 <= i0 < i && 0 <= j0 && j0 + 4 <= self.w() ==> !(#[trigger] row_win_at(self.grid@, self.w(), Entity::O, i0, j0)),
                forall|i0: int, j0: int|
                    0 <= i0 < i && 0 <= j0 && j0 + 4 <= self.w() ==> !(#[trigger] row_win_at(self.grid@, self.w(), Entity::X, i0, j0)),
            decreases self.height - i,
        {
            let mut j: usize = 0;
            while j < self.width - 3
                invariant
                    i < self.height,
                    0 <= j <= self.width - 3,
                    row_verdict(self.grid@, self.h(), self.w()) == row_verdict_from(
                        self.grid@,
                        self.h(),
                        self.w(),
                        i as int,
                        j as int,
                    ),
                    forall|v0: int|
                        0 <= v0 < j ==> !(#[trigger] row_win_at(
                            self.grid@,
                            self.w(),
                            Entity::O,
                            i as int,
                            v0,
                        )),
                    forall|v0: int|
                        0 <= v0 < j ==> !(#[trigger] row_win_at(
                            self.grid@,
                            self.w(),
                            Entity::X,
                            i as int,
                            v0,
                        )),
                decreases self.width - 3 - j,
            {
                if self.row_run(Entity::O, i, j) {
                    proof {
                        assert(has_row_win(self.grid@, self.h(), self.w(), Entity::O));
                        assert(row_verdict_from(self.grid@, self.h(), self.w(), i as int, j as int)
                            == Entity::O);
                    }
                    return Some(Entity::O);
                }
                if self.row_run(Entity::X, i, j) {
                    proof {
                        assert(has_row_win(self.grid@, self.h(), self.w(), Entity::X));
                        assert(row_verdict_from(self.grid@, self.h(), self.w(), i as int, j as int)
                            == Entity::X);
                    }
                    return Some(Entity::X);
                }
                proof {
                    assert(row_verdict_from(self.grid@, self.h(), self.w(), i as int, j as int)
                        == row_verdict_from(self.grid@, self.h(), self.w(), i as int, j as int + 1));
                }
                j = j + 1;
            }
            proof {
                assert(row_verdict_from(self.grid@, self.h(), self.w(), i as int, j as int)
                    == row_verdict_from(self.grid@, self.h(), self.w(), i as int + 1, 0));
                assert forall|i0: int, j0: int| 0 <= i0 < i + 1 && 0 <= j0 && j0 + 4 <= self.w() implies !row_win_at(
                    self.grid@,
                    self.w(),
                    Entity::O,
                    i0,
                    j0,
                ) by {
                    if i0 == i as int {
                    }
                }
                assert forall|i0: int, j0: int| 0 <= i0 < i + 1 && 0 <= j0 && j0 + 4 <= self.w() implies !row_win_at(
                    self.grid@,
                    self.w(),
                    Entity::X,
                    i0,
                    j0,
                ) by {
                    if i0 == i as int {
                    }
                }
            }
            i = i + 1;
        }
        None
    }

    /// Scans every vertical window, columns left to right, top to bottom
    /// within a column, each window for `O` before `X`.
    #[verifier::loop_isolation(false)]
    fn scan_cols(&self) -> (r: Option<Entity>)
        requires
            self.wf(),
        ensures
            match r {
                Some(e) => (e == Entity::O || e == Entity::X) && has_col_win(
                    self.grid@,
                    self.h(),
                    self.w(),
                    e,
                ),
                None => !has_col_win(self.grid@, self.h(), self.w(), Entity::O) && !has_col_win(
                    self.grid@,
                    self.h(),
                    self.w(),
                    Entity::X,
                ),
            },
            match r {
                Some(e) => col_verdict(self.grid@, self.h(), self.w()) == e,
                None => col_verdict(self.grid@, self.h(), self.w()) == Entity::Empty,
            },
    {
        let mut j: usize = 0;
        while j < self.width
            invariant
                0 <= j <= self.width,
                col_verdict(self.grid@, self.h(), self.w()) == col_verdict_from(
                    self.grid@,
                    self.h(),
                    self.w(),
                    j as int,
                    0,
                ),
                forall|i0: int, j0: int|
                    0 <= i0 && i0 + 4 <= self.h() && 0 <= j0 < j ==> !(#[trigger] col_win_at(self.grid@, self.w(), Entity::O, i0, j0)),
                forall|i0: int, j0: int|
                    0 <= i0 && i0 + 4 <= self.h() && 0 <= j0 < j ==> !(#[trigger] col_win_at(self.grid@, self.w(), Entity::X, i0, j0)),
            decreases self.width - j,
        {
            let mut i: usize = 0;
            while i < self.height - 3
                invariant
                    j < self.width,
                    0 <= i <= self.height - 3,
                    col_verdict(self.grid@, self.h(), self.w()) == col_verdict_from(
                        self.grid@,
                        self.h(),
                        self.w(),
                        j as int,
                        i as int,
                    ),
                    forall|v0: int|
                        0 <= v0 < i ==> !(#[trigger] col_win_at(
                            self.grid@,
                            self.w(),
                            Entity::O,
                            v0,
                            j as int,
                        )),
                    forall|v0: int|
                        0 <= v0 < i ==> !(#[trigger] col_win_at(
                            self.grid@,
                            self.w(),
                            Entity::X,
                            v0,
                            j as int,
                        )),
                decreases self.height - 3 - i,
            {
                if self.col_run(Entity::O, i, j) {
                    proof {
                        assert(has_col_win(self.grid@, self.h(), self.w(), Entity::O));
                        assert(col_verdict_from(self.grid@, self.h(), self.w(), j as int, i as int)
                            == Entity::O);
                    }
                    return Some(Entity::O);
                }
                if self.col_run(Entity::X, i, j) {
                    proof {
                        assert(has_col_win(self.grid@, self.h(), self.w(), Entity::X));
                        assert(col_verdict_from(self.grid@, self.h(), self.w(), j as int, i as int)
                            == Entity::X);
                    }
                    return Some(Entity::X);
                }
                proof {
                    assert(col_verdict_from(self.grid@, self.h(), self.w(), j as int, i as int)
                        == col_verdict_from(self.grid@, self.h(), self.w(), j as int, i as int + 1));
                }
                i = i + 1;
            }
            proof {
                assert(col_verdict_from(self.grid@, self.h(), self.w(), j as int, i as int)
                    == col_verdict_from(self.grid@, self.h(), self.w(), j as int + 1, 0));
                assert forall|i0: int, j0: int| 0 <= i0 && i0 + 4 <= self.h() && 0 <= j0 < j + 1 implies !col_win_at(
                    self.grid@,
                    self.w(),
                    Entity::O,
                    i0,
                    j0,
                ) by {
                    if j0 == j as int {
                    }
                }
                assert forall|i0: int, j0: int| 0 <= i0 && i0 + 4 <= self.h() && 0 <= j0 < j + 1 implies !col_win_at(
                    self.grid@,
                    self.w(),
                    Entity::X,
                    i0,
                    j0,
                ) by {
                    if j0 == j as int {
                    }
                }
            }
            j = j + 1;
        }
        None
    }

    /// Scans every descending-diagonal window by increasing start row, then
    /// start column, each window for `O` before `X`.
    #[verifier::loop_isolation(false)]
    fn scan_diag_down(&self) -> (r: Option<Entity>)
        requires
            self.wf(),
        ensures
            match r {
                Some(e) => (e == Entity::O || e == Entity::X) && has_diag_down_win(
                    self.grid@,
                    self.h(),
                    self.w(),
                    e,
                ),
                None => !has_diag_down_win(self.grid@, self.h(), self.w(), Entity::O) && !has_diag_down_win(
                    self.grid@,
                    self.h(),
                    self.w(),
                    Entity::X,
                ),
            },
            match r {
                Some(e) => diag_down_verdict(self.grid@, self.h(), self.w()) == e,
                None => diag_down_verdict(self.grid@, self.h(), self.w()) == Entity::Empty,
            },
    {
        let mut i: usize = 0;
        while i < self.height - 3
            invariant
                0 <= i <= self.height - 3,
                diag_down_verdict(self.grid@, self.h(), self.w()) == diag_down_verdict_from(
                    self.grid@,
                    self.h(),
                    self.w(),
                    i as int,
                    0,
                ),
                forall|i0: int, j0: int|
                    0 <= i0 < i && 0 <= j0 && j0 + 4 <= self.w() ==> !(#[trigger] diag_down_win_at(self.grid@, self.w(), Entity::O, i0, j0)),
                forall|i0: int, j0: int|
                    0 <= i0 < i && 0 <= j0 && j0 + 4 <= self.w() ==> !(#[trigger] diag_down_win_at(self.grid@, self.w(), Entity::X, i0, j0)),
            decreases self.height - 3 - i,
        {
            let mut j: usize = 0;
            while j < self.width - 3
                invariant
                    i < self.height - 3,
                    0 <= j <= self.width - 3,
                    diag_down_verdict(self.grid@, self.h(), self.w()) == diag_down_verdict_from(
                        self.grid@,
                        self.h(),
                        self.w(),
                        i as int,
                        j as int,
                    ),
                    forall|v0: int|
                        0 <= v0 < j ==> !(#[trigger] diag_down_win_at(
                            self.grid@,
                            self.w(),
                            Entity::O,
                            i as int,
                            v0,
                        )),
                    forall|v0: int|
                        0 <= v0 < j ==> !(#[trigger] diag_down_win_at(
                            self.grid@,
                            self.w(),
                            Entity::X,
                            i as int,
                            v0,
                        )),
                decreases self.width - 3 - j,
            {
                if self.diag_down_run(Entity::O, i, j) {
                    proof {
                        assert(has_diag_down_win(self.grid@, self.h(), self.w(), Entity::O));
                        assert(diag_down_verdict_from(
                            self.grid@,
                            self.h(),
                            self.w(),
                            i as int,
                            j as int,
                        ) == Entity::O);
                    }
                    return Some(Entity::O);
                }
                if self.diag_down_run(Entity::X, i, j) {
                    proof {
                        assert(has_diag_down_win(self.grid@, self.h(), self.w(), Entity::X));
                        assert(diag_down_verdict_from(
                            self.grid@,
                            self.h(),
                            self.w(),
                            i as int,
                            j as int,
                        ) == Entity::X);
                    }
                    return Some(Entity::X);
                }
                proof {
                    assert(diag_down_verdict_from(
                        self.grid@,
                        self.h(),
                        self.w(),
                        i as int,
                        j as int,
                    ) == diag_down_verdict_from(
                        self.grid@,
                        self.h(),
                        self.w(),
                        i as int,
                        j as int + 1,
                    ));
                }
                j = j + 1;
            }
            proof {
                assert(diag_down_verdict_from(self.grid@, self.h(), self.w(), i as int, j as int)
                    == diag_down_verdict_from(self.grid@, self.h(), self.w(), i as int + 1, 0));
                assert forall|i0: int, j0: int| 0 <= i0 < i + 1 && 0 <= j0 && j0 + 4 <= self.w() implies !diag_down_win_at(
                    self.grid@,
                    self.w(),
                    Entity::O,
                    i0,
                    j0,
                ) by {
                    if i0 == i as int {
                    }
                }
                assert forall|i0: int, j0: int| 0 <= i0 < i + 1 && 0 <= j0 && j0 + 4 <= self.w() implies !diag_down_win_at(
                    self.grid@,
                    self.w(),
                    Entity::X,
                    i0,
                    j0,
                ) by {
                    if i0 == i as int {
                    }
                }
            }
            i = i + 1;
        }
        None
    }

    /// Scans every ascending-diagonal window by increasing start row, then
    /// start column, each window for `O` before `X`.
    #[verifier::loop_isolation(false)]
    fn scan_diag_up(&self) -> (r: Option<Entity>)
        requires
            self.wf(),
        ensures
            match r {
                Some(e) => (e == Entity::O || e == Entity::X) && has_diag_up_win(
                    self.grid@,
                    self.h(),
                    self.w(),
                    e,
                ),
                None => !has_diag_up_win(self.grid@, self.h(), self.w(), Entity::O) && !has_diag_up_win(
                    self.grid@,
                    self.h(),
                    self.w(),
                    Entity::X,
                ),
            },
            match r {
                Some(e) => diag_up_verdict(self.grid@, self.h(), self.w()) == e,
                None => diag_up_verdict(self.grid@, self.h(), self.w()) == Entity::Empty,
            },
    {
        let mut i: usize = 0;
        while i < self.height - 3
            invariant
                0 <= i <= self.height - 3,
                diag_up_verdict(self.grid@, self.h(), self.w()) == diag_up_verdict_from(
                    self.grid@,
                    self.h(),
                    self.w(),
                    i as int,
                    3,
                ),
                forall|i0: int, j0: int|
                    0 <= i0 < i && 3 <= j0 < self.w() ==> !(#[trigger] diag_up_win_at(self.grid@, self.w(), Entity::O, i0, j0)),
                forall|i0: int, j0: int|
                    0 <= i0 < i && 3 <= j0 < self.w() ==> !(#[trigger] diag_up_win_at(self.grid@, self.w(), Entity::X, i0, j0)),
            decreases self.height - 3 - i,
        {
            let mut j: usize = 3;
            while j < self.width
                invariant
                    i < self.height - 3,
                    3 <= j <= self.width,
                    diag_up_verdict(self.grid@, self.h(), self.w()) == diag_up_verdict_from(
                        self.grid@,
                        self.h(),
                        self.w(),
                        i as int,
                        j as int,
                    ),
                    forall|v0: int|
                        3 <= v0 < j ==> !(#[trigger] diag_up_win_at(
                            self.grid@,
                            self.w(),
                            Entity::O,
                            i as int,
                            v0,
                        )),
                    forall|v0: int|
                        3 <= v0 < j ==> !(#[trigger] diag_up_win_at(
                            self.grid@,
                            self.w(),
                            Entity::X,
                            i as int,
                            v0,
                        )),
                decreases self.width - j,
            {
                if self.diag_up_run(Entity::O, i, j) {
                    proof {
                        assert(has_diag_up_win(self.grid@, self.h(), self.w(), Entity::O));
                        assert(diag_up_verdict_from(
                            self.grid@,
                            self.h(),
                            self.w(),
                            i as int,
                            j as int,
                        ) == Entity::O);
                    }
                    return Some(Entity::O);
                }
                if self.diag_up_run(Entity::X, i, j) {
                    proof {
                        assert(has_diag_up_win(self.grid@, self.h(), self.w(), Entity::X));
                        assert(diag_up_verdict_from(
                            self.grid@,
                            self.h(),
                            self.w(),
                            i as int,
                            j as int,
                        ) == Entity::X);
                    }
                    return Some(Entity::X);
                }
                proof {
                    assert(diag_up_verdict_from(
                        self.grid@,
                        self.h(),
                        self.w(),
                        i as int,
                        j as int,
                    ) == diag_up_verdict_from(
                        self.grid@,
                        self.h(),
                        self.w(),
                        i as int,
                        j as int + 1,
                    ));
                }
                j = j + 1;
            }
            proof {
                assert(diag_up_verdict_from(self.grid@, self.h(), self.w(), i as int, j as int)
                    == diag_up_verdict_from(self.grid@, self.h(), self.w(), i as int + 1, 3));
                assert forall|i0: int, j0: int| 0 <= i0 < i + 1 && 3 <= j0 < self.w() implies !diag_up_win_at(
                    self.grid@,
                    self.w(),
                    Entity::O,
                    i0,
                    j0,
                ) by {
                    if i0 == i as int {
                    }
                }
                assert forall|i0: int, j0: int| 0 <= i0 < i + 1 && 3 <= j0 < self.w() implies !diag_up_win_at(
                    self.grid@,
                    self.w(),
                    Entity::X,
                    i0,
                    j0,
                ) by {
                    if i0 == i as int {
                    }
                }
            }
            i = i + 1;
        }
        None
    }

    /// Decides the game: the winning side, or `Empty` while nobody has four
    /// aligned cells.
    ///
    /// A side is reported exactly when it occupies four consecutive cells in
    /// a row, a column, or a diagonal. The scan order is rows, then columns,
    /// then descending diagonals, then ascending diagonals, and within each
    /// window `O` before `X`; it decides which side is reported on the
    /// (unreachable in a legal game) boards where both sides show four.
    pub fn judge(&self) -> (r: Entity)
        requires
            self.wf(),
        ensures
            r == Entity::O ==> self.has_four(Entity::O),
            r == Entity::X ==> self.has_four(Entity::X),
            r == Entity::Empty ==> !self.has_four(Entity::O) && !self.has_four(Entity::X),
            r == judge_verdict(self.grid@, self.h(), self.w()),
    {
        match self.scan_rows() {
            Some(e) => { return e; },
            None => {},
        }
        match self.scan_cols() {
            Some(e) => { return e; },
            None => {},
        }
        match self.scan_diag_down() {
            Some(e) => { return e; },
            None => {},
        }
        match self.scan_diag_up() {
            Some(e) => { return e; },
            None => {},
        }
        Entity::Empty
    }

    /// Drops the mover's piece into column `mv.col`, in place.
    ///
    /// The piece lands in the lowest empty cell of the column and the turn
    /// passes to the other side. A full column is reported as `ColumnFull`
    /// and the board is left untouched.
    #[verifier::loop_isolation(false)]
    pub fn play_mut(&mut self, mv: Move) -> (r: Result<(), GameError>)
        requires
            old(self).wf(),
            mv.col < old(self).width,
        ensures
            final(self).wf(),
            match r {
                Ok(()) => move_applied(*old(self), *final(self), mv.col as int),
                Err(e) => {
                    &&& e == GameError::ColumnFull
                    &&& !old(self).col_has_empty(mv.col as int)
                    &&& *final(self) == *old(self)
                },
            },
    {
        let c = mv.col;
        let ghost g0 = old(self).grid@;
        let ghost h0 = old(self).h();
        let ghost w0 = old(self).w();
        let mut i = self.height;
        while i > 0
            invariant
                i <= self.height,
                *self == *old(self),
                forall|k: int|
                    i <= k < h0 ==> #[trigger] cell_of(g0, w0, k, c as int) != Entity::Empty,
            decreases i,
        {
            i = i - 1;
            let e = self.get(i, c);
            if e == Entity::Empty {
                proof {
                    lemma_cell_index(h0, w0, i as int, c as int);
                    assert(cell_of(g0, w0, i as int, c as int) == Entity::Empty);
                    assert(is_landing(g0, h0, w0, c as int, i as int));
                }
                let _len = self.grid.len();
                let piece = self.next;
                let idx = i * self.width + c;
                self.grid.set(idx, piece);
                self.next = piece.neg();
                proof {
                    assert(idx as int == i as int * w0 + c as int);
                    assert(g0[idx as int] == Entity::Empty);
                    lemma_count_empty_update(g0, idx as int, piece);
                    assert(self.grid@ == g0.update(i as int * w0 + c as int, piece));
                    assert(col_open(g0, h0, w0, c as int));
                    assert(drop_applied(g0, h0, w0, piece, *self, c as int));
                }
                return Ok(());
            }
        }
        Err(GameError::ColumnFull)
    }

    /// Drops the mover's piece into column `mv.col` on a copy of the board,
    /// leaving this board untouched.
    pub fn play(&self, mv: Move) -> (r: Result<Game, GameError>)
        requires
            self.wf(),
            mv.col < self.width,
        ensures
            match r {
                Ok(g) => {
                    &&& g.wf()
                    &&& move_applied(*self, g, mv.col as int)
                },
                Err(e) => {
                    &&& e == GameError::ColumnFull
                    &&& !self.col_has_empty(mv.col as int)
                },
            },
    {
        let mut g = self.duplicate();
        let copy = Ghost(g);
        proof {
            assert(copy@.grid@ == self.grid@);
            assert(copy@.h() == self.h());
            assert(copy@.w() == self.w());
            assert(copy@.next == self.next);
        }
        match g.play_mut(mv) {
            Ok(()) => {
                proof {
                    assert(drop_applied(copy@.grid@, copy@.h(), copy@.w(), copy@.next, g, mv.col as int));
                    assert(drop_applied(self.grid@, self.h(), self.w(), self.next, g, mv.col as int));
                }
                Ok(g)
            },
            Err(e) => {
                proof {
                    assert(!col_open(copy@.grid@, copy@.h(), copy@.w(), mv.col as int));
                    assert(!col_open(self.grid@, self.h(), self.w(), mv.col as int));
                }
                Err(e)
            },
        }
    }
}

/// A move by one side never gives the *other* side four aligned cells: a
/// board reached by dropping a piece of `pre.next` shows four for a side
/// `e != pre.next` only if `e` already had four before the move.
pub proof fn lemma_move_keeps_no_four(pre: Game, post: Game, c: int, e: Entity)
    requires
        pre.wf(),
        move_applied(pre, post, c),
        e != pre.next,
        !pre.has_four(e),
    ensures
        !post.has_four(e),
{
    let g = pre.grid@;
    let h = pre.h();
    let w = pre.w();
    let i0 = choose|i: int|
        #[trigger] is_landing(g, h, w, c, i) && post.grid@ == g.update(i * w + c, pre.next);
    assert(is_landing(g, h, w, c, i0) && post.grid@ == g.update(i0 * w + c, pre.next));
    lemma_cell_index(h, w, i0, c);
    if has_row_win(post.grid@, h, w, e) {
        let (i, j): (int, int) = choose|i: int, j: int|
            0 <= i < h && 0 <= j && j + 4 <= w && #[trigger] row_win_at(post.grid@, w, e, i, j);
        lemma_cell_index(h, w, i, j);
        lemma_cell_index(h, w, i, j + 1);
        lemma_cell_index(h, w, i, j + 2);
        lemma_cell_index(h, w, i, j + 3);
        assert(row_win_at(g, w, e, i, j));
        assert(has_row_win(g, h, w, e));
        assert(false);
    }
    if has_col_win(post.grid@, h, w, e) {
        let (i, j): (int, int) = choose|i: int, j: int|
            0 <= i && i + 4 <= h && 0 <= j < w && #[trigger] col_win_at(post.grid@, w, e, i, j);
        lemma_cell_index(h, w, i, j);
        lemma_cell_index(h, w, i + 1, j);
        lemma_cell_index(h, w, i + 2, j);
        lemma_cell_index(h, w, i + 3, j);
        assert(col_win_at(g, w, e, i, j));
        assert(has_col_win(g, h, w, e));
        assert(false);
    }
    if has_diag_down_win(post.grid@, h, w, e) {
        let (i, j): (int, int) = choose|i: int, j: int|
            0 <= i && i + 4 <= h && 0 <= j && j + 4 <= w && #[trigger] diag_down_win_at(
                post.grid@,
                w,
                e,
                i,
                j,
            );
        lemma_cell_index(h, w, i, j);
        lemma_cell_index(h, w, i + 1, j + 1);
        lemma_cell_index(h, w, i + 2, j + 2);
        lemma_cell_index(h, w, i + 3, j + 3);
        assert(diag_down_win_at(g, w, e, i, j));
        assert(has_diag_down_win(g, h, w, e));
        assert(false);
    }
    if has_diag_up_win(post.grid@, h, w, e) {
        let (i, j): (int, int) = choose|i: int, j: int|
            0 <= i && i + 4 <= h && 3 <= j < w && #[trigger] diag_up_win_at(post.grid@, w, e, i, j);
        lemma_cell_index(h, w, i, j);
        lemma_cell_index(h, w, i + 1, j - 1);
        lemma_cell_index(h, w, i + 2, j - 2);
        lemma_cell_index(h, w, i + 3, j - 3);
        assert(diag_up_win_at(g, w, e, i, j));
        assert(has_diag_up_win(g, h, w, e));
        assert(false);
    }
    assert(!has_four(post.grid@, h, w, e));
}

/// A column has at most one landing row.
pub proof fn lemma_landing_unique(g: Seq<Entity>, h: int, w: int, c: int, i1: int, i2: int)
    requires
        is_landing(g, h, w, c, i1),
        is_landing(g, h, w, c, i2),
    ensures
        i1 == i2,
{
    if i1 < i2 {
        assert(cell_of(g, w, i2, c) != Entity::Empty);
    } else if i2 < i1 {
        assert(cell_of(g, w, i1, c) != Entity::Empty);
    }
}

/// Two in-bounds cells share a flat index only when they are the same cell.
proof fn lemma_cell_index_injective(h: int, w: int, i1: int, j1: int, i2: int, j2: int)
    requires
        0 <= i1 < h,
        0 <= j1 < w,
        0 <= i2 < h,
        0 <= j2 < w,
        i1 * w + j1 == i2 * w + j2,
    ensures
        i1 == i2,
        j1 == j2,
{
    assert(i1 == i2 && j1 == j2) by (nonlinear_arith)
        requires
            0 <= i1 < h,
            0 <= j1 < w,
            0 <= i2 < h,
            0 <= j2 < w,
            i1 * w + j1 == i2 * w + j2;
}

/// Gravity: every occupied cell lies in the bottom row or on an occupied
/// cell.
pub open spec fn gravity(g: Seq<Entity>, h: int, w: int) -> bool {
    forall|i: int, c: int|
        0 <= i < h - 1 && 0 <= c < w && #[trigger] cell_of(g, w, i, c) != Entity::Empty
            ==> cell_of(g, w, i + 1, c) != Entity::Empty
}

/// Dropping a piece keeps gravity: the piece lands in the lowest empty cell
/// of its column, so every piece still rests on occupied cells.
#[verifier::rlimit(60)]
pub proof fn lemma_move_keeps_gravity(pre: Game, post: Game, c: int)
    requires
        pre.wf(),
        move_applied(pre, post, c),
        gravity(pre.grid@, pre.h(), pre.w()),
    ensures
        gravity(post.grid@, post.h(), post.w()),
{
    let g = pre.grid@;
    let h = pre.h();
    let w = pre.w();
    let i0 = choose|i: int|
        #[trigger] is_landing(g, h, w, c, i) && post.grid@ == g.update(i * w + c, pre.next);
    assert(is_landing(g, h, w, c, i0) && post.grid@ == g.update(i0 * w + c, pre.next));
    lemma_cell_index(h, w, i0, c);
    assert forall|i: int, c2: int|
        0 <= i < h - 1 && 0 <= c2 < w && #[trigger] cell_of(post.grid@, w, i, c2) != Entity::Empty
            implies cell_of(post.grid@, w, i + 1, c2) != Entity::Empty by {
        lemma_cell_index(h, w, i, c2);
        lemma_cell_index(h, w, i + 1, c2);
        if i * w + c2 == i0 * w + c {
            // the new piece itself: everything below its landing cell was
            // already occupied
            lemma_cell_index_injective(h, w, i, c2, i0, c);
            assert(cell_of(g, w, i + 1, c) != Entity::Empty);
            if (i + 1) * w + c2 != i0 * w + c {
                assert(cell_of(post.grid@, w, i + 1, c2) == cell_of(g, w, i + 1, c2));
            }
        } else {
            // an old piece: the cell below it was occupied before the move,
            // and at worst gained the new piece
            assert(cell_of(g, w, i, c2) != Entity::Empty);
            assert(cell_of(g, w, i + 1, c2) != Entity::Empty);
            if (i + 1) * w + c2 != i0 * w + c {
                assert(cell_of(post.grid@, w, i + 1, c2) == cell_of(g, w, i + 1, c2));
            }
        }
    }
}

/// A move whose outcome does not show four for the mover was not an
/// immediately winning move.
pub proof fn lemma_not_winning_move(pre: Game, post: Game, c: int)
    requires
        pre.wf(),
        move_applied(pre, post, c),
        !post.has_four(pre.next),
    ensures
        !pre.wins_immediately(c),
{
    if pre.wins_immediately(c) {
        let g = pre.grid@;
        let h = pre.h();
        let w = pre.w();
        let i0 = choose|i: int|
            #[trigger] is_landing(g, h, w, c, i) && post.grid@ == g.update(i * w + c, pre.next);
        assert(is_landing(g, h, w, c, i0) && post.grid@ == g.update(i0 * w + c, pre.next));
        assert(has_four(pre.grid@.update(i0 * pre.w() + c, pre.next), h, w, pre.next));
        assert(has_four(post.grid@, h, w, pre.next));
    }
}

/// An immediately winning move shows four for its mover once applied.
pub proof fn lemma_winning_move_wins(pre: Game, post: Game, c: int)
    requires
        pre.wf(),
        move_applied(pre, post, c),
        pre.wins_immediately(c),
    ensures
        post.has_four(pre.next),
{
    let g = pre.grid@;
    let h = pre.h();
    let w = pre.w();
    let i0 = choose|i: int|
        #[trigger] is_landing(g, h, w, c, i) && post.grid@ == g.update(i * w + c, pre.next);
    assert(is_landing(g, h, w, c, i0) && post.grid@ == g.update(i0 * w + c, pre.next));
    assert(has_four(pre.grid@.update(i0 * pre.w() + c, pre.next), h, w, pre.next));
}

/// A piece never leaves the board: every cell occupied before a move holds
/// the same piece after it.
pub proof fn lemma_move_keeps_pieces(pre: Game, post: Game, c: int)
    requires
        pre.wf(),
        move_applied(pre, post, c),
    ensures
        post.grid@.len() == pre.grid@.len(),
        forall|k: int|
            0 <= k < pre.grid@.len() && pre.grid@[k] != Entity::Empty ==> post.grid@[k]
                == pre.grid@[k],
{
    let g = pre.grid@;
    let h = pre.h();
    let w = pre.w();
    let i0 = choose|i: int|
        #[trigger] is_landing(g, h, w, c, i) && post.grid@ == g.update(i * w + c, pre.next);
    assert(is_landing(g, h, w, c, i0) && post.grid@ == g.update(i0 * w + c, pre.next));
    lemma_cell_index(h, w, i0, c);
    assert forall|k: int|
        0 <= k < pre.grid@.len() && pre.grid@[k] != Entity::Empty implies post.grid@[k]
        == pre.grid@[k] by {
        assert(g[i0 * w + c] == Entity::Empty);
    }
}

/// One move of the mover into a legal column leads from `pre` to `post`.
pub open spec fn legal_step(pre: Game, post: Game) -> bool {
    exists|c: int| pre.legal_col(c) && #[trigger] move_applied(pre, post, c)
}

/// Link `i` of a playout: the next board is one legal move away, and the
/// board moved from is undecided.
pub open spec fn playout_step(s: Seq<Game>, i: int) -> bool {
    &&& legal_step(s[i], s[i + 1])
    &&& !s[i].has_four(Entity::O)
    &&& !s[i].has_four(Entity::X)
}

/// `s` records a playout: consecutive boards are one legal move apart, and a
/// move is only ever made from an undecided board.
pub open spec fn playout_trace(s: Seq<Game>) -> bool {
    forall|i: int| 0 <= i < s.len() - 1 ==> #[trigger] playout_step(s, i)
}

/// One link of a playout: from each board but the last, the next board is
/// one legal move away, and the board moved from is undecided.
pub proof fn lemma_playout_trace_step(s: Seq<Game>, i: int)
    requires
        playout_trace(s),
        0 <= i < s.len() - 1,
    ensures
        legal_step(s[i], s[i + 1]),
        !s[i].has_four(Entity::O),
        !s[i].has_four(Entity::X),
{
    assert(playout_step(s, i));
}

/// The empty-cell count never exceeds the grid's size, so a playout from a
/// well-formed board makes at most `height * width` moves.
pub proof fn lemma_count_empty_le_len(g: Seq<Entity>)
    ensures
        count_empty(g) <= g.len(),
    decreases g.len(),
{
    if g.len() > 0 {
        lemma_count_empty_le_len(g.drop_last());
    }
}

} // verus!
