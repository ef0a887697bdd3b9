//! The game engine: the board, the set of revealed cells, flood-fill reveal
//! and the win condition.
use crate::count::{
    count_rows, count_true, grid_count, lemma_count_rows_le, lemma_count_rows_set,
    lemma_count_true_concat, lemma_count_true_le, lemma_count_true_set,
};
use crate::parse::{coordinate_of, parse_coordinate, trimmed};
use crate::random::shuffle;
use vstd::prelude::*;

verus! {

/// One square of the board. A mine's `adjacent_mines` is left at zero.
#[derive(Clone, Copy, Debug, PartialEq, Eq, Structural)]
pub struct Cell {
    pub is_mine: bool,
    pub adjacent_mines: u8,
}

/// What a reveal found.
#[derive(Clone, Copy, Debug, PartialEq, Eq, Structural)]
pub enum RevealOutcome {
    SafeSoFar,
    HitMine,
}

/// Why a request to the engine was refused.
#[derive(Clone, Copy, Debug, PartialEq, Eq, Structural)]
pub enum GameError {
    /// Empty board, board too large to index, or no safe cell left.
    InvalidConfiguration,
    /// A coordinate outside the board.
    OutOfBounds,
}

/// `1` for `true`, `0` for `false`.
pub open spec fn indicator(b: bool) -> nat {
    if b {
        1
    } else {
        0
    }
}

/// `g` has `rows` rows of `cols` entries each.
pub open spec fn is_grid<A>(g: Seq<Seq<A>>, rows: nat, cols: nat) -> bool {
    &&& g.len() == rows
    &&& forall|r: int| 0 <= r < rows ==> #[trigger] g[r].len() == cols
}

/// Two distinct cells at Chebyshev distance one.
pub open spec fn adjacent(a: (int, int), b: (int, int)) -> bool {
    &&& a != b
    &&& -1 <= a.0 - b.0 <= 1
    &&& -1 <= a.1 - b.1 <= 1
}

/// The cell `(r, c)` lies on a `rows` by `cols` grid and holds a mine.
pub open spec fn mine_at(mines: Seq<Seq<bool>>, rows: nat, cols: nat, r: int, c: int) -> bool {
    0 <= r < rows && 0 <= c < cols && mines[r][c]
}

/// The number of mines among the up to eight neighbours of `(r, c)`.
pub open spec fn neighbor_mines(mines: Seq<Seq<bool>>, rows: nat, cols: nat, r: int, c: int) -> nat {
    indicator(mine_at(mines, rows, cols, r - 1, c - 1))
        + indicator(mine_at(mines, rows, cols, r - 1, c))
        + indicator(mine_at(mines, rows, cols, r - 1, c + 1))
        + indicator(mine_at(mines, rows, cols, r, c - 1))
        + indicator(mine_at(mines, rows, cols, r, c + 1))
        + indicator(mine_at(mines, rows, cols, r + 1, c - 1))
        + indicator(mine_at(mines, rows, cols, r + 1, c))
        + indicator(mine_at(mines, rows, cols, r + 1, c + 1))
}

/// The abstract state of a game.
pub struct GameView {
    pub rows: nat,
    pub cols: nat,
    /// `mines[r][c]`: the cell holds a mine.
    pub mines: Seq<Seq<bool>>,
    /// `adjacent[r][c]`: the count shown on the cell once revealed.
    pub adjacent: Seq<Seq<nat>>,
    /// `revealed[r][c]`: the player has exposed the cell.
    pub revealed: Seq<Seq<bool>>,
}

impl GameView {
    pub open spec fn in_bounds(self, r: int, c: int) -> bool {
        0 <= r < self.rows && 0 <= c < self.cols
    }

    pub open spec fn mine_at(self, r: int, c: int) -> bool {
        mine_at(self.mines, self.rows, self.cols, r, c)
    }

    pub open spec fn neighbor_mines(self, r: int, c: int) -> nat {
        neighbor_mines(self.mines, self.rows, self.cols, r, c)
    }

    /// A safe cell with no mine around it.
    pub open spec fn is_blank(self, r: int, c: int) -> bool {
        self.in_bounds(r, c) && !self.mines[r][c] && self.adjacent[r][c] == 0
    }

    /// Shapes agree, and every safe cell shows the number of its neighbouring mines.
    pub open spec fn well_formed(self) -> bool {
        &&& is_grid(self.mines, self.rows, self.cols)
        &&& is_grid(self.adjacent, self.rows, self.cols)
        &&& is_grid(self.revealed, self.rows, self.cols)
        &&& forall|r: int, c: int|
            self.in_bounds(r, c) && !self.mines[r][c] ==> #[trigger] self.adjacent[r][c]
                == self.neighbor_mines(r, c)
    }

    /// The number of mines on the board.
    pub open spec fn mine_count(self) -> nat {
        grid_count(self.mines)
    }

    /// The revealed cells are exactly the safe cells.
    pub open spec fn is_cleared(self) -> bool {
        forall|r: int, c: int| #[trigger]
            self.in_bounds(r, c) ==> self.revealed[r][c] == !self.mines[r][c]
    }

    /// A route that a flood fill can take on this state: it runs over hidden
    /// cells, each step goes to an adjacent cell, and every cell it leaves is blank.
    pub open spec fn is_flood_path(self, p: Seq<(int, int)>) -> bool {
        &&& p.len() > 0
        &&& forall|i: int|
            0 <= i < p.len() ==> self.in_bounds(#[trigger] p[i].0, p[i].1) && !self.revealed[p[i].0][p[i].1]
        &&& forall|i: int|
            0 <= i < p.len() - 1 ==> self.is_blank(#[trigger] p[i].0, p[i].1) && adjacent(p[i], p[i + 1])
    }

    /// Revealing `s` on this state goes on to reveal `t`.
    pub open spec fn flood_reaches(self, s: (int, int), t: (int, int)) -> bool {
        exists|p: Seq<(int, int)>| #[trigger] self.is_flood_path(p) && p[0] == s && p.last() == t
    }
}

/// The view of a grid of booleans.
pub open spec fn bool_rows(v: Seq<Vec<bool>>) -> Seq<Seq<bool>> {
    v.map_values(|row: Vec<bool>| row@)
}

/// A game in progress: the board, fixed once generated, and the revealed cells.
pub struct Game {
    rows: usize,
    cols: usize,
    board: Vec<Vec<Cell>>,
    revealed: Vec<Vec<bool>>,
}

impl View for Game {
    type V = GameView;

    closed spec fn view(&self) -> GameView {
        GameView {
            rows: self.rows as nat,
            cols: self.cols as nat,
            mines: self.board@.map_values(|row: Vec<Cell>| row@.map_values(|cell: Cell| cell.is_mine)),
            adjacent: self.board@.map_values(
                |row: Vec<Cell>| row@.map_values(|cell: Cell| cell.adjacent_mines as nat),
            ),
            revealed: bool_rows(self.revealed@),
        }
    }
}

/// The position one step from `x` in direction `d` (0 back, 1 stay, 2 forward),
/// if it stays below `bound`.
fn step(x: usize, d: usize, bound: usize) -> (r: Option<usize>)
    requires
        x < bound,
        d < 3,
    ensures
        match r {
            Some(y) => y == x + d - 1 && y < bound,
            None => !(0 <= x + d - 1 < bound),
        },
{
    if d == 0 {
        if x == 0 {
            None
        } else {
            Some(x - 1)
        }
    } else if d == 1 {
        Some(x)
    } else if x + 1 < bound {
        Some(x + 1)
    } else {
        None
    }
}

/// Whether the neighbour of `(r, c)` in direction `(dr, dc)` holds a mine.
fn mine_toward(mines: &Vec<Vec<bool>>, rows: usize, cols: usize, r: usize, c: usize, dr: usize, dc: usize) -> (b: bool)
    requires
        is_grid(bool_rows(mines@), rows as nat, cols as nat),
        r < rows,
        c < cols,
        dr < 3,
        dc < 3,
    ensures
        b == mine_at(bool_rows(mines@), rows as nat, cols as nat, r + dr - 1, c + dc - 1),
{
    match (step(r, dr, rows), step(c, dc, cols)) {
        (Some(nr), Some(nc)) => {
            assert(bool_rows(mines@)[nr as int].len() == cols);
            mines[nr][nc]
        },
        _ => false,
    }
}

/// Counts the mines around `(r, c)`.
fn count_adjacent(mines: &Vec<Vec<bool>>, rows: usize, cols: usize, r: usize, c: usize) -> (n: u8)
    requires
        is_grid(bool_rows(mines@), rows as nat, cols as nat),
        r < rows,
        c < cols,
    ensures
        n as nat == neighbor_mines(bool_rows(mines@), rows as nat, cols as nat, r as int, c as int),
{
    let mut n: u8 = 0;
    let mut dr: usize = 0;
    while dr < 3
        invariant
            is_grid(bool_rows(mines@), rows as nat, cols as nat),
            r < rows,
            c < cols,
            dr <= 3,
            n <= 3 * dr,
            n as nat == (if dr > 0 {
                indicator(mine_at(bool_rows(mines@), rows as nat, cols as nat, r - 1, c - 1))
                    + indicator(mine_at(bool_rows(mines@), rows as nat, cols as nat, r - 1, c as int))
                    + indicator(mine_at(bool_rows(mines@), rows as nat, cols as nat, r - 1, c + 1))
            } else {
                0nat
            }) + (if dr > 1 {
                indicator(mine_at(bool_rows(mines@), rows as nat, cols as nat, r as int, c - 1))
                    + indicator(mine_at(bool_rows(mines@), rows as nat, cols as nat, r as int, c + 1))
            } else {
                0nat
            }) + (if dr > 2 {
                indicator(mine_at(bool_rows(mines@), rows as nat, cols as nat, r + 1, c - 1))
                    + indicator(mine_at(bool_rows(mines@), rows as nat, cols as nat, r + 1, c as int))
                    + indicator(mine_at(bool_rows(mines@), rows as nat, cols as nat, r + 1, c + 1))
            } else {
                0nat
            }),
        decreases 3 - dr,
    {
        let mut dc: usize = 0;
        let n0 = n;
        while dc < 3
            invariant
                is_grid(bool_rows(mines@), rows as nat, cols as nat),
                r < rows,
                c < cols,
                dr < 3,
                dc <= 3,
                n0 <= 3 * dr,
                n <= n0 + dc,
                n as nat == n0 as nat
                    + (if dc > 0 { indicator(mine_at(bool_rows(mines@), rows as nat, cols as nat, r + dr - 1, c - 1)) } else { 0nat })
                    + (if dc > 1 && dr != 1 { indicator(mine_at(bool_rows(mines@), rows as nat, cols as nat, r + dr - 1, c as int)) } else { 0nat })
                    + (if dc > 2 { indicator(mine_at(bool_rows(mines@), rows as nat, cols as nat, r + dr - 1, c + 1)) } else { 0nat }),
            decreases 3 - dc,
        {
            if !(dr == 1 && dc == 1) && mine_toward(mines, rows, cols, r, c, dr, dc) {
                n = n + 1;
            }
            dc = dc + 1;
        }
        dr = dr + 1;
    }
    n
}


/// `r * cols + c` is the row-major index of a cell of a `rows` by `cols` grid.
proof fn lemma_cell_index(r: int, c: int, rows: int, cols: int)
    requires
        0 <= r < rows,
        0 <= c < cols,
    ensures
        0 <= r * cols,
        r * cols + c < rows * cols,
        r * cols + cols <= rows * cols,
        (r + 1) * cols == r * cols + cols,
{
    assert(0 <= r * cols) by (nonlinear_arith)
        requires
            0 <= r,
            0 <= c < cols,
    ;
    assert(r * cols + cols <= rows * cols) by (nonlinear_arith)
        requires
            0 <= r < rows,
            0 <= c < cols,
    ;
    assert((r + 1) * cols == r * cols + cols) by (nonlinear_arith);
}

/// Marks the first `num_mines` positions of `order` in a row-major vector of
/// `n` flags.
fn mark_mines(order: &Vec<usize>, num_mines: usize, n: usize) -> (flags: Vec<bool>)
    requires
        order@.len() == n,
        num_mines <= n,
        order@.no_duplicates(),
        forall|i: int| 0 <= i < n ==> #[trigger] order@[i] < n,
    ensures
        flags@.len() == n,
        forall|k: int| 0 <= k < n ==> #[trigger] flags@[k] == order@.take(num_mines as int).contains(k as usize),
        count_true(flags@) == num_mines,
{
    let mut flags: Vec<bool> = Vec::new();
    let mut k: usize = 0;
    while k < n
        invariant
            k <= n,
            flags@.len() == k,
            forall|j: int| 0 <= j < k ==> !#[trigger] flags@[j],
            count_true(flags@) == 0,
        decreases n - k,
    {
        let ghost before = flags@;
        flags.push(false);
        assert(flags@.drop_last() =~= before);
        k = k + 1;
    }
    let mut i: usize = 0;
    while i < num_mines
        invariant
            i <= num_mines <= n,
            order@.len() == n,
            order@.no_duplicates(),
            forall|j: int| 0 <= j < n ==> #[trigger] order@[j] < n,
            flags@.len() == n,
            forall|j: int| 0 <= j < n ==> #[trigger] flags@[j] == order@.take(i as int).contains(j as usize),
            count_true(flags@) == i,
        decreases num_mines - i,
    {
        let pos = order[i];
        assert(order@[i as int] < n);
        assert(!order@.take(i as int).contains(pos)) by {
            if order@.take(i as int).contains(pos) {
                let j = choose|j: int| 0 <= j < i && order@.take(i as int)[j] == pos;
                assert(order@[j] == order@[i as int]);
            }
        }
        proof {
            lemma_count_true_set(flags@, pos as int);
        }
        let ghost prev = flags@;
        flags.set(pos, true);
        proof {
            let before = order@.take(i as int);
            let after = order@.take(i + 1);
            assert(after =~= before.push(pos));
            assert forall|j: int| 0 <= j < n implies #[trigger] flags@[j] == after.contains(j as usize) by {
                if before.contains(j as usize) {
                    let w = choose|w: int| 0 <= w < before.len() && before[w] == j as usize;
                    assert(after[w] == j as usize);
                }
                if after.contains(j as usize) {
                    let w = choose|w: int| 0 <= w < after.len() && after[w] == j as usize;
                    if w < i {
                        assert(before[w] == j as usize);
                    }
                }
                if j == pos {
                    assert(after[i as int] == pos);
                }
            }
        }
        i = i + 1;
    }
    flags
}

impl Game {
    /// The engine's own invariant: a well-formed, non-empty board whose cell
    /// count fits in a `usize`.
    pub open spec fn wf(&self) -> bool {
        &&& self@.well_formed()
        &&& self@.rows > 0
        &&& self@.cols > 0
        &&& self@.rows * self@.cols <= usize::MAX
    }

    /// Builds a game whose mines stand on the cells whose row-major indices
    /// (`row * cols + col`) come first in `order`, a permutation of all the
    /// board's indices. Nothing is revealed yet.
    pub fn with_order(rows: usize, cols: usize, num_mines: usize, order: &Vec<usize>) -> (g: Game)
        requires
            rows > 0,
            cols > 0,
            rows * cols <= usize::MAX,
            num_mines < rows * cols,
            order@.len() == rows * cols,
            order@.no_duplicates(),
            forall|i: int| 0 <= i < order@.len() ==> #[trigger] order@[i] < rows * cols,
        ensures
            g.wf(),
            g@.rows == rows,
            g@.cols == cols,
            forall|r: int, c: int| #[trigger]
                g@.in_bounds(r, c) ==> g@.mines[r][c] == order@.take(num_mines as int).contains(
                    (r * cols + c) as usize,
                ),
            g@.mine_count() == num_mines,
            forall|r: int, c: int| #[trigger]
                g@.in_bounds(r, c) && !g@.mines[r][c] ==> g@.adjacent[r][c] == g@.neighbor_mines(r, c),
            forall|r: int, c: int| #[trigger] g@.in_bounds(r, c) ==> !g@.revealed[r][c],
    {
        let n: usize = rows * cols;
        let flags = mark_mines(order, num_mines, n);
        let ghost taken = order@.take(num_mines as int);

        // The flags, cut into rows.
        let mut mines: Vec<Vec<bool>> = Vec::new();
        let mut r: usize = 0;
        while r < rows
            invariant
                r <= rows,
                rows > 0,
                cols > 0,
                n == rows * cols,
                flags@.len() == n,
                mines@.len() == r,
                forall|i: int| 0 <= i < r ==> #[trigger] mines@[i]@ =~= flags@.subrange(i * cols, i * cols + cols),
                count_rows(bool_rows(mines@), r as int) == count_true(flags@.subrange(0, r * cols)),
            decreases rows - r,
        {
            proof {
                lemma_cell_index(r as int, 0, rows as int, cols as int);
            }
            let mut row: Vec<bool> = Vec::new();
            let mut c: usize = 0;
            while c < cols
                invariant
                    r < rows,
                    c <= cols,
                    n == rows * cols,
                    flags@.len() == n,
                    r * cols + cols <= n,
                    row@ =~= flags@.subrange(r * cols, r * cols + c),
                decreases cols - c,
            {
                row.push(flags[r * cols + c]);
                c = c + 1;
            }
            let ghost prev = mines@;
            mines.push(row);
            proof {
                assert(bool_rows(mines@).subrange(0, r as int) =~= bool_rows(prev));
                assert forall|i: int| 0 <= i <= r implies count_rows(bool_rows(mines@), i) == count_rows(bool_rows(prev), i) by {
                    lemma_count_rows_prefix(bool_rows(mines@), bool_rows(prev), i);
                }
                assert(flags@.subrange(0, (r + 1) * cols) =~= flags@.subrange(0, r * cols) + flags@.subrange(r * cols, r * cols + cols));
                lemma_count_true_concat(flags@.subrange(0, r * cols), flags@.subrange(r * cols, r * cols + cols));
            }
            r = r + 1;
        }
        assert(flags@.subrange(0, rows * cols) =~= flags@);
        assert(count_rows(bool_rows(mines@), rows as int) == num_mines);

        // The cells, with the count of mines around each safe one.
        let mut board: Vec<Vec<Cell>> = Vec::new();
        let mut revealed: Vec<Vec<bool>> = Vec::new();
        proof {
            assert forall|i: int| 0 <= i < rows implies #[trigger] bool_rows(mines@)[i].len() == cols by {
                lemma_cell_index(i, 0, rows as int, cols as int);
            }
        }
        let mut r: usize = 0;
        while r < rows
            invariant
                r <= rows,
                rows > 0,
                cols > 0,
                n == rows * cols,
                mines@.len() == rows,
                is_grid(bool_rows(mines@), rows as nat, cols as nat),
                forall|i: int| 0 <= i < rows ==> #[trigger] mines@[i]@ =~= flags@.subrange(i * cols, i * cols + cols),
                flags@.len() == n,
                forall|k: int| 0 <= k < n ==> #[trigger] flags@[k] == taken.contains(k as usize),
                board@.len() == r,
                revealed@.len() == r,
                forall|i: int| 0 <= i < r ==> (#[trigger] board@[i])@.len() == cols,
                forall|i: int| 0 <= i < r ==> (#[trigger] revealed@[i])@.len() == cols,
                forall|i: int, j: int| 0 <= i < r && 0 <= j < cols ==> !(#[trigger] revealed@[i]@[j]),
                forall|i: int, j: int| 0 <= i < r && 0 <= j < cols ==>
                    (#[trigger] board@[i]@[j]).is_mine == mines@[i]@[j],
                forall|i: int, j: int| 0 <= i < r && 0 <= j < cols && !mines@[i]@[j] ==>
                    (#[trigger] board@[i]@[j]).adjacent_mines as nat == neighbor_mines(bool_rows(mines@), rows as nat, cols as nat, i, j),
            decreases rows - r,
        {
            let mut row: Vec<Cell> = Vec::new();
            let mut hidden: Vec<bool> = Vec::new();
            let mut c: usize = 0;
            while c < cols
                invariant
                    r < rows,
                    c <= cols,
                    mines@.len() == rows,
                    is_grid(bool_rows(mines@), rows as nat, cols as nat),
                    row@.len() == c,
                    hidden@.len() == c,
                    forall|j: int| 0 <= j < c ==> !#[trigger] hidden@[j],
                    forall|j: int| 0 <= j < c ==> (#[trigger] row@[j]).is_mine == mines@[r as int]@[j],
                    forall|j: int| 0 <= j < c && !mines@[r as int]@[j] ==>
                        (#[trigger] row@[j]).adjacent_mines as nat == neighbor_mines(bool_rows(mines@), rows as nat, cols as nat, r as int, j),
                decreases cols - c,
            {
                assert(bool_rows(mines@)[r as int].len() == cols);
                if mines[r][c] {
                    row.push(Cell { is_mine: true, adjacent_mines: 0 });
                } else {
                    let count = count_adjacent(&mines, rows, cols, r, c);
                    row.push(Cell { is_mine: false, adjacent_mines: count });
                }
                hidden.push(false);
                c = c + 1;
            }
            board.push(row);
            revealed.push(hidden);
            r = r + 1;
        }
        let g = Game { rows, cols, board, revealed };
        assert(g@.mines =~~= bool_rows(mines@));
        assert forall|i: int, j: int| #[trigger] g@.in_bounds(i, j) implies g@.mines[i][j] == taken.contains((i * cols + j) as usize) by {
            lemma_cell_index(i, j, rows as int, cols as int);
            assert(mines@[i]@[j] == flags@[i * cols + j]);
        }
        g
    }
}

/// Two grids that agree on their first `n` rows have the same count there.
proof fn lemma_count_rows_prefix(a: Seq<Seq<bool>>, b: Seq<Seq<bool>>, n: int)
    requires
        0 <= n <= b.len(),
        n <= a.len(),
        forall|i: int| 0 <= i < n ==> a[i] == b[i],
    ensures
        count_rows(a, n) == count_rows(b, n),
    decreases n,
{
    if n > 0 {
        lemma_count_rows_prefix(a, b, n - 1);
    }
}

/// The indices `0..n`, in an order drawn at random.
fn shuffled_indices(n: usize) -> (order: Vec<usize>)
    ensures
        order@.len() == n,
        order@.no_duplicates(),
        forall|i: int| 0 <= i < n ==> #[trigger] order@[i] < n,
{
    let mut order: Vec<usize> = Vec::new();
    let mut k: usize = 0;
    while k < n
        invariant
            k <= n,
            order@.len() == k,
            forall|i: int| 0 <= i < k ==> #[trigger] order@[i] == i,
        decreases n - k,
    {
        order.push(k);
        k = k + 1;
    }
    let ghost before = order@;
    shuffle(&mut order);
    proof {
        broadcast use vstd::seq_lib::group_to_multiset_ensures;

        assert(before.no_duplicates());
        before.lemma_multiset_has_no_duplicates();
        assert(order@.len() == n) by {
            assert(order@.to_multiset().len() == before.to_multiset().len());
        }
        assert forall|x: usize| order@.to_multiset().contains(x) implies order@.to_multiset().count(x) == 1 by {
            assert(before.to_multiset().contains(x));
        }
        order@.lemma_multiset_has_no_duplicates_conv();
        assert forall|i: int| 0 <= i < n implies #[trigger] order@[i] < n by {
            assert(order@.contains(order@[i]));
            assert(before.to_multiset().count(order@[i]) > 0);
            let w = choose|w: int| 0 <= w < before.len() && before[w] == order@[i];
        }
    }
    order
}

impl Game {
    /// Starts a game on a `rows` by `cols` board with `num_mines` mines placed
    /// uniformly at random. Refused with `InvalidConfiguration` where the
    /// board is empty, its cell count overflows a `usize`, or the mines would
    /// leave no safe cell.
    pub fn new(rows: usize, cols: usize, num_mines: usize) -> (res: Result<Game, GameError>)
        ensures
            res is Ok <==> rows > 0 && cols > 0 && rows * cols <= usize::MAX && num_mines < rows * cols,
            res is Err ==> res == Err::<Game, GameError>(GameError::InvalidConfiguration),
            res matches Ok(g) ==> {
                &&& g.wf()
                &&& g@.rows == rows
                &&& g@.cols == cols
                &&& g@.mine_count() == num_mines
                &&& forall|r: int, c: int| #[trigger]
                    g@.in_bounds(r, c) && !g@.mines[r][c] ==> g@.adjacent[r][c] == g@.neighbor_mines(r, c)
                &&& forall|r: int, c: int| #[trigger] g@.in_bounds(r, c) ==> !g@.revealed[r][c]
            },
    {
        if rows == 0 || cols == 0 {
            return Err(GameError::InvalidConfiguration);
        }
        let n = match rows.checked_mul(cols) {
            Some(n) => n,
            None => return Err(GameError::InvalidConfiguration),
        };
        if num_mines >= n {
            return Err(GameError::InvalidConfiguration);
        }
        let order = shuffled_indices(n);
        Ok(Game::with_order(rows, cols, num_mines, &order))
    }
}

/// Every in-bounds neighbour of `(r, c)` is revealed.
pub open spec fn neighbors_revealed(v: GameView, r: int, c: int) -> bool {
    forall|a: int, b: int|
        v.in_bounds(a, b) && adjacent((r, c), (a, b)) ==> #[trigger] v.revealed[a][b]
}

/// No neighbour of a blank cell holds a mine.
pub proof fn lemma_blank_neighbor_safe(v: GameView, r: int, c: int, a: int, b: int)
    requires
        v.well_formed(),
        v.is_blank(r, c),
        v.in_bounds(a, b),
        adjacent((r, c), (a, b)),
    ensures
        !v.mines[a][b],
{
    assert(v.adjacent[r][c] == v.neighbor_mines(r, c));
    assert(!v.mine_at(a, b));
}

/// A flood fill that starts on a cell that is not blank stops there.
pub proof fn lemma_flood_from_non_blank(v: GameView, s: (int, int), t: (int, int))
    requires
        !v.is_blank(s.0, s.1),
        v.flood_reaches(s, t),
    ensures
        t == s,
{
    let p = choose|p: Seq<(int, int)>| #[trigger] v.is_flood_path(p) && p[0] == s && p.last() == t;
    if p.len() > 1 {
        assert(v.is_blank(p[0].0, p[0].1));
    }
}

/// A hidden cell is reached by the flood fill that starts on it.
pub proof fn lemma_flood_start(v: GameView, s: (int, int))
    requires
        v.in_bounds(s.0, s.1),
        !v.revealed[s.0][s.1],
    ensures
        v.flood_reaches(s, s),
{
    let p = seq![s];
    assert(v.is_flood_path(p));
}

/// A flood fill that reaches a blank cell goes on to its hidden neighbours.
proof fn lemma_flood_step(v: GameView, s: (int, int), x: (int, int), y: (int, int))
    requires
        v.flood_reaches(s, x),
        v.is_blank(x.0, x.1),
        v.in_bounds(y.0, y.1),
        !v.revealed[y.0][y.1],
        adjacent(x, y),
    ensures
        v.flood_reaches(s, y),
{
    let p = choose|p: Seq<(int, int)>| #[trigger] v.is_flood_path(p) && p[0] == s && p.last() == x;
    let q = p.push(y);
    assert forall|i: int| 0 <= i < q.len() - 1 implies v.is_blank(#[trigger] q[i].0, q[i].1) && adjacent(q[i], q[i + 1]) by {
        if i < p.len() - 1 {
            assert(q[i] == p[i] && q[i + 1] == p[i + 1]);
        }
    }
    assert(v.is_flood_path(q));
}

/// Once the start is revealed, and every newly revealed blank cell has all its
/// neighbours revealed, each cell along a flood path is revealed.
proof fn lemma_flood_path_revealed(v: GameView, w: GameView, p: Seq<(int, int)>, k: int)
    requires
        v.is_flood_path(p),
        0 <= k < p.len(),
        w.revealed[p[0].0][p[0].1],
        forall|r: int, c: int|
            #![trigger v.is_blank(r, c)]
            v.in_bounds(r, c) && w.revealed[r][c] && !v.revealed[r][c] && v.is_blank(r, c)
                ==> neighbors_revealed(w, r, c),
        w.rows == v.rows,
        w.cols == v.cols,
    ensures
        w.revealed[p[k].0][p[k].1],
    decreases k,
{
    if k > 0 {
        lemma_flood_path_revealed(v, w, p, k - 1);
        let x = p[k - 1];
        assert(v.is_blank(x.0, x.1) && adjacent(x, p[k]));
        assert(v.in_bounds(p[k].0, p[k].1));
        assert(neighbors_revealed(w, x.0, x.1));
    }
}

impl Game {
    /// Marks one cell as revealed.
    fn mark_revealed(&mut self, r: usize, c: usize)
        requires
            old(self).wf(),
            old(self)@.in_bounds(r as int, c as int),
            !old(self)@.revealed[r as int][c as int],
        ensures
            final(self).wf(),
            final(self).rows == old(self).rows,
            final(self).cols == old(self).cols,
            final(self).board == old(self).board,
            final(self)@.revealed == old(self)@.revealed.update(
                r as int,
                old(self)@.revealed[r as int].update(c as int, true),
            ),
            grid_count(final(self)@.revealed) == grid_count(old(self)@.revealed) + 1,
    {
        let ghost v = self@;
        assert(v.revealed[r as int].len() == self.cols);
        self.revealed[r][c] = true;
        proof {
            assert(self@.revealed =~~= v.revealed.update(r as int, v.revealed[r as int].update(c as int, true)));
            lemma_count_rows_set(v.revealed, r as int, c as int, v.rows as int);
        }
    }
}

/// What a flood fill from `s` on the state `v` keeps true, with the state
/// now at `w` and the cells on `stack` still to expand: the board is
/// unchanged, the revealed cells only grow, each newly revealed cell is safe
/// and reached from `s`, and the stack holds newly revealed cells.
pub open spec fn flood_progress(v: GameView, s: (int, int), w: GameView, stack: Seq<(usize, usize)>) -> bool {
    &&& v.well_formed()
    &&& v.in_bounds(s.0, s.1)
    &&& w.mines == v.mines
    &&& w.adjacent == v.adjacent
    &&& w.revealed[s.0][s.1]
    &&& grid_count(w.revealed) <= v.rows * v.cols
    &&& forall|r: int, c: int| #[trigger] v.in_bounds(r, c) && v.revealed[r][c] ==> w.revealed[r][c]
    &&& forall|r: int, c: int| #[trigger]
        v.in_bounds(r, c) && w.revealed[r][c] && !v.revealed[r][c] ==> v.flood_reaches(s, (r, c))
            && !v.mines[r][c]
    &&& forall|i: int| 0 <= i < stack.len() ==> {
        let (a, b) = #[trigger] stack[i];
        v.in_bounds(a as int, b as int) && w.revealed[a as int][b as int] && !v.revealed[a as int][b as int]
    }
}

impl Game {
    /// Reveals the cell `(row, col)`. A hidden blank cell floods outward over
    /// its hidden neighbours, and on through every blank cell so exposed.
    /// Returns `HitMine` where the cell holds a mine; a revealed cell is left
    /// as it is.
    pub fn reveal_cell(&mut self, row: usize, col: usize) -> (res: Result<RevealOutcome, GameError>)
        requires
            old(self).wf(),
        ensures
            final(self).wf(),
            final(self)@.rows == old(self)@.rows,
            final(self)@.cols == old(self)@.cols,
            final(self)@.mines == old(self)@.mines,
            final(self)@.adjacent == old(self)@.adjacent,
            !old(self)@.in_bounds(row as int, col as int) ==> res == Err::<RevealOutcome, GameError>(
                GameError::OutOfBounds,
            ) && final(self)@ == old(self)@,
            old(self)@.in_bounds(row as int, col as int) && old(self)@.revealed[row as int][col as int]
                ==> res == Ok::<RevealOutcome, GameError>(RevealOutcome::SafeSoFar) && final(self)@
                == old(self)@,
            old(self)@.in_bounds(row as int, col as int) && !old(self)@.revealed[row as int][col as int]
                ==> res == Ok::<RevealOutcome, GameError>(
                if old(self)@.mines[row as int][col as int] {
                    RevealOutcome::HitMine
                } else {
                    RevealOutcome::SafeSoFar
                },
            ),
            old(self)@.in_bounds(row as int, col as int) ==> {
                &&& final(self)@.revealed[row as int][col as int]
                &&& forall|r: int, c: int| #[trigger]
                    old(self)@.in_bounds(r, c) ==> final(self)@.revealed[r][c] == (
                    old(self)@.revealed[r][c] || old(self)@.flood_reaches(
                        (row as int, col as int),
                        (r, c),
                    ))
            },
    {
        let ghost v = self@;
        let ghost s = (row as int, col as int);
        if row >= self.rows || col >= self.cols {
            return Err(GameError::OutOfBounds);
        }
        assert(v.revealed[row as int].len() == self.cols);
        assert(self@.mines[row as int].len() == self.cols);
        assert(self.board@[row as int]@.len() == self.cols);
        if self.revealed[row][col] {
            proof {
                assert forall|r: int, c: int| #[trigger] v.in_bounds(r, c) && v.flood_reaches(s, (r, c)) implies v.revealed[r][c] by {
                    let p = choose|p: Seq<(int, int)>| #[trigger] v.is_flood_path(p) && p[0] == s && p.last() == (r, c);
                    assert(!v.revealed[p[0].0][p[0].1]);
                }
            }
            return Ok(RevealOutcome::SafeSoFar);
        }
        proof {
            lemma_flood_start(v, s);
        }
        self.mark_revealed(row, col);
        if self.board[row][col].is_mine {
            proof {
                assert forall|r: int, c: int| #[trigger] v.in_bounds(r, c) implies self@.revealed[r][c] == (v.revealed[r][c] || v.flood_reaches(s, (r, c))) by {
                    if v.flood_reaches(s, (r, c)) {
                        lemma_flood_from_non_blank(v, s, (r, c));
                    }
                }
            }
            return Ok(RevealOutcome::HitMine);
        }
        let mut stack: Vec<(usize, usize)> = Vec::new();
        stack.push((row, col));
        proof {
            lemma_count_rows_le(self@.revealed, self@.rows as int, self@.cols as int);
            assert(stack@[0] == (row, col));
            assert forall|r: int, c: int|
                #![trigger v.is_blank(r, c)]
                v.in_bounds(r, c) && self@.revealed[r][c] && !v.revealed[r][c] && v.is_blank(r, c)
                    implies stack@.contains((r as usize, c as usize)) by {
                assert((r, c) == s);
            }
        }
        while stack.len() > 0
            invariant
                self.wf(),
                s == (row as int, col as int),
                self.rows == v.rows,
                self.cols == v.cols,
                flood_progress(v, s, self@, stack@),
                forall|r: int, c: int|
                    #![trigger v.is_blank(r, c)]
                    v.in_bounds(r, c) && self@.revealed[r][c] && !v.revealed[r][c] && v.is_blank(r, c)
                        && !stack@.contains((r as usize, c as usize)) ==> neighbors_revealed(self@, r, c),
            decreases 2 * (v.rows * v.cols - grid_count(self@.revealed)) + stack@.len(),
        {
            let ghost m0 = 2 * (v.rows * v.cols - grid_count(self@.revealed)) + stack@.len();
            let ghost stack0 = stack@;
            let (x, y) = stack.pop().unwrap();
            let ghost cx = (x as int, y as int);
            proof {
                broadcast use vstd::seq_lib::lemma_seq_contains_after_push;

                assert(stack0 =~= stack@.push((x, y)));
                assert(stack0[stack0.len() - 1] == (x, y));
            }
            assert(v.in_bounds(cx.0, cx.1));
            assert(self@.mines[x as int].len() == self.cols);
            assert(self.board@[x as int]@.len() == self.cols);
            if self.board[x][y].adjacent_mines == 0 {
                assert(v.is_blank(cx.0, cx.1));
                let mut dr: usize = 0;
                while dr < 3
                    invariant
                        self.wf(),
                        v.is_blank(cx.0, cx.1),
                        cx == (x as int, y as int),
                        dr <= 3,
                        self.rows == v.rows,
                        self.cols == v.cols,
                        flood_progress(v, s, self@, stack@),
                        self@.revealed[cx.0][cx.1],
                        !v.revealed[cx.0][cx.1],
                        v.flood_reaches(s, cx),
                        2 * (v.rows * v.cols - grid_count(self@.revealed)) + stack@.len() < m0,
                        forall|r: int, c: int|
                            #![trigger v.is_blank(r, c)]
                            v.in_bounds(r, c) && self@.revealed[r][c] && !v.revealed[r][c] && v.is_blank(r, c)
                                && (r, c) != cx && !stack@.contains((r as usize, c as usize))
                                ==> neighbors_revealed(self@, r, c),
                        forall|a: int, b: int|
                            v.in_bounds(a, b) && adjacent(cx, (a, b)) && a - cx.0 + 1 < dr
                                ==> #[trigger] self@.revealed[a][b],
                    decreases 3 - dr,
                {
                    let mut dc: usize = 0;
                    while dc < 3
                        invariant
                            self.wf(),
                            v.is_blank(cx.0, cx.1),
                            cx == (x as int, y as int),
                            dr < 3,
                            dc <= 3,
                            self.rows == v.rows,
                            self.cols == v.cols,
                            flood_progress(v, s, self@, stack@),
                            self@.revealed[cx.0][cx.1],
                            !v.revealed[cx.0][cx.1],
                            v.flood_reaches(s, cx),
                            2 * (v.rows * v.cols - grid_count(self@.revealed)) + stack@.len() < m0,
                            forall|r: int, c: int|
                                #![trigger v.is_blank(r, c)]
                                v.in_bounds(r, c) && self@.revealed[r][c] && !v.revealed[r][c] && v.is_blank(r, c)
                                    && (r, c) != cx && !stack@.contains((r as usize, c as usize))
                                    ==> neighbors_revealed(self@, r, c),
                            forall|a: int, b: int|
                                v.in_bounds(a, b) && adjacent(cx, (a, b)) && (a - cx.0 + 1 < dr || (a
                                    - cx.0 + 1 == dr && b - cx.1 + 1 < dc)) ==> #[trigger] self@.revealed[a][b],
                        decreases 3 - dc,
                    {
                        if let (Some(nx), Some(ny)) = (step(x, dr, self.rows), step(y, dc, self.cols)) {
                            let ghost n = (nx as int, ny as int);
                            assert(self@.revealed[nx as int].len() == self.cols);
                            if !self.revealed[nx][ny] {
                                let ghost w = self@;
                                assert(v.in_bounds(n.0, n.1));
                                assert(!self@.revealed[n.0][n.1]);
                                proof {
                                    lemma_flood_step(v, s, cx, n);
                                    lemma_blank_neighbor_safe(v, cx.0, cx.1, n.0, n.1);
                                }
                                self.mark_revealed(nx, ny);
                                stack.push((nx, ny));
                                proof {
                                    broadcast use vstd::seq_lib::lemma_seq_contains_after_push;

                                    lemma_count_rows_le(self@.revealed, self@.rows as int, self@.cols as int);
                                    assert forall|r: int, c: int|
                                        v.in_bounds(r, c) && self@.revealed[r][c] && !v.revealed[r][c] && v.is_blank(r, c)
                                            && (r, c) != cx && !stack@.contains((r as usize, c as usize))
                                            implies neighbors_revealed(self@, r, c) by {
                                        assert(neighbors_revealed(w, r, c));
                                    }
                                }
                            }
                        }
                        dc = dc + 1;
                    }
                    dr = dr + 1;
                }
            }
        }
        proof {
            assert forall|r: int, c: int| #[trigger] v.in_bounds(r, c) implies self@.revealed[r][c] == (v.revealed[r][c] || v.flood_reaches(s, (r, c))) by {
                if v.flood_reaches(s, (r, c)) {
                    let p = choose|p: Seq<(int, int)>| #[trigger] v.is_flood_path(p) && p[0] == s && p.last() == (r, c);
                    lemma_flood_path_revealed(v, self@, p, p.len() - 1);
                }
            }
        }
        Ok(RevealOutcome::SafeSoFar)
    }
}

/// A flood fill from a safe cell reveals no mine: each cell it reaches is
/// the start or a neighbour of a blank cell that it reached before.
pub proof fn lemma_flood_reveals_no_mine(v: GameView, s: (int, int), t: (int, int))
    requires
        v.well_formed(),
        v.in_bounds(s.0, s.1),
        !v.mines[s.0][s.1],
        v.flood_reaches(s, t),
    ensures
        !v.mines[t.0][t.1],
        t == s || exists|x: (int, int)|
            #![trigger v.flood_reaches(s, x)]
            v.flood_reaches(s, x) && v.is_blank(x.0, x.1) && adjacent(x, t),
{
    let p = choose|p: Seq<(int, int)>| #[trigger] v.is_flood_path(p) && p[0] == s && p.last() == t;
    if p.len() > 1 {
        let k = p.len() - 2;
        let x = p[k];
        let q = p.take(k + 1);
        assert(v.is_blank(x.0, x.1) && adjacent(x, p[k + 1]));
        assert forall|i: int| 0 <= i < q.len() - 1 implies v.is_blank(#[trigger] q[i].0, q[i].1) && adjacent(q[i], q[i + 1]) by {
            assert(q[i] == p[i] && q[i + 1] == p[i + 1]);
        }
        assert(v.is_flood_path(q));
        assert(v.flood_reaches(s, x));
        assert(v.in_bounds(t.0, t.1));
        lemma_blank_neighbor_safe(v, x.0, x.1, t.0, t.1);
    }
}

/// A board with a revealed mine is not cleared, however many other cells
/// are revealed.
pub proof fn lemma_revealed_mine_not_cleared(v: GameView, r: int, c: int)
    requires
        v.in_bounds(r, c),
        v.mines[r][c],
        v.revealed[r][c],
    ensures
        !v.is_cleared(),
{
    assert(v.in_bounds(r, c) && v.revealed[r][c] != !v.mines[r][c]);
}

impl Game {
    /// Whether the player has won: every safe cell is revealed and no mine is.
    pub fn check_win(&self) -> (won: bool)
        requires
            self.wf(),
        ensures
            won == self@.is_cleared(),
    {
        let ghost v = self@;
        let mut r: usize = 0;
        while r < self.rows
            invariant
                self.wf(),
                v == self@,
                r <= self.rows,
                forall|i: int, j: int| #[trigger] v.in_bounds(i, j) && i < r ==> v.revealed[i][j] == !v.mines[i][j],
            decreases self.rows - r,
        {
            assert(v.mines[r as int].len() == self.cols && v.revealed[r as int].len() == self.cols);
            assert(self.board@[r as int]@.len() == self.cols);
            let mut c: usize = 0;
            while c < self.cols
                invariant
                    self.wf(),
                    v == self@,
                    r < self.rows,
                    c <= self.cols,
                    v.mines[r as int].len() == self.cols,
                    v.revealed[r as int].len() == self.cols,
                    self.board@[r as int]@.len() == self.cols,
                    forall|i: int, j: int| #[trigger] v.in_bounds(i, j) && (i < r || (i == r && j < c)) ==> v.revealed[i][j] == !v.mines[i][j],
                decreases self.cols - c,
            {
                if self.revealed[r][c] == self.board[r][c].is_mine {
                    assert(v.in_bounds(r as int, c as int));
                    return false;
                }
                c = c + 1;
            }
            r = r + 1;
        }
        true
    }

    /// The number of mines on the board.
    pub fn num_mines(&self) -> (n: usize)
        requires
            self.wf(),
        ensures
            n == self@.mine_count(),
    {
        let ghost v = self@;
        let mut total: usize = 0;
        let mut r: usize = 0;
        while r < self.rows
            invariant
                self.wf(),
                v == self@,
                r <= self.rows,
                total == count_rows(v.mines, r as int),
            decreases self.rows - r,
        {
            assert(v.mines[r as int].len() == self.cols);
            assert(self.board@[r as int]@.len() == self.cols);
            proof {
                lemma_count_rows_le(v.mines, r as int, self.cols as int);
                lemma_cell_index(r as int, 0, self.rows as int, self.cols as int);
            }
            let ghost row = v.mines[r as int];
            let mut in_row: usize = 0;
            let mut c: usize = 0;
            while c < self.cols
                invariant
                    self.wf(),
                    v == self@,
                    r < self.rows,
                    c <= self.cols,
                    row == v.mines[r as int],
                    row.len() == self.cols,
                    self.board@[r as int]@.len() == self.cols,
                    total <= r * self.cols,
                    r * self.cols + self.cols <= self.rows * self.cols,
                    in_row == count_true(row.take(c as int)),
                decreases self.cols - c,
            {
                proof {
                    lemma_count_true_le(row.take(c as int));
                }
                assert(row.take(c + 1).drop_last() =~= row.take(c as int));
                if self.board[r][c].is_mine {
                    in_row = in_row + 1;
                }
                c = c + 1;
            }
            assert(row.take(self.cols as int) =~= row);
            proof {
                lemma_count_true_le(row);
            }
            total = total + in_row;
            r = r + 1;
        }
        total
    }

    /// Reads the player's move, a label such as `B3`, as a cell of this board.
    pub fn parse_move(&self, input: &str) -> (r: Option<(usize, usize)>)
        ensures
            r == coordinate_of(trimmed(input@), self@.rows, self@.cols),
    {
        parse_coordinate(input, self.rows, self.cols)
    }

    pub fn rows(&self) -> (n: usize)
        ensures
            n == self@.rows,
    {
        self.rows
    }

    pub fn cols(&self) -> (n: usize)
        ensures
            n == self@.cols,
    {
        self.cols
    }

    /// The content of a cell, revealed or not.
    pub fn cell(&self, row: usize, col: usize) -> (cell: Cell)
        requires
            self.wf(),
            self@.in_bounds(row as int, col as int),
        ensures
            cell.is_mine == self@.mines[row as int][col as int],
            cell.adjacent_mines as nat == self@.adjacent[row as int][col as int],
    {
        assert(self@.mines[row as int].len() == self.cols);
        assert(self.board@[row as int]@.len() == self.cols);
        self.board[row][col]
    }

    pub fn is_revealed(&self, row: usize, col: usize) -> (b: bool)
        requires
            self.wf(),
            self@.in_bounds(row as int, col as int),
        ensures
            b == self@.revealed[row as int][col as int],
    {
        assert(self@.revealed[row as int].len() == self.cols);
        self.revealed[row][col]
    }
}

} // verus!
