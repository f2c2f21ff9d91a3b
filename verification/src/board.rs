//! The grid model: tiles, boards, coordinate and counting queries.
//!
//! A board is an `n` by `n` grid (`1 <= n <= 8`) stored row-major in a
//! single vector; the cell at column `x` and row `y` sits at index
//! `y * n + x`. The abstract value of a board is that flattened sequence
//! of tiles, so two boards are the same exactly when all their cell
//! states agree (structural equality, as the memo set requires).

use vstd::prelude::*;

verus! {

use vstd::pervasive::VecAdditionalExecFns;

/// One cell state. `Unsure` is a cell not yet determined; it resolves to
/// `Ground` or `Wall`. `Chest` and `Monster` are fixed at board creation.
#[derive(Clone, Copy, PartialEq, Eq, Structural, Debug)]
pub enum Tile {
    Unsure,
    Chest,
    Monster,
    Ground,
    Wall,
}

/// An immutable square grid of tiles.
pub struct Board {
    n: usize,
    cells: Vec<Tile>,
}

impl View for Board {
    type V = Seq<Tile>;

    closed spec fn view(&self) -> Seq<Tile> {
        self.cells@
    }
}

/// The flat index of the cell at column `x`, row `y` of an `n`-wide grid.
pub open spec fn flat(n: int, x: int, y: int) -> int {
    y * n + x
}

/// Whether `(x, y)` lies inside an `n` by `n` grid.
pub open spec fn in_grid(n: int, x: int, y: int) -> bool {
    0 <= x < n && 0 <= y < n
}

/// The tile at `(x, y)` of the flattened grid `s`.
pub open spec fn at(s: Seq<Tile>, n: int, x: int, y: int) -> Tile {
    s[flat(n, x, y)]
}

/// How many cells of `s` hold the tile `t`.
pub open spec fn count_tile(s: Seq<Tile>, t: Tile) -> int
    decreases s.len(),
{
    if s.len() == 0 {
        0
    } else {
        count_tile(s.drop_last(), t) + if s.last() == t {
            1int
        } else {
            0int
        }
    }
}

/// The `y`-th row of the flattened grid `s`, as its own sequence.
pub open spec fn row_seq(s: Seq<Tile>, n: int, y: int) -> Seq<Tile> {
    Seq::new(n as nat, |x: int| s[y * n + x])
}

/// The `x`-th column of the flattened grid `s`, as its own sequence.
pub open spec fn col_seq(s: Seq<Tile>, n: int, x: int) -> Seq<Tile> {
    Seq::new(n as nat, |y: int| s[y * n + x])
}

/// How many cells of row `y` hold the tile `t`.
pub open spec fn count_in_row(s: Seq<Tile>, n: int, y: int, t: Tile) -> int {
    count_tile(row_seq(s, n, y), t)
}

/// How many cells of column `x` hold the tile `t`.
pub open spec fn count_in_col(s: Seq<Tile>, n: int, x: int, t: Tile) -> int {
    count_tile(col_seq(s, n, x), t)
}

/// `1` if the condition holds, `0` otherwise; for counting neighbours.
pub open spec fn b2i(b: bool) -> int {
    if b {
        1int
    } else {
        0int
    }
}

/// The cell lies outside the grid, or holds a wall. Out-of-grid
/// neighbours count as walls for every adjacency rule.
pub open spec fn is_wall_or_boundary(s: Seq<Tile>, n: int, x: int, y: int) -> bool {
    !in_grid(n, x, y) || at(s, n, x, y) == Tile::Wall
}

/// The cell lies inside the grid and holds the tile `t`.
pub open spec fn is_tile_at(s: Seq<Tile>, n: int, x: int, y: int, t: Tile) -> bool {
    in_grid(n, x, y) && at(s, n, x, y) == t
}

/// The cell lies inside the grid and is passable: ground, or still
/// undetermined (so possibly ground).
pub open spec fn is_passable(s: Seq<Tile>, n: int, x: int, y: int) -> bool {
    in_grid(n, x, y) && (at(s, n, x, y) == Tile::Ground || at(s, n, x, y) == Tile::Unsure)
}

/// How many of the four neighbours of `(x, y)` are walls or lie outside
/// the grid.
pub open spec fn wb_nbrs(s: Seq<Tile>, n: int, x: int, y: int) -> int {
    b2i(is_wall_or_boundary(s, n, x - 1, y)) + b2i(is_wall_or_boundary(s, n, x + 1, y)) + b2i(
        is_wall_or_boundary(s, n, x, y - 1),
    ) + b2i(is_wall_or_boundary(s, n, x, y + 1))
}

/// How many of the four neighbours of `(x, y)` hold the tile `t`.
pub open spec fn tile_nbrs(s: Seq<Tile>, n: int, x: int, y: int, t: Tile) -> int {
    b2i(is_tile_at(s, n, x - 1, y, t)) + b2i(is_tile_at(s, n, x + 1, y, t)) + b2i(
        is_tile_at(s, n, x, y - 1, t),
    ) + b2i(is_tile_at(s, n, x, y + 1, t))
}

/// How many of the four neighbours of `(x, y)` are passable.
pub open spec fn passable_nbrs(s: Seq<Tile>, n: int, x: int, y: int) -> int {
    b2i(is_passable(s, n, x - 1, y)) + b2i(is_passable(s, n, x + 1, y)) + b2i(
        is_passable(s, n, x, y - 1),
    ) + b2i(is_passable(s, n, x, y + 1))
}

/// Clue vectors fit the board: one wall count per row and per column.
pub open spec fn clues_fit(cols: Seq<usize>, rows: Seq<usize>, n: nat) -> bool {
    cols.len() == n && rows.len() == n
}

/// `next` refines `base`: determined cells are kept, and undetermined
/// cells either stay undetermined or resolve to ground or wall.
pub open spec fn collapse_of(base: Seq<Tile>, next: Seq<Tile>) -> bool {
    &&& next.len() == base.len()
    &&& forall|i: int|
        0 <= i < base.len() && base[i] != Tile::Unsure ==> next[i] == base[i]
    &&& forall|i: int|
        0 <= i < base.len() && base[i] == Tile::Unsure ==> (next[i] == Tile::Unsure
            || next[i] == Tile::Ground || next[i] == Tile::Wall)
}

/// `full` is a complete resolution of `base`: every undetermined cell has
/// become ground or wall, and every determined cell is kept.
pub open spec fn resolution_of(base: Seq<Tile>, full: Seq<Tile>) -> bool {
    &&& full.len() == base.len()
    &&& forall|i: int|
        0 <= i < base.len() && base[i] != Tile::Unsure ==> full[i] == base[i]
    &&& forall|i: int|
        0 <= i < base.len() && base[i] == Tile::Unsure ==> (full[i] == Tile::Ground
            || full[i] == Tile::Wall)
}

pub proof fn lemma_collapse_of_trans(a: Seq<Tile>, b: Seq<Tile>, c: Seq<Tile>)
    requires
        collapse_of(a, b),
        collapse_of(b, c),
    ensures
        collapse_of(a, c),
{
}

/// A refinement never has more undetermined cells than its base.
pub proof fn lemma_collapse_unsure_le(s: Seq<Tile>, t: Seq<Tile>)
    requires
        collapse_of(s, t),
    ensures
        count_tile(t, Tile::Unsure) <= count_tile(s, Tile::Unsure),
    decreases s.len(),
{
    if s.len() > 0 {
        assert(collapse_of(s.drop_last(), t.drop_last()));
        lemma_collapse_unsure_le(s.drop_last(), t.drop_last());
    }
}

/// A refinement that changes some cell strictly lowers the count of
/// undetermined cells.
pub proof fn lemma_collapse_unsure_lt(s: Seq<Tile>, t: Seq<Tile>, w: int)
    requires
        collapse_of(s, t),
        0 <= w < s.len(),
        t[w] != s[w],
    ensures
        count_tile(t, Tile::Unsure) < count_tile(s, Tile::Unsure),
    decreases s.len(),
{
    assert(collapse_of(s.drop_last(), t.drop_last()));
    if w == s.len() - 1 {
        lemma_collapse_unsure_le(s.drop_last(), t.drop_last());
    } else {
        lemma_collapse_unsure_lt(s.drop_last(), t.drop_last(), w);
    }
}

/// A refinement with as many undetermined cells as its base changed
/// nothing.
pub proof fn lemma_collapse_count_eq(s: Seq<Tile>, t: Seq<Tile>)
    requires
        collapse_of(s, t),
        count_tile(t, Tile::Unsure) == count_tile(s, Tile::Unsure),
    ensures
        t == s,
{
    if exists|i: int| 0 <= i < s.len() && t[i] != s[i] {
        let w = choose|i: int| 0 <= i < s.len() && t[i] != s[i];
        lemma_collapse_unsure_lt(s, t, w);
    }
    assert(t =~= s);
}

pub proof fn lemma_count_tile_bounds(s: Seq<Tile>, t: Tile)
    ensures
        0 <= count_tile(s, t) <= s.len(),
    decreases s.len(),
{
    if s.len() > 0 {
        lemma_count_tile_bounds(s.drop_last(), t);
    }
}

/// A zero count means no cell holds the tile.
pub proof fn lemma_count_tile_zero(s: Seq<Tile>, t: Tile)
    requires
        count_tile(s, t) == 0,
    ensures
        forall|i: int| 0 <= i < s.len() ==> s[i] != t,
    decreases s.len(),
{
    if s.len() > 0 {
        lemma_count_tile_bounds(s.drop_last(), t);
        lemma_count_tile_zero(s.drop_last(), t);
        assert forall|i: int| 0 <= i < s.len() implies s[i] != t by {
            if i < s.len() - 1 {
                assert(s.drop_last()[i] != t);
            }
        }
    }
}

/// A count of at least two yields a second cell besides a given one.
pub proof fn lemma_count_tile_two(s: Seq<Tile>, t: Tile, g: int)
    requires
        count_tile(s, t) >= 2,
        0 <= g < s.len(),
        s[g] == t,
    ensures
        exists|h: int| 0 <= h < s.len() && h != g && s[h] == t,
    decreases s.len(),
{
    if s.last() == t && g < s.len() - 1 {
        assert(s[s.len() - 1] == t);
    } else if s.last() == t {
        // g is the last cell; a second one lies in the prefix
        lemma_count_tile_bounds(s.drop_last(), t);
        assert(count_tile(s.drop_last(), t) >= 1);
        lemma_count_tile_nonzero(s.drop_last(), t);
        let h = choose|h: int| 0 <= h < s.drop_last().len() && s.drop_last()[h] == t;
        assert(s[h] == t);
    } else {
        lemma_count_tile_two(s.drop_last(), t, g);
        let h = choose|h: int|
            0 <= h < s.drop_last().len() && h != g && s.drop_last()[h] == t;
        assert(s[h] == t);
    }
}

/// A positive count yields a cell that holds the tile.
pub proof fn lemma_count_tile_nonzero(s: Seq<Tile>, t: Tile)
    requires
        count_tile(s, t) >= 1,
    ensures
        exists|h: int| 0 <= h < s.len() && s[h] == t,
    decreases s.len(),
{
    if s.last() == t {
        assert(s[s.len() - 1] == t);
    } else {
        lemma_count_tile_nonzero(s.drop_last(), t);
        let h = choose|h: int| 0 <= h < s.drop_last().len() && s.drop_last()[h] == t;
        assert(s[h] == t);
    }
}

/// Counting a prefix one longer adds the contribution of the new cell.
pub proof fn lemma_count_take_step(s: Seq<Tile>, t: Tile, i: int)
    requires
        0 <= i < s.len(),
    ensures
        count_tile(s.take(i + 1), t) == count_tile(s.take(i), t) + if s[i] == t {
            1int
        } else {
            0int
        },
{
    assert(s.take(i + 1).drop_last() =~= s.take(i));
    assert(s.take(i + 1).last() == s[i]);
}

pub proof fn lemma_count_take_all(s: Seq<Tile>, t: Tile)
    ensures
        count_tile(s.take(s.len() as int), t) == count_tile(s, t),
{
    assert(s.take(s.len() as int) =~= s);
}

/// The coordinates of a grid cell index back into the grid's range; on
/// a small grid the index is small.
pub proof fn lemma_flat_bounds(n: int, x: int, y: int) by (nonlinear_arith)
    requires
        in_grid(n, x, y),
        n <= 8,
    ensures
        0 <= flat(n, x, y) < n * n,
        n * n <= 64,
{
}

/// A flat index decomposes back into its column and row.
pub proof fn lemma_flat_coords(n: int, x: int, y: int)
    requires
        in_grid(n, x, y),
    ensures
        flat(n, x, y) / n == y,
        flat(n, x, y) % n == x,
{
    vstd::arithmetic::div_mod::lemma_fundamental_div_mod_converse(flat(n, x, y), n, y, x);
}

impl Board {
    /// The side length of the grid.
    pub closed spec fn dim(&self) -> nat {
        self.n as nat
    }

    /// A well-formed board: a small square grid with one tile per cell.
    pub open spec fn wf(&self) -> bool {
        &&& 1 <= self.dim() <= 8
        &&& self@.len() == self.dim() * self.dim()
    }

    /// Builds a board from a side length and a row-major tile vector.
    /// Rejects malformed input: a side length outside `1..=8`, or a
    /// vector whose length is not the square of the side length.
    pub fn new(n: usize, tiles: Vec<Tile>) -> (r: Option<Board>)
        ensures
            r is Some <==> (1 <= n <= 8 && tiles@.len() == n * n),
            r matches Some(b) ==> b.wf() && b.dim() == n && b@ == tiles@,
    {
        if 1 <= n && n <= 8 {
            proof {
                assert((n as int) * (n as int) <= 64) by (nonlinear_arith)
                    requires
                        1 <= n as int <= 8,
                ;
            }
            if tiles.len() == n * n {
                Some(Board { n, cells: tiles })
            } else {
                None
            }
        } else {
            None
        }
    }

    /// Crate-internal constructor for boards already known well-formed.
    pub(crate) fn from_parts(n: usize, cells: Vec<Tile>) -> (r: Board)
        requires
            1 <= n <= 8,
            cells@.len() == n * n,
        ensures
            r.wf(),
            r.dim() == n,
            r@ == cells@,
    {
        Board { n, cells }
    }

    /// The side length, as an executable value.
    pub fn side(&self) -> (r: usize)
        ensures
            r == self.dim(),
    {
        self.n
    }

    /// Reads the tile at column `x`, row `y`.
    pub fn get(&self, x: usize, y: usize) -> (t: Tile)
        requires
            self.wf(),
            x < self.dim(),
            y < self.dim(),
        ensures
            t == at(self@, self.dim() as int, x as int, y as int),
    {
        proof {
            lemma_flat_bounds(self.n as int, x as int, y as int);
        }
        self.cells[y * self.n + x]
    }

    /// A new board equal to this one except that the cell at `(x, y)`
    /// holds `t`.
    pub fn with_tile(&self, x: usize, y: usize, t: Tile) -> (r: Board)
        requires
            self.wf(),
            x < self.dim(),
            y < self.dim(),
        ensures
            r.wf(),
            r.dim() == self.dim(),
            r@ == self@.update(flat(self.dim() as int, x as int, y as int), t),
    {
        proof {
            lemma_flat_bounds(self.n as int, x as int, y as int);
        }
        let mut cells = self.copied_cells();
        cells.set(y * self.n + x, t);
        Board { n: self.n, cells }
    }

    /// An identical copy of this board.
    pub fn duplicate(&self) -> (r: Board)
        requires
            self.wf(),
        ensures
            r.wf(),
            r.dim() == self.dim(),
            r@ == self@,
    {
        Board { n: self.n, cells: self.copied_cells() }
    }

    fn copied_cells(&self) -> (r: Vec<Tile>)
        ensures
            r@ == self@,
    {
        let mut out: Vec<Tile> = Vec::new();
        let mut i: usize = 0;
        while i < self.cells.len()
            invariant
                i <= self.cells.len(),
                out@.len() == i,
                forall|j: int| 0 <= j < i ==> out@[j] == self.cells@[j],
            decreases self.cells.len() - i,
        {
            out.push(self.cells[i]);
            i = i + 1;
        }
        proof {
            assert(out@ =~= self@);
        }
        out
    }

    /// Structural equality: same side length and the same tile in every
    /// cell.
    pub fn same_board(&self, other: &Board) -> (r: bool)
        requires
            self.wf(),
            other.wf(),
        ensures
            r == (self.dim() == other.dim() && self@ == other@),
    {
        if self.n != other.n {
            proof {
                let ghost d1 = self.dim() as int;
                let ghost d2 = other.dim() as int;
                assert(d1 * d1 != d2 * d2) by (nonlinear_arith)
                    requires
                        1 <= d1,
                        1 <= d2,
                        d1 != d2,
                ;
            }
            return false;
        }
        let mut i: usize = 0;
        while i < self.cells.len()
            invariant
                self.wf(),
                other.wf(),
                self.dim() == other.dim(),
                i <= self.cells.len(),
                forall|j: int| 0 <= j < i ==> self@[j] == other@[j],
            decreases self.cells.len() - i,
        {
            if self.cells[i] != other.cells[i] {
                return false;
            }
            i = i + 1;
        }
        proof {
            assert(self@ =~= other@);
        }
        true
    }

    /// Whether the (possibly out-of-grid) cell is a wall or off the
    /// board.
    pub fn wall_or_boundary(&self, x: i64, y: i64) -> (r: bool)
        requires
            self.wf(),
            -25 <= x <= 32,
            -25 <= y <= 32,
        ensures
            r == is_wall_or_boundary(self@, self.dim() as int, x as int, y as int),
    {
        if x < 0 || y < 0 || x >= self.n as i64 || y >= self.n as i64 {
            true
        } else {
            self.get(x as usize, y as usize) == Tile::Wall
        }
    }

    /// Whether the (possibly out-of-grid) cell holds the tile `t`.
    pub fn tile_at_is(&self, x: i64, y: i64, t: Tile) -> (r: bool)
        requires
            self.wf(),
            -25 <= x <= 32,
            -25 <= y <= 32,
        ensures
            r == is_tile_at(self@, self.dim() as int, x as int, y as int, t),
    {
        if x < 0 || y < 0 || x >= self.n as i64 || y >= self.n as i64 {
            false
        } else {
            self.get(x as usize, y as usize) == t
        }
    }

    /// Counts walls and out-of-grid cells among the four neighbours of
    /// `(x, y)`.
    pub fn count_wb_nbrs(&self, x: usize, y: usize) -> (r: usize)
        requires
            self.wf(),
            x < self.dim(),
            y < self.dim(),
        ensures
            r == wb_nbrs(self@, self.dim() as int, x as int, y as int),
    {
        let mut c: usize = 0;
        if x == 0 || self.get(x - 1, y) == Tile::Wall {
            c = c + 1;
        }
        if x + 1 >= self.n || self.get(x + 1, y) == Tile::Wall {
            c = c + 1;
        }
        if y == 0 || self.get(x, y - 1) == Tile::Wall {
            c = c + 1;
        }
        if y + 1 >= self.n || self.get(x, y + 1) == Tile::Wall {
            c = c + 1;
        }
        c
    }

    /// Counts the tile `t` among the four in-grid neighbours of `(x, y)`.
    pub fn count_tile_nbrs(&self, x: usize, y: usize, t: Tile) -> (r: usize)
        requires
            self.wf(),
            x < self.dim(),
            y < self.dim(),
        ensures
            r == tile_nbrs(self@, self.dim() as int, x as int, y as int, t),
    {
        let mut c: usize = 0;
        if x > 0 && self.get(x - 1, y) == t {
            c = c + 1;
        }
        if x + 1 < self.n && self.get(x + 1, y) == t {
            c = c + 1;
        }
        if y > 0 && self.get(x, y - 1) == t {
            c = c + 1;
        }
        if y + 1 < self.n && self.get(x, y + 1) == t {
            c = c + 1;
        }
        c
    }

    /// Counts the passable cells among the four neighbours of `(x, y)`.
    pub fn count_passable_nbrs(&self, x: usize, y: usize) -> (r: usize)
        requires
            self.wf(),
            x < self.dim(),
            y < self.dim(),
        ensures
            r == passable_nbrs(self@, self.dim() as int, x as int, y as int),
    {
        let mut c: usize = 0;
        if x > 0 {
            let t = self.get(x - 1, y);
            if t == Tile::Ground || t == Tile::Unsure {
                c = c + 1;
            }
        }
        if x + 1 < self.n {
            let t = self.get(x + 1, y);
            if t == Tile::Ground || t == Tile::Unsure {
                c = c + 1;
            }
        }
        if y > 0 {
            let t = self.get(x, y - 1);
            if t == Tile::Ground || t == Tile::Unsure {
                c = c + 1;
            }
        }
        if y + 1 < self.n {
            let t = self.get(x, y + 1);
            if t == Tile::Ground || t == Tile::Unsure {
                c = c + 1;
            }
        }
        c
    }

    /// Counts the cells of row `y` that hold the tile `t`.
    pub fn count_row(&self, y: usize, t: Tile) -> (r: usize)
        requires
            self.wf(),
            y < self.dim(),
        ensures
            r == count_in_row(self@, self.dim() as int, y as int, t),
            r <= self.dim(),
    {
        let ghost rs = row_seq(self@, self.dim() as int, y as int);
        let mut cnt: usize = 0;
        let mut x: usize = 0;
        while x < self.n
            invariant
                self.wf(),
                y < self.dim(),
                x <= self.n,
                cnt <= x,
                rs == row_seq(self@, self.dim() as int, y as int),
                cnt == count_tile(rs.take(x as int), t),
            decreases self.n - x,
        {
            proof {
                lemma_count_take_step(rs, t, x as int);
            }
            if self.get(x, y) == t {
                cnt = cnt + 1;
            }
            x = x + 1;
        }
        proof {
            lemma_count_take_all(rs, t);
        }
        cnt
    }

    /// Counts the cells of column `x` that hold the tile `t`.
    pub fn count_col(&self, x: usize, t: Tile) -> (r: usize)
        requires
            self.wf(),
            x < self.dim(),
        ensures
            r == count_in_col(self@, self.dim() as int, x as int, t),
            r <= self.dim(),
    {
        let ghost cs = col_seq(self@, self.dim() as int, x as int);
        let mut cnt: usize = 0;
        let mut y: usize = 0;
        while y < self.n
            invariant
                self.wf(),
                x < self.dim(),
                y <= self.n,
                cnt <= y,
                cs == col_seq(self@, self.dim() as int, x as int),
                cnt == count_tile(cs.take(y as int), t),
            decreases self.n - y,
        {
            proof {
                lemma_count_take_step(cs, t, y as int);
            }
            if self.get(x, y) == t {
                cnt = cnt + 1;
            }
            y = y + 1;
        }
        proof {
            lemma_count_take_all(cs, t);
        }
        cnt
    }

    /// Counts the cells of the whole board that hold the tile `t`.
    pub fn count_total(&self, t: Tile) -> (r: usize)
        requires
            self.wf(),
        ensures
            r == count_tile(self@, t),
            r <= self@.len(),
    {
        let mut cnt: usize = 0;
        let mut i: usize = 0;
        while i < self.cells.len()
            invariant
                self.wf(),
                i <= self.cells.len(),
                cnt <= i,
                cnt == count_tile(self@.take(i as int), t),
            decreases self.cells.len() - i,
        {
            proof {
                lemma_count_take_step(self@, t, i as int);
            }
            if self.cells[i] == t {
                cnt = cnt + 1;
            }
            i = i + 1;
        }
        proof {
            lemma_count_take_all(self@, t);
        }
        cnt
    }
}

} // verus!
