//! The propagator: deterministic local inference rules applied to a
//! board until a full pass changes nothing (a fixpoint).
//!
//! Each rule is a pure transformation of the whole board that reads the
//! board as it stood at the start of the rule and only ever resolves
//! `Unsure` cells to `Ground` or `Wall`; determined cells are never
//! touched, so a pass never needs to be undone. One pass applies the
//! rules in a fixed, documented order: row saturation, column
//! saturation, monster escape-forcing, monster enclosure, chest
//! clearance, ground saturation.

use vstd::prelude::*;

verus! {

use crate::board::{
    Board,
    Tile,
    at,
    count_tile,
    count_in_row,
    count_in_col,
    clues_fit,
    collapse_of,
    is_wall_or_boundary,
    is_tile_at,
    wb_nbrs,
    tile_nbrs,
    lemma_flat_bounds,
    lemma_flat_coords,
    lemma_count_tile_bounds,
    lemma_collapse_of_trans,
    lemma_collapse_unsure_le,
    lemma_collapse_unsure_lt,
    lemma_collapse_count_eq,
};

// ---------------------------------------------------------------------
// Rule 1: row and column saturation.
// ---------------------------------------------------------------------

/// Row `y` must spend all its undetermined cells on walls: exactly as
/// many undetermined cells remain as walls are still owed to the clue.
pub open spec fn row_forced_wall(s: Seq<Tile>, n: int, rows: Seq<usize>, y: int) -> bool {
    let w = count_in_row(s, n, y, Tile::Wall);
    let u = count_in_row(s, n, y, Tile::Unsure);
    w <= rows[y] && u == rows[y] - w
}

/// Row `y` already meets its wall clue, so every undetermined cell in it
/// must be ground.
pub open spec fn row_forced_ground(s: Seq<Tile>, n: int, rows: Seq<usize>, y: int) -> bool {
    count_in_row(s, n, y, Tile::Wall) == rows[y]
}

/// Column `x` must spend all its undetermined cells on walls.
pub open spec fn col_forced_wall(s: Seq<Tile>, n: int, cols: Seq<usize>, x: int) -> bool {
    let w = count_in_col(s, n, x, Tile::Wall);
    let u = count_in_col(s, n, x, Tile::Unsure);
    w <= cols[x] && u == cols[x] - w
}

/// Column `x` already meets its wall clue.
pub open spec fn col_forced_ground(s: Seq<Tile>, n: int, cols: Seq<usize>, x: int) -> bool {
    count_in_col(s, n, x, Tile::Wall) == cols[x]
}

/// The board after row saturation: in every saturated row, undetermined
/// cells become walls; in every satisfied row, they become ground.
pub open spec fn rows_applied(s: Seq<Tile>, n: int, rows: Seq<usize>) -> Seq<Tile> {
    Seq::new(
        s.len(),
        |i: int|
            if s[i] == Tile::Unsure && row_forced_wall(s, n, rows, i / n) {
                Tile::Wall
            } else if s[i] == Tile::Unsure && row_forced_ground(s, n, rows, i / n) {
                Tile::Ground
            } else {
                s[i]
            },
    )
}

/// The board after column saturation.
pub open spec fn cols_applied(s: Seq<Tile>, n: int, cols: Seq<usize>) -> Seq<Tile> {
    Seq::new(
        s.len(),
        |i: int|
            if s[i] == Tile::Unsure && col_forced_wall(s, n, cols, i % n) {
                Tile::Wall
            } else if s[i] == Tile::Unsure && col_forced_ground(s, n, cols, i % n) {
                Tile::Ground
            } else {
                s[i]
            },
    )
}

// ---------------------------------------------------------------------
// Rule 2: monster escape-forcing.
// ---------------------------------------------------------------------

/// A monster whose other three neighbours are walls or the boundary: its
/// remaining neighbour is its only possible exit.
pub open spec fn monster_escape_src(s: Seq<Tile>, n: int, x: int, y: int) -> bool {
    is_tile_at(s, n, x, y, Tile::Monster) && wb_nbrs(s, n, x, y) == 3
}

/// The cell is next to a monster with three wall-or-boundary
/// neighbours, so it must be that monster's exit.
pub open spec fn escape_forced(s: Seq<Tile>, n: int, x: int, y: int) -> bool {
    ||| monster_escape_src(s, n, x - 1, y)
    ||| monster_escape_src(s, n, x + 1, y)
    ||| monster_escape_src(s, n, x, y - 1)
    ||| monster_escape_src(s, n, x, y + 1)
}

/// The board after escape-forcing: undetermined cells that are the only
/// possible exit of some monster become ground.
pub open spec fn escape_applied(s: Seq<Tile>, n: int) -> Seq<Tile> {
    Seq::new(
        s.len(),
        |i: int|
            if s[i] == Tile::Unsure && escape_forced(s, n, i % n, i / n) {
                Tile::Ground
            } else {
                s[i]
            },
    )
}

// ---------------------------------------------------------------------
// Rule 3: monster enclosure.
// ---------------------------------------------------------------------

/// A monster that already has a confirmed ground neighbour: its exit is
/// settled, so its other neighbours must be walls.
pub open spec fn monster_enclose_src(s: Seq<Tile>, n: int, x: int, y: int) -> bool {
    is_tile_at(s, n, x, y, Tile::Monster) && tile_nbrs(s, n, x, y, Tile::Ground) >= 1
}

/// The cell is next to a monster whose exit is already settled.
pub open spec fn enclose_forced(s: Seq<Tile>, n: int, x: int, y: int) -> bool {
    ||| monster_enclose_src(s, n, x - 1, y)
    ||| monster_enclose_src(s, n, x + 1, y)
    ||| monster_enclose_src(s, n, x, y - 1)
    ||| monster_enclose_src(s, n, x, y + 1)
}

/// The board after enclosure: undetermined neighbours of a monster with
/// a settled exit become walls.
pub open spec fn enclose_applied(s: Seq<Tile>, n: int) -> Seq<Tile> {
    Seq::new(
        s.len(),
        |i: int|
            if s[i] == Tile::Unsure && enclose_forced(s, n, i % n, i / n) {
                Tile::Wall
            } else {
                s[i]
            },
    )
}

// ---------------------------------------------------------------------
// Rule 4: chest clearance.
// ---------------------------------------------------------------------

/// Looking from the cell in direction `(dx, dy)`: a chest one or two
/// steps away backed by a wall or the boundary close behind it. The
/// chest's three-by-three room then cannot extend past that wall, so it
/// must cover this cell, which therefore must be ground.
pub open spec fn chest_pull(s: Seq<Tile>, n: int, x: int, y: int, dx: int, dy: int) -> bool {
    ||| (is_tile_at(s, n, x + dx, y + dy, Tile::Chest) && is_wall_or_boundary(
        s,
        n,
        x + 2 * dx,
        y + 2 * dy,
    ))
    ||| (is_tile_at(s, n, x + 2 * dx, y + 2 * dy, Tile::Chest) && is_wall_or_boundary(
        s,
        n,
        x + 3 * dx,
        y + 3 * dy,
    ))
    ||| (is_tile_at(s, n, x + dx, y + dy, Tile::Chest) && is_wall_or_boundary(
        s,
        n,
        x + 3 * dx,
        y + 3 * dy,
    ))
}

/// The cell must belong to the room of a nearby chest that is backed by
/// a wall on the opposite side.
pub open spec fn chest_forced(s: Seq<Tile>, n: int, x: int, y: int) -> bool {
    ||| chest_pull(s, n, x, y, 1, 0)
    ||| chest_pull(s, n, x, y, -1, 0)
    ||| chest_pull(s, n, x, y, 0, 1)
    ||| chest_pull(s, n, x, y, 0, -1)
}

/// The board after chest clearance: undetermined cells pulled into a
/// chest's room become ground.
pub open spec fn chest_applied(s: Seq<Tile>, n: int) -> Seq<Tile> {
    Seq::new(
        s.len(),
        |i: int|
            if s[i] == Tile::Unsure && chest_forced(s, n, i % n, i / n) {
                Tile::Ground
            } else {
                s[i]
            },
    )
}

// ---------------------------------------------------------------------
// Rule 5: ground saturation.
// ---------------------------------------------------------------------

/// A confirmed ground cell hemmed in by three monster neighbours, or by
/// two wall-or-boundary neighbours: its undetermined neighbours must be
/// ground, or the cell would end up cut off or an unguarded dead end.
pub open spec fn ground_sat_src(s: Seq<Tile>, n: int, x: int, y: int) -> bool {
    is_tile_at(s, n, x, y, Tile::Ground) && (tile_nbrs(s, n, x, y, Tile::Monster) == 3 || wb_nbrs(
        s,
        n,
        x,
        y,
    ) == 2)
}

/// The cell is next to a hemmed-in ground cell.
pub open spec fn ground_sat_forced(s: Seq<Tile>, n: int, x: int, y: int) -> bool {
    ||| ground_sat_src(s, n, x - 1, y)
    ||| ground_sat_src(s, n, x + 1, y)
    ||| ground_sat_src(s, n, x, y - 1)
    ||| ground_sat_src(s, n, x, y + 1)
}

/// The board after ground saturation.
pub open spec fn ground_sat_applied(s: Seq<Tile>, n: int) -> Seq<Tile> {
    Seq::new(
        s.len(),
        |i: int|
            if s[i] == Tile::Unsure && ground_sat_forced(s, n, i % n, i / n) {
                Tile::Ground
            } else {
                s[i]
            },
    )
}

// ---------------------------------------------------------------------
// One pass, and the fixpoint.
// ---------------------------------------------------------------------

/// One full pass: all six rules, in their fixed order.
pub open spec fn pass_once(s: Seq<Tile>, n: int, cols: Seq<usize>, rows: Seq<usize>) -> Seq<Tile> {
    ground_sat_applied(
        chest_applied(
            enclose_applied(escape_applied(cols_applied(rows_applied(s, n, rows), n, cols), n), n),
            n,
        ),
        n,
    )
}

pub proof fn lemma_rows_applied_collapse(s: Seq<Tile>, n: int, rows: Seq<usize>)
    ensures
        collapse_of(s, rows_applied(s, n, rows)),
{
}

pub proof fn lemma_cols_applied_collapse(s: Seq<Tile>, n: int, cols: Seq<usize>)
    ensures
        collapse_of(s, cols_applied(s, n, cols)),
{
}

pub proof fn lemma_escape_applied_collapse(s: Seq<Tile>, n: int)
    ensures
        collapse_of(s, escape_applied(s, n)),
{
}

pub proof fn lemma_enclose_applied_collapse(s: Seq<Tile>, n: int)
    ensures
        collapse_of(s, enclose_applied(s, n)),
{
}

pub proof fn lemma_chest_applied_collapse(s: Seq<Tile>, n: int)
    ensures
        collapse_of(s, chest_applied(s, n)),
{
}

pub proof fn lemma_ground_sat_applied_collapse(s: Seq<Tile>, n: int)
    ensures
        collapse_of(s, ground_sat_applied(s, n)),
{
}

/// One pass only resolves undetermined cells.
pub proof fn lemma_pass_once_collapse(s: Seq<Tile>, n: int, cols: Seq<usize>, rows: Seq<usize>)
    ensures
        collapse_of(s, pass_once(s, n, cols, rows)),
{
    let s1 = rows_applied(s, n, rows);
    let s2 = cols_applied(s1, n, cols);
    let s3 = escape_applied(s2, n);
    let s4 = enclose_applied(s3, n);
    let s5 = chest_applied(s4, n);
    lemma_rows_applied_collapse(s, n, rows);
    lemma_cols_applied_collapse(s1, n, cols);
    lemma_escape_applied_collapse(s2, n);
    lemma_enclose_applied_collapse(s3, n);
    lemma_chest_applied_collapse(s4, n);
    lemma_ground_sat_applied_collapse(s5, n);
    lemma_collapse_of_trans(s, s1, s2);
    lemma_collapse_of_trans(s, s2, s3);
    lemma_collapse_of_trans(s, s3, s4);
    lemma_collapse_of_trans(s, s4, s5);
    lemma_collapse_of_trans(s, s5, ground_sat_applied(s5, n));
}

/// A pass that changes the board strictly lowers the count of
/// undetermined cells.
pub proof fn lemma_pass_once_progress(s: Seq<Tile>, n: int, cols: Seq<usize>, rows: Seq<usize>)
    requires
        pass_once(s, n, cols, rows) != s,
    ensures
        count_tile(pass_once(s, n, cols, rows), Tile::Unsure) < count_tile(s, Tile::Unsure),
{
    let t = pass_once(s, n, cols, rows);
    lemma_pass_once_collapse(s, n, cols, rows);
    if !(exists|i: int| 0 <= i < s.len() && t[i] != s[i]) {
        assert(t =~= s);
    }
    let w = choose|i: int| 0 <= i < s.len() && t[i] != s[i];
    lemma_collapse_unsure_lt(s, t, w);
}

/// The propagator's result: passes applied until one changes nothing.
pub open spec fn spec_propagate(s: Seq<Tile>, n: int, cols: Seq<usize>, rows: Seq<usize>) -> Seq<
    Tile,
>
    decreases count_tile(s, Tile::Unsure),
    via spec_propagate_decreases
{
    let t = pass_once(s, n, cols, rows);
    if t == s {
        s
    } else {
        spec_propagate(t, n, cols, rows)
    }
}

#[via_fn]
proof fn spec_propagate_decreases(s: Seq<Tile>, n: int, cols: Seq<usize>, rows: Seq<usize>) {
    lemma_count_tile_bounds(s, Tile::Unsure);
    let t = pass_once(s, n, cols, rows);
    if t != s {
        lemma_pass_once_progress(s, n, cols, rows);
        lemma_count_tile_bounds(t, Tile::Unsure);
    }
}

/// The propagator stops at a true fixpoint: one more pass over its
/// result changes nothing.
pub proof fn lemma_propagate_reaches_fixpoint(
    s: Seq<Tile>,
    n: int,
    cols: Seq<usize>,
    rows: Seq<usize>,
)
    ensures
        pass_once(spec_propagate(s, n, cols, rows), n, cols, rows) == spec_propagate(
            s,
            n,
            cols,
            rows,
        ),
    decreases count_tile(s, Tile::Unsure),
{
    let t = pass_once(s, n, cols, rows);
    if t != s {
        lemma_count_tile_bounds(s, Tile::Unsure);
        lemma_pass_once_progress(s, n, cols, rows);
        lemma_count_tile_bounds(t, Tile::Unsure);
        lemma_propagate_reaches_fixpoint(t, n, cols, rows);
    }
}

/// Law: the propagator is idempotent at a fixpoint. Applied to a board
/// that one pass leaves unchanged, it returns the identical board.
pub proof fn lemma_propagate_idempotent_at_fixpoint(
    s: Seq<Tile>,
    n: int,
    cols: Seq<usize>,
    rows: Seq<usize>,
)
    requires
        pass_once(s, n, cols, rows) == s,
    ensures
        spec_propagate(s, n, cols, rows) == s,
{
}

/// Law: re-applying the propagator to a propagated board returns that
/// board identically.
pub proof fn lemma_propagate_idempotent(s: Seq<Tile>, n: int, cols: Seq<usize>, rows: Seq<usize>)
    ensures
        spec_propagate(spec_propagate(s, n, cols, rows), n, cols, rows) == spec_propagate(
            s,
            n,
            cols,
            rows,
        ),
{
    lemma_propagate_reaches_fixpoint(s, n, cols, rows);
    lemma_propagate_idempotent_at_fixpoint(spec_propagate(s, n, cols, rows), n, cols, rows);
}

/// The propagator's result refines its input.
pub proof fn lemma_propagate_collapse(s: Seq<Tile>, n: int, cols: Seq<usize>, rows: Seq<usize>)
    ensures
        collapse_of(s, spec_propagate(s, n, cols, rows)),
    decreases count_tile(s, Tile::Unsure),
{
    let t = pass_once(s, n, cols, rows);
    lemma_pass_once_collapse(s, n, cols, rows);
    if t == s {
        assert(collapse_of(s, s));
    } else {
        lemma_count_tile_bounds(s, Tile::Unsure);
        lemma_pass_once_progress(s, n, cols, rows);
        lemma_count_tile_bounds(t, Tile::Unsure);
        lemma_propagate_collapse(t, n, cols, rows);
        lemma_collapse_of_trans(s, t, spec_propagate(t, n, cols, rows));
    }
}

// ---------------------------------------------------------------------
// Executable rules.
// ---------------------------------------------------------------------

fn escape_src_at(b: &Board, x: usize, y: usize) -> (r: bool)
    requires
        b.wf(),
        x < b.dim(),
        y < b.dim(),
    ensures
        r == monster_escape_src(b@, b.dim() as int, x as int, y as int),
{
    b.get(x, y) == Tile::Monster && b.count_wb_nbrs(x, y) == 3
}

fn escape_forced_at(b: &Board, x: usize, y: usize) -> (r: bool)
    requires
        b.wf(),
        x < b.dim(),
        y < b.dim(),
    ensures
        r == escape_forced(b@, b.dim() as int, x as int, y as int),
{
    let mut f = false;
    if x > 0 && escape_src_at(b, x - 1, y) {
        f = true;
    }
    if x + 1 < b.side() && escape_src_at(b, x + 1, y) {
        f = true;
    }
    if y > 0 && escape_src_at(b, x, y - 1) {
        f = true;
    }
    if y + 1 < b.side() && escape_src_at(b, x, y + 1) {
        f = true;
    }
    f
}

fn enclose_src_at(b: &Board, x: usize, y: usize) -> (r: bool)
    requires
        b.wf(),
        x < b.dim(),
        y < b.dim(),
    ensures
        r == monster_enclose_src(b@, b.dim() as int, x as int, y as int),
{
    b.get(x, y) == Tile::Monster && b.count_tile_nbrs(x, y, Tile::Ground) >= 1
}

fn enclose_forced_at(b: &Board, x: usize, y: usize) -> (r: bool)
    requires
        b.wf(),
        x < b.dim(),
        y < b.dim(),
    ensures
        r == enclose_forced(b@, b.dim() as int, x as int, y as int),
{
    let mut f = false;
    if x > 0 && enclose_src_at(b, x - 1, y) {
        f = true;
    }
    if x + 1 < b.side() && enclose_src_at(b, x + 1, y) {
        f = true;
    }
    if y > 0 && enclose_src_at(b, x, y - 1) {
        f = true;
    }
    if y + 1 < b.side() && enclose_src_at(b, x, y + 1) {
        f = true;
    }
    f
}

fn chest_pull_at(b: &Board, x: i64, y: i64, dx: i64, dy: i64) -> (r: bool)
    requires
        b.wf(),
        0 <= x < b.dim(),
        0 <= y < b.dim(),
        -1 <= dx <= 1,
        -1 <= dy <= 1,
    ensures
        r == chest_pull(b@, b.dim() as int, x as int, y as int, dx as int, dy as int),
{
    (b.tile_at_is(x + dx, y + dy, Tile::Chest) && b.wall_or_boundary(x + 2 * dx, y + 2 * dy)) || (
    b.tile_at_is(x + 2 * dx, y + 2 * dy, Tile::Chest) && b.wall_or_boundary(
        x + 3 * dx,
        y + 3 * dy,
    )) || (b.tile_at_is(x + dx, y + dy, Tile::Chest) && b.wall_or_boundary(x + 3 * dx, y + 3 * dy))
}

fn chest_forced_at(b: &Board, x: usize, y: usize) -> (r: bool)
    requires
        b.wf(),
        x < b.dim(),
        y < b.dim(),
    ensures
        r == chest_forced(b@, b.dim() as int, x as int, y as int),
{
    chest_pull_at(b, x as i64, y as i64, 1, 0) || chest_pull_at(b, x as i64, y as i64, -1, 0)
        || chest_pull_at(b, x as i64, y as i64, 0, 1) || chest_pull_at(b, x as i64, y as i64, 0, -1)
}

fn ground_sat_src_at(b: &Board, x: usize, y: usize) -> (r: bool)
    requires
        b.wf(),
        x < b.dim(),
        y < b.dim(),
    ensures
        r == ground_sat_src(b@, b.dim() as int, x as int, y as int),
{
    b.get(x, y) == Tile::Ground && (b.count_tile_nbrs(x, y, Tile::Monster) == 3 || b.count_wb_nbrs(
        x,
        y,
    ) == 2)
}

fn ground_sat_forced_at(b: &Board, x: usize, y: usize) -> (r: bool)
    requires
        b.wf(),
        x < b.dim(),
        y < b.dim(),
    ensures
        r == ground_sat_forced(b@, b.dim() as int, x as int, y as int),
{
    let mut f = false;
    if x > 0 && ground_sat_src_at(b, x - 1, y) {
        f = true;
    }
    if x + 1 < b.side() && ground_sat_src_at(b, x + 1, y) {
        f = true;
    }
    if y > 0 && ground_sat_src_at(b, x, y - 1) {
        f = true;
    }
    if y + 1 < b.side() && ground_sat_src_at(b, x, y + 1) {
        f = true;
    }
    f
}

/// Applies row saturation to the whole board.
pub fn saturate_rows(b: &Board, rows: &Vec<usize>) -> (r: Board)
    requires
        b.wf(),
        rows@.len() == b.dim(),
    ensures
        r.wf(),
        r.dim() == b.dim(),
        r@ == rows_applied(b@, b.dim() as int, rows@),
{
    let n = b.side();
    let ghost nn = b.dim() as int;
    let ghost target = rows_applied(b@, nn, rows@);
    let mut cells: Vec<Tile> = Vec::new();
    let mut y: usize = 0;
    while y < n
        invariant
            b.wf(),
            n == b.dim(),
            nn == n as int,
            rows@.len() == n,
            target == rows_applied(b@, nn, rows@),
            y <= n,
            cells@.len() == y * n,
            forall|j: int| 0 <= j < y * n ==> cells@[j] == target[j],
        decreases n - y,
    {
        let w = b.count_row(y, Tile::Wall);
        let u = b.count_row(y, Tile::Unsure);
        let fw = w <= rows[y] && u == rows[y] - w;
        let fg = w == rows[y];
        assert(fw == row_forced_wall(b@, nn, rows@, y as int));
        assert(fg == row_forced_ground(b@, nn, rows@, y as int));
        let mut x: usize = 0;
        while x < n
            invariant
                b.wf(),
                n == b.dim(),
                nn == n as int,
                rows@.len() == n,
                target == rows_applied(b@, nn, rows@),
                y < n,
                x <= n,
                fw == row_forced_wall(b@, nn, rows@, y as int),
                fg == row_forced_ground(b@, nn, rows@, y as int),
                cells@.len() == y * n + x,
                forall|j: int| 0 <= j < y * n + x ==> cells@[j] == target[j],
            decreases n - x,
        {
            let t = b.get(x, y);
            let v = if t == Tile::Unsure && fw {
                Tile::Wall
            } else if t == Tile::Unsure && fg {
                Tile::Ground
            } else {
                t
            };
            proof {
                lemma_flat_bounds(nn, x as int, y as int);
                lemma_flat_coords(nn, x as int, y as int);
            }
            cells.push(v);
            x = x + 1;
        }
        proof {
            assert(y as int * nn + nn == (y as int + 1) * nn) by (nonlinear_arith);
        }
        y = y + 1;
    }
    proof {
        assert(cells@ =~= target);
    }
    Board::from_parts(n, cells)
}

/// Applies column saturation to the whole board.
pub fn saturate_cols(b: &Board, cols: &Vec<usize>) -> (r: Board)
    requires
        b.wf(),
        cols@.len() == b.dim(),
    ensures
        r.wf(),
        r.dim() == b.dim(),
        r@ == cols_applied(b@, b.dim() as int, cols@),
{
    let n = b.side();
    let ghost nn = b.dim() as int;
    let ghost target = cols_applied(b@, nn, cols@);
    let mut cells: Vec<Tile> = Vec::new();
    let mut y: usize = 0;
    while y < n
        invariant
            b.wf(),
            n == b.dim(),
            nn == n as int,
            cols@.len() == n,
            target == cols_applied(b@, nn, cols@),
            y <= n,
            cells@.len() == y * n,
            forall|j: int| 0 <= j < y * n ==> cells@[j] == target[j],
        decreases n - y,
    {
        let mut x: usize = 0;
        while x < n
            invariant
                b.wf(),
                n == b.dim(),
                nn == n as int,
                cols@.len() == n,
                target == cols_applied(b@, nn, cols@),
                y < n,
                x <= n,
                cells@.len() == y * n + x,
                forall|j: int| 0 <= j < y * n + x ==> cells@[j] == target[j],
            decreases n - x,
        {
            let w = b.count_col(x, Tile::Wall);
            let u = b.count_col(x, Tile::Unsure);
            let fw = w <= cols[x] && u == cols[x] - w;
            let fg = w == cols[x];
            assert(fw == col_forced_wall(b@, nn, cols@, x as int));
            assert(fg == col_forced_ground(b@, nn, cols@, x as int));
            let t = b.get(x, y);
            let v = if t == Tile::Unsure && fw {
                Tile::Wall
            } else if t == Tile::Unsure && fg {
                Tile::Ground
            } else {
                t
            };
            proof {
                lemma_flat_bounds(nn, x as int, y as int);
                lemma_flat_coords(nn, x as int, y as int);
            }
            cells.push(v);
            x = x + 1;
        }
        proof {
            assert(y as int * nn + nn == (y as int + 1) * nn) by (nonlinear_arith);
        }
        y = y + 1;
    }
    proof {
        assert(cells@ =~= target);
    }
    Board::from_parts(n, cells)
}

/// Applies monster escape-forcing to the whole board.
pub fn force_monster_escapes(b: &Board) -> (r: Board)
    requires
        b.wf(),
    ensures
        r.wf(),
        r.dim() == b.dim(),
        r@ == escape_applied(b@, b.dim() as int),
{
    let n = b.side();
    let ghost nn = b.dim() as int;
    let ghost target = escape_applied(b@, nn);
    let mut cells: Vec<Tile> = Vec::new();
    let mut y: usize = 0;
    while y < n
        invariant
            b.wf(),
            n == b.dim(),
            nn == n as int,
            target == escape_applied(b@, nn),
            y <= n,
            cells@.len() == y * n,
            forall|j: int| 0 <= j < y * n ==> cells@[j] == target[j],
        decreases n - y,
    {
        let mut x: usize = 0;
        while x < n
            invariant
                b.wf(),
                n == b.dim(),
                nn == n as int,
                target == escape_applied(b@, nn),
                y < n,
                x <= n,
                cells@.len() == y * n + x,
                forall|j: int| 0 <= j < y * n + x ==> cells@[j] == target[j],
            decreases n - x,
        {
            let t = b.get(x, y);
            let v = if t == Tile::Unsure && escape_forced_at(b, x, y) {
                Tile::Ground
            } else {
                t
            };
            proof {
                lemma_flat_bounds(nn, x as int, y as int);
                lemma_flat_coords(nn, x as int, y as int);
            }
            cells.push(v);
            x = x + 1;
        }
        proof {
            assert(y as int * nn + nn == (y as int + 1) * nn) by (nonlinear_arith);
        }
        y = y + 1;
    }
    proof {
        assert(cells@ =~= target);
    }
    Board::from_parts(n, cells)
}

/// Applies monster enclosure to the whole board.
pub fn enclose_monsters(b: &Board) -> (r: Board)
    requires
        b.wf(),
    ensures
        r.wf(),
        r.dim() == b.dim(),
        r@ == enclose_applied(b@, b.dim() as int),
{
    let n = b.side();
    let ghost nn = b.dim() as int;
    let ghost target = enclose_applied(b@, nn);
    let mut cells: Vec<Tile> = Vec::new();
    let mut y: usize = 0;
    while y < n
        invariant
            b.wf(),
            n == b.dim(),
            nn == n as int,
            target == enclose_applied(b@, nn),
            y <= n,
            cells@.len() == y * n,
            forall|j: int| 0 <= j < y * n ==> cells@[j] == target[j],
        decreases n - y,
    {
        let mut x: usize = 0;
        while x < n
            invariant
                b.wf(),
                n == b.dim(),
                nn == n as int,
                target == enclose_applied(b@, nn),
                y < n,
                x <= n,
                cells@.len() == y * n + x,
                forall|j: int| 0 <= j < y * n + x ==> cells@[j] == target[j],
            decreases n - x,
        {
            let t = b.get(x, y);
            let v = if t == Tile::Unsure && enclose_forced_at(b, x, y) {
                Tile::Wall
            } else {
                t
            };
            proof {
                lemma_flat_bounds(nn, x as int, y as int);
                lemma_flat_coords(nn, x as int, y as int);
            }
            cells.push(v);
            x = x + 1;
        }
        proof {
            assert(y as int * nn + nn == (y as int + 1) * nn) by (nonlinear_arith);
        }
        y = y + 1;
    }
    proof {
        assert(cells@ =~= target);
    }
    Board::from_parts(n, cells)
}

/// Applies chest clearance to the whole board.
pub fn force_chest_clearance(b: &Board) -> (r: Board)
    requires
        b.wf(),
    ensures
        r.wf(),
        r.dim() == b.dim(),
        r@ == chest_applied(b@, b.dim() as int),
{
    let n = b.side();
    let ghost nn = b.dim() as int;
    let ghost target = chest_applied(b@, nn);
    let mut cells: Vec<Tile> = Vec::new();
    let mut y: usize = 0;
    while y < n
        invariant
            b.wf(),
            n == b.dim(),
            nn == n as int,
            target == chest_applied(b@, nn),
            y <= n,
            cells@.len() == y * n,
            forall|j: int| 0 <= j < y * n ==> cells@[j] == target[j],
        decreases n - y,
    {
        let mut x: usize = 0;
        while x < n
            invariant
                b.wf(),
                n == b.dim(),
                nn == n as int,
                target == chest_applied(b@, nn),
                y < n,
                x <= n,
                cells@.len() == y * n + x,
                forall|j: int| 0 <= j < y * n + x ==> cells@[j] == target[j],
            decreases n - x,
        {
            let t = b.get(x, y);
            let v = if t == Tile::Unsure && chest_forced_at(b, x, y) {
                Tile::Ground
            } else {
                t
            };
            proof {
                lemma_flat_bounds(nn, x as int, y as int);
                lemma_flat_coords(nn, x as int, y as int);
            }
            cells.push(v);
            x = x + 1;
        }
        proof {
            assert(y as int * nn + nn == (y as int + 1) * nn) by (nonlinear_arith);
        }
        y = y + 1;
    }
    proof {
        assert(cells@ =~= target);
    }
    Board::from_parts(n, cells)
}

/// Applies ground saturation to the whole board.
pub fn saturate_ground(b: &Board) -> (r: Board)
    requires
        b.wf(),
    ensures
        r.wf(),
        r.dim() == b.dim(),
        r@ == ground_sat_applied(b@, b.dim() as int),
{
    let n = b.side();
    let ghost nn = b.dim() as int;
    let ghost target = ground_sat_applied(b@, nn);
    let mut cells: Vec<Tile> = Vec::new();
    let mut y: usize = 0;
    while y < n
        invariant
            b.wf(),
            n == b.dim(),
            nn == n as int,
            target == ground_sat_applied(b@, nn),
            y <= n,
            cells@.len() == y * n,
            forall|j: int| 0 <= j < y * n ==> cells@[j] == target[j],
        decreases n - y,
    {
        let mut x: usize = 0;
        while x < n
            invariant
                b.wf(),
                n == b.dim(),
                nn == n as int,
                target == ground_sat_applied(b@, nn),
                y < n,
                x <= n,
                cells@.len() == y * n + x,
                forall|j: int| 0 <= j < y * n + x ==> cells@[j] == target[j],
            decreases n - x,
        {
            let t = b.get(x, y);
            let v = if t == Tile::Unsure && ground_sat_forced_at(b, x, y) {
                Tile::Ground
            } else {
                t
            };
            proof {
                lemma_flat_bounds(nn, x as int, y as int);
                lemma_flat_coords(nn, x as int, y as int);
            }
            cells.push(v);
            x = x + 1;
        }
        proof {
            assert(y as int * nn + nn == (y as int + 1) * nn) by (nonlinear_arith);
        }
        y = y + 1;
    }
    proof {
        assert(cells@ =~= target);
    }
    Board::from_parts(n, cells)
}

/// One full propagation pass over the board, in the fixed rule order.
pub fn collapse_certainties(matrix: &mut Board, nums_columns: &Vec<usize>, nums_rows: &Vec<usize>)
    requires
        old(matrix).wf(),
        clues_fit(nums_columns@, nums_rows@, old(matrix).dim()),
    ensures
        final(matrix).wf(),
        final(matrix).dim() == old(matrix).dim(),
        final(matrix)@ == pass_once(
            old(matrix)@,
            old(matrix).dim() as int,
            nums_columns@,
            nums_rows@,
        ),
{
    let s1 = saturate_rows(matrix, nums_rows);
    let s2 = saturate_cols(&s1, nums_columns);
    let s3 = force_monster_escapes(&s2);
    let s4 = enclose_monsters(&s3);
    let s5 = force_chest_clearance(&s4);
    let s6 = saturate_ground(&s5);
    *matrix = s6;
}

/// Runs propagation passes until a fixpoint is reached, and returns the
/// fixpoint board.
pub fn propagate(matrix: &Board, nums_columns: &Vec<usize>, nums_rows: &Vec<usize>) -> (r: Board)
    requires
        matrix.wf(),
        clues_fit(nums_columns@, nums_rows@, matrix.dim()),
    ensures
        r.wf(),
        r.dim() == matrix.dim(),
        r@ == spec_propagate(matrix@, matrix.dim() as int, nums_columns@, nums_rows@),
        collapse_of(matrix@, r@),
        pass_once(r@, matrix.dim() as int, nums_columns@, nums_rows@) == r@,
{
    let ghost nn = matrix.dim() as int;
    let mut cur = matrix.duplicate();
    let mut ucnt = cur.count_total(Tile::Unsure);
    let mut done = false;
    while !done
        invariant
            matrix.wf(),
            cur.wf(),
            cur.dim() == matrix.dim(),
            nn == matrix.dim() as int,
            clues_fit(nums_columns@, nums_rows@, matrix.dim()),
            ucnt == count_tile(cur@, Tile::Unsure),
            collapse_of(matrix@, cur@),
            spec_propagate(cur@, nn, nums_columns@, nums_rows@) == spec_propagate(
                matrix@,
                nn,
                nums_columns@,
                nums_rows@,
            ),
            done ==> pass_once(cur@, nn, nums_columns@, nums_rows@) == cur@,
        decreases ucnt, (if done {
            0int
        } else {
            1int
        }),
    {
        let ghost prev = cur@;
        let prev_cnt = ucnt;
        collapse_certainties(&mut cur, nums_columns, nums_rows);
        ucnt = cur.count_total(Tile::Unsure);
        proof {
            lemma_pass_once_collapse(prev, nn, nums_columns@, nums_rows@);
            lemma_collapse_of_trans(matrix@, prev, cur@);
        }
        if ucnt == prev_cnt {
            proof {
                lemma_collapse_count_eq(prev, cur@);
            }
            done = true;
        } else {
            proof {
                lemma_collapse_unsure_le(prev, cur@);
                assert(cur@ != prev);
                assert(spec_propagate(prev, nn, nums_columns@, nums_rows@) == spec_propagate(
                    cur@,
                    nn,
                    nums_columns@,
                    nums_rows@,
                ));
            }
        }
    }
    proof {
        assert(spec_propagate(cur@, nn, nums_columns@, nums_rows@) == cur@);
    }
    cur
}

} // verus!
