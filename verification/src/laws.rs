//! The library's laws: what a fully determined, validated board
//! satisfies, and the soundness of the propagator.

use vstd::prelude::*;

verus! {

use crate::board::{
    Tile,
    flat,
    in_grid,
    at,
    is_tile_at,
    is_passable,
    is_wall_or_boundary,
    count_tile,
    count_in_row,
    count_in_col,
    row_seq,
    col_seq,
    tile_nbrs,
    passable_nbrs,
    wb_nbrs,
    resolution_of,
    lemma_flat_bounds,
    lemma_count_tile_zero,
    lemma_count_tile_two,
};
use crate::connect::{adjacent, passable_path, reach, grounds_connected};
use crate::propagate::{
    rows_applied,
    cols_applied,
    escape_applied,
    enclose_applied,
    chest_applied,
    ground_sat_applied,
    row_forced_wall,
    row_forced_ground,
    col_forced_wall,
    col_forced_ground,
    monster_escape_src,
    monster_enclose_src,
    escape_forced,
    enclose_forced,
    chest_pull,
    chest_forced,
    ground_sat_src,
    ground_sat_forced,
    pass_once,
    spec_propagate,
    lemma_pass_once_progress,
};
use crate::validate::{
    spec_feasible,
    room_interior_ok,
    room_perimeter_ok,
    room_entrance_possible,
    room_possible,
    ring_pos,
};

/// A three-by-three region with top-left `(lx, ly)` lying in the grid
/// whose cells are all ground or chests: a settled room interior.
pub open spec fn solved_room_at(s: Seq<Tile>, n: int, lx: int, ly: int) -> bool {
    forall|ax: int, ay: int|
        lx <= ax < lx + 3 && ly <= ay < ly + 3 ==> in_grid(n, ax, ay) && (#[trigger] at(s, n, ax, ay)
            == Tile::Ground || at(s, n, ax, ay) == Tile::Chest)
}

/// Some non-corner ring cell of the room is ground: its entrance.
pub open spec fn solved_room_entrance(s: Seq<Tile>, n: int, lx: int, ly: int) -> bool {
    exists|ax: int, ay: int|
        ring_pos(lx, ly, ax, ay) && in_grid(n, ax, ay) && #[trigger] at(s, n, ax, ay)
            == Tile::Ground
}

/// Law: a fully determined board that the validator accepts satisfies
/// the solved-board invariants: no undetermined cell remains, every
/// row's and column's wall count equals its clue, the ground cells are
/// pairwise connected (one component), every monster has exactly one
/// ground neighbour, and every chest sits in a settled three-by-three
/// room whose non-corner ring holds no monster and no chest and has a
/// ground entrance.
pub proof fn lemma_solved_board_properties(s: Seq<Tile>, n: int, cols: Seq<usize>, rows: Seq<usize>)
    requires
        1 <= n <= 8,
        s.len() == n * n,
        cols.len() == n,
        rows.len() == n,
        spec_feasible(s, n, cols, rows),
        count_tile(s, Tile::Unsure) == 0,
    ensures
        forall|i: int| 0 <= i < s.len() ==> s[i] != Tile::Unsure,
        forall|y: int| 0 <= y < n ==> #[trigger] count_in_row(s, n, y, Tile::Wall) == rows[y],
        forall|x: int| 0 <= x < n ==> #[trigger] count_in_col(s, n, x, Tile::Wall) == cols[x],
        grounds_connected(s, n),
        forall|x: int, y: int|
            #[trigger] is_tile_at(s, n, x, y, Tile::Monster) ==> tile_nbrs(s, n, x, y, Tile::Ground)
                == 1,
        forall|cx: int, cy: int|
            #[trigger] is_tile_at(s, n, cx, cy, Tile::Chest) ==> exists|lx: int, ly: int|
                cx - 2 <= lx <= cx && cy - 2 <= ly <= cy && #[trigger] solved_room_at(s, n, lx, ly)
                    && room_perimeter_ok(s, n, lx, ly) && solved_room_entrance(s, n, lx, ly),
        legal_board(s, n, cols, rows),
{
    lemma_count_tile_zero(s, Tile::Unsure);

    // Row and column clues are met exactly: no undetermined cell is
    // left to account for the difference.
    assert forall|y: int| 0 <= y < n implies #[trigger] count_in_row(s, n, y, Tile::Wall)
        == rows[y] by {
        let rseq = row_seq(s, n, y);
        assert forall|j: int| 0 <= j < rseq.len() implies rseq[j] != Tile::Unsure by {
            lemma_flat_bounds(n, j, y);
            assert(rseq[j] == s[flat(n, j, y)]);
        }
        lemma_count_of_absent(rseq, Tile::Unsure);
    }
    assert forall|x: int| 0 <= x < n implies #[trigger] count_in_col(s, n, x, Tile::Wall)
        == cols[x] by {
        let cseq = col_seq(s, n, x);
        assert forall|j: int| 0 <= j < cseq.len() implies cseq[j] != Tile::Unsure by {
            lemma_flat_bounds(n, x, j);
            assert(cseq[j] == s[flat(n, x, j)]);
        }
        lemma_count_of_absent(cseq, Tile::Unsure);
    }

    // Every monster has exactly one ground neighbour: at most one by
    // the exit bound, and its passable neighbour is ground because no
    // cell is undetermined.
    assert forall|x: int, y: int| #[trigger] is_tile_at(s, n, x, y, Tile::Monster) implies
        tile_nbrs(s, n, x, y, Tile::Ground) == 1 by {
        lemma_passable_is_ground(s, n, x - 1, y);
        lemma_passable_is_ground(s, n, x + 1, y);
        lemma_passable_is_ground(s, n, x, y - 1);
        lemma_passable_is_ground(s, n, x, y + 1);
    }

    // Every chest's possible room is settled: its interior cells are
    // ground or chests and its feasible entrance is ground.
    assert forall|cx: int, cy: int| #[trigger] is_tile_at(s, n, cx, cy, Tile::Chest) implies
        exists|lx: int, ly: int|
            cx - 2 <= lx <= cx && cy - 2 <= ly <= cy && #[trigger] solved_room_at(s, n, lx, ly)
                && room_perimeter_ok(s, n, lx, ly) && solved_room_entrance(s, n, lx, ly) by {
        assert(room_possible(s, n, cx, cy));
        let (lx, ly) = choose|lx: int, ly: int|
            cx - 2 <= lx <= cx && cy - 2 <= ly <= cy && #[trigger] room_interior_ok(s, n, lx, ly)
                && room_perimeter_ok(s, n, lx, ly) && room_entrance_possible(s, n, lx, ly);
        assert forall|ax: int, ay: int| lx <= ax < lx + 3 && ly <= ay < ly + 3 implies in_grid(
            n,
            ax,
            ay,
        ) && (#[trigger] at(s, n, ax, ay) == Tile::Ground || at(s, n, ax, ay) == Tile::Chest) by {
            assert(in_grid(n, ax, ay) && at(s, n, ax, ay) != Tile::Monster && at(s, n, ax, ay)
                != Tile::Wall);
            lemma_flat_bounds(n, ax, ay);
        }
        let (ex, ey) = choose|ax: int, ay: int|
            ring_pos(lx, ly, ax, ay) && in_grid(n, ax, ay) && (#[trigger] at(s, n, ax, ay)
                == Tile::Ground || at(s, n, ax, ay) == Tile::Unsure);
        lemma_flat_bounds(n, ex, ey);
        assert(at(s, n, ex, ey) == Tile::Ground);
        assert(solved_room_at(s, n, lx, ly));
        assert(solved_room_entrance(s, n, lx, ly));
    }

    // The board is a legal layout outright: the dead-end guard carries
    // over because with no undetermined cells, passable means ground.
    assert(legal_board(s, n, cols, rows));
}

/// In a board with a zero count of some tile, no cell holds it; for
/// the wall count this means walls plus undetermined cells collapse to
/// walls alone.
proof fn lemma_count_of_absent(s: Seq<Tile>, t: Tile)
    requires
        forall|j: int| 0 <= j < s.len() ==> s[j] != t,
    ensures
        count_tile(s, t) == 0,
    decreases s.len(),
{
    if s.len() > 0 {
        assert(forall|j: int| 0 <= j < s.drop_last().len() ==> s.drop_last()[j] != t);
        lemma_count_of_absent(s.drop_last(), t);
    }
}

/// On a board without undetermined cells, a passable cell is ground.
proof fn lemma_passable_is_ground(s: Seq<Tile>, n: int, x: int, y: int)
    requires
        1 <= n <= 8,
        s.len() == n * n,
        forall|i: int| 0 <= i < s.len() ==> s[i] != Tile::Unsure,
    ensures
        is_passable(s, n, x, y) == is_tile_at(s, n, x, y, Tile::Ground),
{
    if in_grid(n, x, y) {
        lemma_flat_bounds(n, x, y);
    }
}


// ---------------------------------------------------------------------
// Soundness of the propagator.
// ---------------------------------------------------------------------

/// A fully determined board that obeys the puzzle's rules: exact wall
/// clues, connected ground, exactly one ground neighbour per monster, a
/// settled three-by-three room around every chest, and monster-guarded
/// dead ends.
pub open spec fn legal_board(s: Seq<Tile>, n: int, cols: Seq<usize>, rows: Seq<usize>) -> bool {
    &&& s.len() == n * n
    &&& count_tile(s, Tile::Unsure) == 0
    &&& forall|y: int| 0 <= y < n ==> #[trigger] count_in_row(s, n, y, Tile::Wall) == rows[y]
    &&& forall|x: int| 0 <= x < n ==> #[trigger] count_in_col(s, n, x, Tile::Wall) == cols[x]
    &&& grounds_connected(s, n)
    &&& forall|x: int, y: int|
        #[trigger] is_tile_at(s, n, x, y, Tile::Monster) ==> tile_nbrs(s, n, x, y, Tile::Ground)
            == 1
    &&& forall|cx: int, cy: int|
        #[trigger] is_tile_at(s, n, cx, cy, Tile::Chest) ==> exists|lx: int, ly: int|
            cx - 2 <= lx <= cx && cy - 2 <= ly <= cy && #[trigger] solved_room_at(s, n, lx, ly)
    &&& forall|x: int, y: int|
        #[trigger] is_tile_at(s, n, x, y, Tile::Ground) && passable_nbrs(s, n, x, y) == 1
            ==> tile_nbrs(s, n, x, y, Tile::Monster) >= 1
}

/// An index of a small square grid decomposes into in-grid coordinates.
pub proof fn lemma_coords_of_index(n: int, i: int)
    requires
        1 <= n,
        0 <= i < n * n,
    ensures
        in_grid(n, i % n, i / n),
        i == flat(n, i % n, i / n),
{
    vstd::arithmetic::div_mod::lemma_fundamental_div_mod(i, n);
    assert(i == n * (i / n) + i % n);
    assert(i / n < n) by (nonlinear_arith)
        requires
            1 <= n,
            i == n * (i / n) + i % n,
            0 <= i % n < n,
            i < n * n,
    ;
    assert(i / n >= 0) by (nonlinear_arith)
        requires
            1 <= n,
            i == n * (i / n) + i % n,
            0 <= i % n < n,
            0 <= i,
    ;
    assert((i / n) * n + i % n == n * (i / n) + i % n) by (nonlinear_arith);
}

/// Resolution restricted to one row.
proof fn lemma_res_row(b: Seq<Tile>, s: Seq<Tile>, n: int, y: int)
    requires
        1 <= n <= 8,
        b.len() == n * n,
        resolution_of(b, s),
        0 <= y < n,
    ensures
        resolution_of(row_seq(b, n, y), row_seq(s, n, y)),
{
    assert forall|j: int|
        0 <= j < n implies ((row_seq(b, n, y)[j] != Tile::Unsure ==> row_seq(s, n, y)[j]
        == row_seq(b, n, y)[j]) && (row_seq(b, n, y)[j] == Tile::Unsure ==> (row_seq(s, n, y)[j]
        == Tile::Ground || row_seq(s, n, y)[j] == Tile::Wall))) by {
        lemma_flat_bounds(n, j, y);
    }
}

/// Resolution restricted to one column.
proof fn lemma_res_col(b: Seq<Tile>, s: Seq<Tile>, n: int, x: int)
    requires
        1 <= n <= 8,
        b.len() == n * n,
        resolution_of(b, s),
        0 <= x < n,
    ensures
        resolution_of(col_seq(b, n, x), col_seq(s, n, x)),
{
    assert forall|j: int|
        0 <= j < n implies ((col_seq(b, n, x)[j] != Tile::Unsure ==> col_seq(s, n, x)[j]
        == col_seq(b, n, x)[j]) && (col_seq(b, n, x)[j] == Tile::Unsure ==> (col_seq(s, n, x)[j]
        == Tile::Ground || col_seq(s, n, x)[j] == Tile::Wall))) by {
        lemma_flat_bounds(n, x, j);
    }
}

/// Under resolution the wall count can only grow, and only by spending
/// undetermined cells.
proof fn lemma_res_wall_bounds(p: Seq<Tile>, q: Seq<Tile>)
    requires
        resolution_of(p, q),
    ensures
        count_tile(p, Tile::Wall) <= count_tile(q, Tile::Wall),
        count_tile(q, Tile::Wall) <= count_tile(p, Tile::Wall) + count_tile(p, Tile::Unsure),
    decreases p.len(),
{
    if p.len() > 0 {
        assert(resolution_of(p.drop_last(), q.drop_last()));
        lemma_res_wall_bounds(p.drop_last(), q.drop_last());
    }
}

/// An undetermined cell not resolved to a wall keeps the wall count
/// strictly below its ceiling.
proof fn lemma_res_wall_missed(p: Seq<Tile>, q: Seq<Tile>, j: int)
    requires
        resolution_of(p, q),
        0 <= j < p.len(),
        p[j] == Tile::Unsure,
        q[j] != Tile::Wall,
    ensures
        count_tile(q, Tile::Wall) < count_tile(p, Tile::Wall) + count_tile(p, Tile::Unsure),
    decreases p.len(),
{
    assert(resolution_of(p.drop_last(), q.drop_last()));
    if j == p.len() - 1 {
        lemma_res_wall_bounds(p.drop_last(), q.drop_last());
    } else {
        lemma_res_wall_missed(p.drop_last(), q.drop_last(), j);
    }
}

/// An undetermined cell resolved to a wall pushes the wall count
/// strictly above its floor.
proof fn lemma_res_wall_extra(p: Seq<Tile>, q: Seq<Tile>, j: int)
    requires
        resolution_of(p, q),
        0 <= j < p.len(),
        p[j] == Tile::Unsure,
        q[j] == Tile::Wall,
    ensures
        count_tile(q, Tile::Wall) >= count_tile(p, Tile::Wall) + 1,
    decreases p.len(),
{
    assert(resolution_of(p.drop_last(), q.drop_last()));
    if j == p.len() - 1 {
        lemma_res_wall_bounds(p.drop_last(), q.drop_last());
    } else {
        lemma_res_wall_extra(p.drop_last(), q.drop_last(), j);
    }
}

/// Row and column saturation are sound: in any legal resolution the
/// saturated cells hold exactly the forced value.
proof fn lemma_rows_applied_sound(b: Seq<Tile>, s: Seq<Tile>, n: int, rows: Seq<usize>)
    requires
        1 <= n <= 8,
        b.len() == n * n,
        rows.len() == n,
        resolution_of(b, s),
        forall|y: int| 0 <= y < n ==> #[trigger] count_in_row(s, n, y, Tile::Wall) == rows[y],
    ensures
        resolution_of(rows_applied(b, n, rows), s),
{
    let t = rows_applied(b, n, rows);
    assert forall|i: int|
        0 <= i < t.len() implies ((t[i] != Tile::Unsure ==> s[i] == t[i]) && (t[i] == Tile::Unsure
        ==> (s[i] == Tile::Ground || s[i] == Tile::Wall))) by {
        lemma_coords_of_index(n, i);
        let x = i % n;
        let y = i / n;
        if b[i] == Tile::Unsure {
            assert(row_seq(b, n, y)[x] == b[i]);
            assert(row_seq(s, n, y)[x] == s[i]);
            assert(count_in_row(s, n, y, Tile::Wall) == rows[y]);
            if row_forced_wall(b, n, rows, y) {
                if s[i] != Tile::Wall {
                    lemma_res_row(b, s, n, y);
                    lemma_res_wall_missed(row_seq(b, n, y), row_seq(s, n, y), x);
                }
            } else if row_forced_ground(b, n, rows, y) {
                if s[i] == Tile::Wall {
                    lemma_res_row(b, s, n, y);
                    lemma_res_wall_extra(row_seq(b, n, y), row_seq(s, n, y), x);
                }
            }
        }
    }
}

proof fn lemma_cols_applied_sound(b: Seq<Tile>, s: Seq<Tile>, n: int, cols: Seq<usize>)
    requires
        1 <= n <= 8,
        b.len() == n * n,
        cols.len() == n,
        resolution_of(b, s),
        forall|x: int| 0 <= x < n ==> #[trigger] count_in_col(s, n, x, Tile::Wall) == cols[x],
    ensures
        resolution_of(cols_applied(b, n, cols), s),
{
    let t = cols_applied(b, n, cols);
    assert forall|i: int|
        0 <= i < t.len() implies ((t[i] != Tile::Unsure ==> s[i] == t[i]) && (t[i] == Tile::Unsure
        ==> (s[i] == Tile::Ground || s[i] == Tile::Wall))) by {
        lemma_coords_of_index(n, i);
        let x = i % n;
        let y = i / n;
        if b[i] == Tile::Unsure {
            assert(col_seq(b, n, x)[y] == b[i]);
            assert(col_seq(s, n, x)[y] == s[i]);
            assert(count_in_col(s, n, x, Tile::Wall) == cols[x]);
            if col_forced_wall(b, n, cols, x) {
                if s[i] != Tile::Wall {
                    lemma_res_col(b, s, n, x);
                    lemma_res_wall_missed(col_seq(b, n, x), col_seq(s, n, x), y);
                }
            } else if col_forced_ground(b, n, cols, x) {
                if s[i] == Tile::Wall {
                    lemma_res_col(b, s, n, x);
                    lemma_res_wall_extra(col_seq(b, n, x), col_seq(s, n, x), y);
                }
            }
        }
    }
}

/// Two distinct ground neighbours force a ground-neighbour count of at
/// least two.
proof fn lemma_two_ground_nbrs(
    s: Seq<Tile>,
    n: int,
    mx: int,
    my: int,
    x1: int,
    y1: int,
    x2: int,
    y2: int,
)
    requires
        adjacent(mx, my, x1, y1),
        adjacent(mx, my, x2, y2),
        !(x1 == x2 && y1 == y2),
        is_tile_at(s, n, x1, y1, Tile::Ground),
        is_tile_at(s, n, x2, y2, Tile::Ground),
    ensures
        tile_nbrs(s, n, mx, my, Tile::Ground) >= 2,
{
}

/// Monster escape-forcing is sound: the only possible exit must be
/// ground in any legal resolution.
proof fn lemma_escape_applied_sound(b: Seq<Tile>, s: Seq<Tile>, n: int, cols: Seq<usize>, rows: Seq<usize>)
    requires
        1 <= n <= 8,
        b.len() == n * n,
        resolution_of(b, s),
        legal_board(s, n, cols, rows),
    ensures
        resolution_of(escape_applied(b, n), s),
{
    let t = escape_applied(b, n);
    assert forall|i: int|
        0 <= i < t.len() implies ((t[i] != Tile::Unsure ==> s[i] == t[i]) && (t[i] == Tile::Unsure
        ==> (s[i] == Tile::Ground || s[i] == Tile::Wall))) by {
        lemma_coords_of_index(n, i);
        let x = i % n;
        let y = i / n;
        if b[i] == Tile::Unsure && escape_forced(b, n, x, y) {
            let (mx, my) = choose|mx: int, my: int|
                adjacent(x, y, mx, my) && #[trigger] monster_escape_src(b, n, mx, my);
            if monster_escape_src(b, n, x - 1, y) {
                lemma_escape_cell(b, s, n, cols, rows, x, y, x - 1, y);
            } else if monster_escape_src(b, n, x + 1, y) {
                lemma_escape_cell(b, s, n, cols, rows, x, y, x + 1, y);
            } else if monster_escape_src(b, n, x, y - 1) {
                lemma_escape_cell(b, s, n, cols, rows, x, y, x, y - 1);
            } else {
                lemma_escape_cell(b, s, n, cols, rows, x, y, x, y + 1);
            }
        }
    }
}

/// One monster with three wall-or-boundary neighbours forces its
/// remaining neighbour to be its ground exit.
proof fn lemma_escape_cell(
    b: Seq<Tile>,
    s: Seq<Tile>,
    n: int,
    cols: Seq<usize>,
    rows: Seq<usize>,
    x: int,
    y: int,
    mx: int,
    my: int,
)
    requires
        1 <= n <= 8,
        b.len() == n * n,
        resolution_of(b, s),
        legal_board(s, n, cols, rows),
        in_grid(n, x, y),
        b[flat(n, x, y)] == Tile::Unsure,
        adjacent(mx, my, x, y),
        monster_escape_src(b, n, mx, my),
    ensures
        s[flat(n, x, y)] == Tile::Ground,
{
    lemma_flat_bounds(n, x, y);
    lemma_flat_bounds(n, mx, my);
    assert(s[flat(n, mx, my)] == Tile::Monster);
    assert(is_tile_at(s, n, mx, my, Tile::Monster));
    assert(tile_nbrs(s, n, mx, my, Tile::Ground) == 1);
    if s[flat(n, x, y)] == Tile::Wall {
        // every neighbour of the monster would be a wall or the
        // boundary, leaving it no exit
        lemma_res_keeps_wb(b, s, n, mx - 1, my);
        lemma_res_keeps_wb(b, s, n, mx + 1, my);
        lemma_res_keeps_wb(b, s, n, mx, my - 1);
        lemma_res_keeps_wb(b, s, n, mx, my + 1);
        assert(!is_wall_or_boundary(b, n, x, y));
        assert(is_wall_or_boundary(s, n, x, y));
        assert(tile_nbrs(s, n, mx, my, Tile::Ground) == 0);
    }
}

/// Resolution keeps walls and the boundary in place; a wall-or-boundary
/// cell is never ground afterwards.
proof fn lemma_res_keeps_wb(b: Seq<Tile>, s: Seq<Tile>, n: int, x: int, y: int)
    requires
        1 <= n <= 8,
        b.len() == n * n,
        resolution_of(b, s),
    ensures
        is_wall_or_boundary(b, n, x, y) ==> is_wall_or_boundary(s, n, x, y),
        is_wall_or_boundary(s, n, x, y) ==> !is_tile_at(s, n, x, y, Tile::Ground),
{
    if in_grid(n, x, y) {
        lemma_flat_bounds(n, x, y);
    }
}

/// Monster enclosure is sound: once a monster's exit is settled, its
/// other undetermined neighbours must be walls in any legal resolution.
proof fn lemma_enclose_applied_sound(b: Seq<Tile>, s: Seq<Tile>, n: int, cols: Seq<usize>, rows: Seq<usize>)
    requires
        1 <= n <= 8,
        b.len() == n * n,
        resolution_of(b, s),
        legal_board(s, n, cols, rows),
    ensures
        resolution_of(enclose_applied(b, n), s),
{
    let t = enclose_applied(b, n);
    assert forall|i: int|
        0 <= i < t.len() implies ((t[i] != Tile::Unsure ==> s[i] == t[i]) && (t[i] == Tile::Unsure
        ==> (s[i] == Tile::Ground || s[i] == Tile::Wall))) by {
        lemma_coords_of_index(n, i);
        let x = i % n;
        let y = i / n;
        if b[i] == Tile::Unsure && enclose_forced(b, n, x, y) {
            if monster_enclose_src(b, n, x - 1, y) {
                lemma_enclose_cell(b, s, n, cols, rows, x, y, x - 1, y);
            } else if monster_enclose_src(b, n, x + 1, y) {
                lemma_enclose_cell(b, s, n, cols, rows, x, y, x + 1, y);
            } else if monster_enclose_src(b, n, x, y - 1) {
                lemma_enclose_cell(b, s, n, cols, rows, x, y, x, y - 1);
            } else {
                lemma_enclose_cell(b, s, n, cols, rows, x, y, x, y + 1);
            }
        }
    }
}

proof fn lemma_enclose_cell(
    b: Seq<Tile>,
    s: Seq<Tile>,
    n: int,
    cols: Seq<usize>,
    rows: Seq<usize>,
    x: int,
    y: int,
    mx: int,
    my: int,
)
    requires
        1 <= n <= 8,
        b.len() == n * n,
        resolution_of(b, s),
        legal_board(s, n, cols, rows),
        in_grid(n, x, y),
        b[flat(n, x, y)] == Tile::Unsure,
        adjacent(mx, my, x, y),
        monster_enclose_src(b, n, mx, my),
    ensures
        s[flat(n, x, y)] == Tile::Wall,
{
    lemma_flat_bounds(n, x, y);
    lemma_flat_bounds(n, mx, my);
    assert(is_tile_at(s, n, mx, my, Tile::Monster));
    assert(tile_nbrs(s, n, mx, my, Tile::Ground) == 1);
    // the monster's settled ground neighbour
    assert(tile_nbrs(b, n, mx, my, Tile::Ground) >= 1);
    let (gx, gy) = choose|gx: int, gy: int|
        adjacent(mx, my, gx, gy) && #[trigger] is_tile_at(b, n, gx, gy, Tile::Ground);
    assert(is_tile_at(b, n, mx - 1, my, Tile::Ground) || is_tile_at(b, n, mx + 1, my, Tile::Ground)
        || is_tile_at(b, n, mx, my - 1, Tile::Ground) || is_tile_at(
        b,
        n,
        mx,
        my + 1,
        Tile::Ground,
    ));
    lemma_flat_bounds(n, gx, gy);
    assert(s[flat(n, gx, gy)] == Tile::Ground);
    assert(is_tile_at(s, n, gx, gy, Tile::Ground));
    if s[flat(n, x, y)] == Tile::Ground {
        assert(!(gx == x && gy == y));
        lemma_two_ground_nbrs(s, n, mx, my, gx, gy, x, y);
    }
}


/// On a connected board with a second ground cell, every ground cell
/// keeps at least one passable neighbour: the last step of a walk from
/// the other ground cell enters through one.
proof fn lemma_isolated_ground(s: Seq<Tile>, n: int, gx: int, gy: int)
    requires
        1 <= n <= 8,
        s.len() == n * n,
        is_tile_at(s, n, gx, gy, Tile::Ground),
        count_tile(s, Tile::Ground) >= 2,
        grounds_connected(s, n),
    ensures
        passable_nbrs(s, n, gx, gy) >= 1,
{
    lemma_flat_bounds(n, gx, gy);
    lemma_count_tile_two(s, Tile::Ground, flat(n, gx, gy));
    let h = choose|h: int| 0 <= h < s.len() && h != flat(n, gx, gy) && s[h] == Tile::Ground;
    lemma_coords_of_index(n, h);
    let hx = h % n;
    let hy = h / n;
    assert(is_tile_at(s, n, hx, hy, Tile::Ground));
    assert(reach(s, n, hx, hy, gx, gy));
    let p = choose|p: Seq<(int, int)>|
        #[trigger] passable_path(s, n, p) && p.first() == (hx, hy) && p.last() == (gx, gy);
    if p.len() == 1 {
        assert((hx, hy) == (gx, gy));
        assert(h == flat(n, gx, gy));
    } else {
        let k = p.len() - 2;
        assert(adjacent(p[k as int].0, p[k as int].1, p[k as int + 1].0, p[k as int + 1].1));
        assert(p[k as int + 1] == (gx, gy));
        assert(is_passable(s, n, p[k as int].0, p[k as int].1));
    }
}

/// Ground saturation is sound: next to a hemmed-in ground cell, an
/// undetermined cell must be ground in any legal resolution with at
/// least two ground cells.
proof fn lemma_ground_sat_applied_sound(
    b: Seq<Tile>,
    s: Seq<Tile>,
    n: int,
    cols: Seq<usize>,
    rows: Seq<usize>,
)
    requires
        1 <= n <= 8,
        b.len() == n * n,
        resolution_of(b, s),
        legal_board(s, n, cols, rows),
        count_tile(s, Tile::Ground) >= 2,
    ensures
        resolution_of(ground_sat_applied(b, n), s),
{
    let t = ground_sat_applied(b, n);
    assert forall|i: int|
        0 <= i < t.len() implies ((t[i] != Tile::Unsure ==> s[i] == t[i]) && (t[i] == Tile::Unsure
        ==> (s[i] == Tile::Ground || s[i] == Tile::Wall))) by {
        lemma_coords_of_index(n, i);
        let x = i % n;
        let y = i / n;
        if b[i] == Tile::Unsure && ground_sat_forced(b, n, x, y) {
            if ground_sat_src(b, n, x - 1, y) {
                lemma_ground_sat_cell(b, s, n, cols, rows, x, y, x - 1, y);
            } else if ground_sat_src(b, n, x + 1, y) {
                lemma_ground_sat_cell(b, s, n, cols, rows, x, y, x + 1, y);
            } else if ground_sat_src(b, n, x, y - 1) {
                lemma_ground_sat_cell(b, s, n, cols, rows, x, y, x, y - 1);
            } else {
                lemma_ground_sat_cell(b, s, n, cols, rows, x, y, x, y + 1);
            }
        }
    }
}

/// Resolution keeps monsters in place, and a monster is never ground
/// or passable.
proof fn lemma_res_keeps_monster(b: Seq<Tile>, s: Seq<Tile>, n: int, x: int, y: int)
    requires
        1 <= n <= 8,
        b.len() == n * n,
        resolution_of(b, s),
    ensures
        is_tile_at(b, n, x, y, Tile::Monster) ==> is_tile_at(s, n, x, y, Tile::Monster),
        is_tile_at(s, n, x, y, Tile::Monster) ==> !is_passable(s, n, x, y) && !is_tile_at(
            s,
            n,
            x,
            y,
            Tile::Ground,
        ),
{
    if in_grid(n, x, y) {
        lemma_flat_bounds(n, x, y);
    }
}

proof fn lemma_ground_sat_cell(
    b: Seq<Tile>,
    s: Seq<Tile>,
    n: int,
    cols: Seq<usize>,
    rows: Seq<usize>,
    x: int,
    y: int,
    gx: int,
    gy: int,
)
    requires
        1 <= n <= 8,
        b.len() == n * n,
        resolution_of(b, s),
        legal_board(s, n, cols, rows),
        count_tile(s, Tile::Ground) >= 2,
        in_grid(n, x, y),
        b[flat(n, x, y)] == Tile::Unsure,
        adjacent(gx, gy, x, y),
        ground_sat_src(b, n, gx, gy),
    ensures
        s[flat(n, x, y)] == Tile::Ground,
{
    lemma_flat_bounds(n, x, y);
    lemma_flat_bounds(n, gx, gy);
    lemma_count_tile_zero(s, Tile::Unsure);
    assert(s[flat(n, gx, gy)] == Tile::Ground);
    assert(is_tile_at(s, n, gx, gy, Tile::Ground));
    if s[flat(n, x, y)] == Tile::Wall {
        lemma_res_keeps_wb(b, s, n, gx - 1, gy);
        lemma_res_keeps_wb(b, s, n, gx + 1, gy);
        lemma_res_keeps_wb(b, s, n, gx, gy - 1);
        lemma_res_keeps_wb(b, s, n, gx, gy + 1);
        lemma_res_keeps_monster(b, s, n, gx - 1, gy);
        lemma_res_keeps_monster(b, s, n, gx + 1, gy);
        lemma_res_keeps_monster(b, s, n, gx, gy - 1);
        lemma_res_keeps_monster(b, s, n, gx, gy + 1);
        lemma_passable_facts(s, n, gx - 1, gy);
        lemma_passable_facts(s, n, gx + 1, gy);
        lemma_passable_facts(s, n, gx, gy - 1);
        lemma_passable_facts(s, n, gx, gy + 1);
        assert(is_wall_or_boundary(s, n, x, y));
        assert(!is_passable(s, n, x, y));
        lemma_isolated_ground(s, n, gx, gy);
        if tile_nbrs(b, n, gx, gy, Tile::Monster) == 3 {
            // three monsters and one wall leave no passable neighbour
            assert(passable_nbrs(s, n, gx, gy) == 0);
        } else {
            // two walls-or-boundary and the new wall leave at most one
            // passable neighbour, which would make an unguarded dead end
            assert(wb_nbrs(b, n, gx, gy) == 2);
            assert(passable_nbrs(s, n, gx, gy) == 1);
            assert(tile_nbrs(s, n, gx, gy, Tile::Monster) >= 1);
            assert(false);
        }
    }
}

/// A passable cell on a board without undetermined cells is ground and
/// not a monster; an impassable in-grid cell next to nothing special is
/// wall, monster or chest.
proof fn lemma_passable_facts(s: Seq<Tile>, n: int, x: int, y: int)
    requires
        1 <= n <= 8,
        s.len() == n * n,
        forall|i: int| 0 <= i < s.len() ==> s[i] != Tile::Unsure,
    ensures
        is_passable(s, n, x, y) == is_tile_at(s, n, x, y, Tile::Ground),
        is_tile_at(s, n, x, y, Tile::Monster) ==> !is_passable(s, n, x, y),
{
    if in_grid(n, x, y) {
        lemma_flat_bounds(n, x, y);
    }
}

/// Chest clearance is sound: a cell pulled into a chest's room by a
/// wall close behind the chest must be ground in any legal resolution.
proof fn lemma_chest_applied_sound(
    b: Seq<Tile>,
    s: Seq<Tile>,
    n: int,
    cols: Seq<usize>,
    rows: Seq<usize>,
)
    requires
        1 <= n <= 8,
        b.len() == n * n,
        resolution_of(b, s),
        legal_board(s, n, cols, rows),
    ensures
        resolution_of(chest_applied(b, n), s),
{
    let t = chest_applied(b, n);
    assert forall|i: int|
        0 <= i < t.len() implies ((t[i] != Tile::Unsure ==> s[i] == t[i]) && (t[i] == Tile::Unsure
        ==> (s[i] == Tile::Ground || s[i] == Tile::Wall))) by {
        lemma_coords_of_index(n, i);
        let x = i % n;
        let y = i / n;
        if b[i] == Tile::Unsure && chest_forced(b, n, x, y) {
            if chest_pull(b, n, x, y, 1, 0) {
                lemma_chest_pull_sound(b, s, n, cols, rows, x, y, 1, 0);
            } else if chest_pull(b, n, x, y, -1, 0) {
                lemma_chest_pull_sound(b, s, n, cols, rows, x, y, -1, 0);
            } else if chest_pull(b, n, x, y, 0, 1) {
                lemma_chest_pull_sound(b, s, n, cols, rows, x, y, 0, 1);
            } else {
                lemma_chest_pull_sound(b, s, n, cols, rows, x, y, 0, -1);
            }
        }
    }
}

/// A wall-or-boundary cell lies outside every settled room.
proof fn lemma_wb_outside_room(
    b: Seq<Tile>,
    s: Seq<Tile>,
    n: int,
    lx: int,
    ly: int,
    wx: int,
    wy: int,
)
    requires
        1 <= n <= 8,
        b.len() == n * n,
        resolution_of(b, s),
        solved_room_at(s, n, lx, ly),
        is_wall_or_boundary(b, n, wx, wy),
    ensures
        !(lx <= wx <= lx + 2 && ly <= wy <= ly + 2),
{
    if lx <= wx <= lx + 2 && ly <= wy <= ly + 2 {
        assert(in_grid(n, wx, wy));
        lemma_flat_bounds(n, wx, wy);
        assert(at(s, n, wx, wy) == Tile::Ground || at(s, n, wx, wy) == Tile::Chest);
        assert(s[flat(n, wx, wy)] == Tile::Wall);
    }
}

proof fn lemma_chest_pull_sound(
    b: Seq<Tile>,
    s: Seq<Tile>,
    n: int,
    cols: Seq<usize>,
    rows: Seq<usize>,
    x: int,
    y: int,
    dx: int,
    dy: int,
)
    requires
        1 <= n <= 8,
        b.len() == n * n,
        resolution_of(b, s),
        legal_board(s, n, cols, rows),
        in_grid(n, x, y),
        b[flat(n, x, y)] == Tile::Unsure,
        (dx == 1 && dy == 0) || (dx == -1 && dy == 0) || (dx == 0 && dy == 1) || (dx == 0 && dy
            == -1),
        chest_pull(b, n, x, y, dx, dy),
    ensures
        s[flat(n, x, y)] == Tile::Ground,
{
    lemma_flat_bounds(n, x, y);
    let cx: int;
    let cy: int;
    let wx: int;
    let wy: int;
    if is_tile_at(b, n, x + dx, y + dy, Tile::Chest) && is_wall_or_boundary(
        b,
        n,
        x + 2 * dx,
        y + 2 * dy,
    ) {
        cx = x + dx;
        cy = y + dy;
        wx = x + 2 * dx;
        wy = y + 2 * dy;
    } else if is_tile_at(b, n, x + 2 * dx, y + 2 * dy, Tile::Chest) && is_wall_or_boundary(
        b,
        n,
        x + 3 * dx,
        y + 3 * dy,
    ) {
        cx = x + 2 * dx;
        cy = y + 2 * dy;
        wx = x + 3 * dx;
        wy = y + 3 * dy;
    } else {
        cx = x + dx;
        cy = y + dy;
        wx = x + 3 * dx;
        wy = y + 3 * dy;
    }
    lemma_flat_bounds(n, cx, cy);
    assert(s[flat(n, cx, cy)] == Tile::Chest);
    assert(is_tile_at(s, n, cx, cy, Tile::Chest));
    let (lx, ly) = choose|lx: int, ly: int|
        cx - 2 <= lx <= cx && cy - 2 <= ly <= cy && #[trigger] solved_room_at(s, n, lx, ly);
    lemma_wb_outside_room(b, s, n, lx, ly, wx, wy);
    // the room cannot cross the wall, so it must cover this cell
    assert(lx <= x <= lx + 2 && ly <= y <= ly + 2);
    assert(at(s, n, x, y) == Tile::Ground || at(s, n, x, y) == Tile::Chest);
    assert(s[flat(n, x, y)] == Tile::Ground || s[flat(n, x, y)] == Tile::Wall);
}

/// Law: the propagator is sound. Every cell value it forces is a
/// logical necessity: any legal fully determined layout that resolves a
/// board also resolves the board after one propagation pass, so
/// propagation never discards a legal completion. The one proviso: the
/// layout must hold at least two ground cells, since on a board whose
/// whole floor is a single cell the ground-saturation rule can
/// overcommit.
pub proof fn lemma_pass_once_sound(
    b: Seq<Tile>,
    s: Seq<Tile>,
    n: int,
    cols: Seq<usize>,
    rows: Seq<usize>,
)
    requires
        1 <= n <= 8,
        b.len() == n * n,
        cols.len() == n,
        rows.len() == n,
        resolution_of(b, s),
        legal_board(s, n, cols, rows),
        count_tile(s, Tile::Ground) >= 2,
    ensures
        resolution_of(pass_once(b, n, cols, rows), s),
{
    let s1 = rows_applied(b, n, rows);
    let s2 = cols_applied(s1, n, cols);
    let s3 = escape_applied(s2, n);
    let s4 = enclose_applied(s3, n);
    let s5 = chest_applied(s4, n);
    lemma_rows_applied_sound(b, s, n, rows);
    lemma_cols_applied_sound(s1, s, n, cols);
    lemma_escape_applied_sound(s2, s, n, cols, rows);
    lemma_enclose_applied_sound(s3, s, n, cols, rows);
    lemma_chest_applied_sound(s4, s, n, cols, rows);
    lemma_ground_sat_applied_sound(s5, s, n, cols, rows);
}

/// Law: the whole propagator is sound: any legal layout with at least
/// two ground cells that resolves a board also resolves its propagation
/// fixpoint.
pub proof fn lemma_propagate_sound(
    b: Seq<Tile>,
    s: Seq<Tile>,
    n: int,
    cols: Seq<usize>,
    rows: Seq<usize>,
)
    requires
        1 <= n <= 8,
        b.len() == n * n,
        cols.len() == n,
        rows.len() == n,
        resolution_of(b, s),
        legal_board(s, n, cols, rows),
        count_tile(s, Tile::Ground) >= 2,
    ensures
        resolution_of(spec_propagate(b, n, cols, rows), s),
    decreases count_tile(b, Tile::Unsure),
{
    let t = pass_once(b, n, cols, rows);
    lemma_pass_once_sound(b, s, n, cols, rows);
    if t != b {
        crate::board::lemma_count_tile_bounds(b, Tile::Unsure);
        lemma_pass_once_progress(b, n, cols, rows);
        crate::board::lemma_count_tile_bounds(t, Tile::Unsure);
        lemma_propagate_sound(t, s, n, cols, rows);
    }
}

/// Some legal layout with at least two ground cells completes the
/// board.
pub open spec fn solvable(b: Seq<Tile>, n: int, cols: Seq<usize>, rows: Seq<usize>) -> bool {
    exists|s: Seq<Tile>|
        #[trigger] resolution_of(b, s) && legal_board(s, n, cols, rows) && count_tile(
            s,
            Tile::Ground,
        ) >= 2
}

/// Law: the propagator never turns a solvable board into an unsolvable
/// one; every completion it could reach before, it can still reach.
pub proof fn lemma_propagate_keeps_solvable(b: Seq<Tile>, n: int, cols: Seq<usize>, rows: Seq<usize>)
    requires
        1 <= n <= 8,
        b.len() == n * n,
        cols.len() == n,
        rows.len() == n,
        solvable(b, n, cols, rows),
    ensures
        solvable(spec_propagate(b, n, cols, rows), n, cols, rows),
{
    let s = choose|s: Seq<Tile>|
        #[trigger] resolution_of(b, s) && legal_board(s, n, cols, rows) && count_tile(
            s,
            Tile::Ground,
        ) >= 2;
    lemma_propagate_sound(b, s, n, cols, rows);
}


// ---------------------------------------------------------------------
// Completeness groundwork: the validator along resolutions.
// ---------------------------------------------------------------------

/// A fully determined board that the validator accepts and that holds
/// at least two ground cells: what the search is owed to find. The
/// two-ground proviso matches the soundness law: a layout whose whole
/// floor is a single cell can be overcommitted by ground saturation.
pub open spec fn full_solution(f: Seq<Tile>, n: int, cols: Seq<usize>, rows: Seq<usize>) -> bool {
    &&& f.len() == n * n
    &&& count_tile(f, Tile::Unsure) == 0
    &&& spec_feasible(f, n, cols, rows)
    &&& count_tile(f, Tile::Ground) >= 2
}

/// A board that resolves to a fully determined one while having no
/// undetermined cell of its own is that board.
pub proof fn lemma_resolution_complete_eq(m: Seq<Tile>, f: Seq<Tile>)
    requires
        resolution_of(m, f),
        count_tile(m, Tile::Unsure) == 0,
    ensures
        m == f,
{
    lemma_count_tile_zero(m, Tile::Unsure);
    assert(m =~= f);
}

/// Law: the validator is monotone along resolutions. A board that some
/// full solution still resolves passes every pruning check, so the
/// search never prunes a branch that leads to a full solution.
pub proof fn lemma_feasible_resolution_back(
    c: Seq<Tile>,
    f: Seq<Tile>,
    n: int,
    cols: Seq<usize>,
    rows: Seq<usize>,
)
    requires
        1 <= n <= 8,
        c.len() == n * n,
        cols.len() == n,
        rows.len() == n,
        resolution_of(c, f),
        full_solution(f, n, cols, rows),
    ensures
        spec_feasible(c, n, cols, rows),
{
    lemma_count_tile_zero(f, Tile::Unsure);

    // no open two-by-two ground block without a chest: ground and
    // chest cells of the partial board persist into the solution
    assert forall|x: int, y: int| #[trigger] crate::validate::open_square_at(c, n, x, y) implies
        crate::validate::chest_in_ring(c, n, x, y) by {
        lemma_flat_bounds(n, x, y);
        lemma_flat_bounds(n, x + 1, y);
        lemma_flat_bounds(n, x, y + 1);
        lemma_flat_bounds(n, x + 1, y + 1);
        assert(crate::validate::open_square_at(f, n, x, y));
        assert(crate::validate::chest_in_ring(f, n, x, y));
        let (cx, cy) = choose|cx: int, cy: int|
            #[trigger] is_tile_at(f, n, cx, cy, Tile::Chest) && x - 1 <= cx <= x + 2 && y - 1 <= cy
                <= y + 2 && (cx == x - 1 || cx == x + 2 || cy == y - 1 || cy == y + 2);
        lemma_flat_bounds(n, cx, cy);
        assert(is_tile_at(c, n, cx, cy, Tile::Chest));
    }

    // every chest keeps a possible room: take the solution's placement
    assert forall|cx: int, cy: int| #[trigger] is_tile_at(c, n, cx, cy, Tile::Chest) implies
        room_possible(c, n, cx, cy) by {
        lemma_flat_bounds(n, cx, cy);
        assert(is_tile_at(f, n, cx, cy, Tile::Chest));
        assert(room_possible(f, n, cx, cy));
        let (lx, ly) = choose|lx: int, ly: int|
            cx - 2 <= lx <= cx && cy - 2 <= ly <= cy && #[trigger] room_interior_ok(f, n, lx, ly)
                && room_perimeter_ok(f, n, lx, ly) && room_entrance_possible(f, n, lx, ly);
        assert forall|ax: int, ay: int| lx <= ax < lx + 3 && ly <= ay < ly + 3 implies in_grid(
            n,
            ax,
            ay,
        ) && #[trigger] at(c, n, ax, ay) != Tile::Monster && at(c, n, ax, ay) != Tile::Wall by {
            assert(in_grid(n, ax, ay) && at(f, n, ax, ay) != Tile::Monster && at(f, n, ax, ay)
                != Tile::Wall);
            lemma_flat_bounds(n, ax, ay);
        }
        assert forall|ax: int, ay: int|
            ring_pos(lx, ly, ax, ay) && in_grid(n, ax, ay) implies #[trigger] at(c, n, ax, ay)
            != Tile::Monster && at(c, n, ax, ay) != Tile::Chest by {
            lemma_flat_bounds(n, ax, ay);
            assert(at(f, n, ax, ay) != Tile::Monster && at(f, n, ax, ay) != Tile::Chest);
        }
        let (ex, ey) = choose|ax: int, ay: int|
            ring_pos(lx, ly, ax, ay) && in_grid(n, ax, ay) && (#[trigger] at(f, n, ax, ay)
                == Tile::Ground || at(f, n, ax, ay) == Tile::Unsure);
        lemma_flat_bounds(n, ex, ey);
        assert(at(c, n, ex, ey) == Tile::Ground || at(c, n, ex, ey) == Tile::Unsure);
        assert(room_entrance_possible(c, n, lx, ly));
        assert(room_interior_ok(c, n, lx, ly) && room_perimeter_ok(c, n, lx, ly));
    }

    // monster exits: ground neighbours only shrink toward the
    // solution's single exit, and that exit stays possibly ground
    assert forall|x: int, y: int| #[trigger] is_tile_at(c, n, x, y, Tile::Monster) implies
        tile_nbrs(c, n, x, y, Tile::Ground) <= 1 && passable_nbrs(c, n, x, y) >= 1 by {
        lemma_flat_bounds(n, x, y);
        assert(is_tile_at(f, n, x, y, Tile::Monster));
        lemma_res_nbr_facts(c, f, n, x - 1, y);
        lemma_res_nbr_facts(c, f, n, x + 1, y);
        lemma_res_nbr_facts(c, f, n, x, y - 1);
        lemma_res_nbr_facts(c, f, n, x, y + 1);
    }

    // dead ends: a dead end of the partial board is a dead end of the
    // solution, or an isolated ground cell, which connectivity forbids
    assert forall|x: int, y: int|
        #[trigger] is_tile_at(c, n, x, y, Tile::Ground) && passable_nbrs(c, n, x, y) == 1 implies
        tile_nbrs(c, n, x, y, Tile::Monster) >= 1 by {
        lemma_flat_bounds(n, x, y);
        assert(is_tile_at(f, n, x, y, Tile::Ground));
        lemma_res_nbr_facts(c, f, n, x - 1, y);
        lemma_res_nbr_facts(c, f, n, x + 1, y);
        lemma_res_nbr_facts(c, f, n, x, y - 1);
        lemma_res_nbr_facts(c, f, n, x, y + 1);
        assert(passable_nbrs(f, n, x, y) <= 1);
        if passable_nbrs(f, n, x, y) == 1 {
            assert(tile_nbrs(f, n, x, y, Tile::Monster) >= 1);
        } else {
            lemma_isolated_ground(f, n, x, y);
        }
    }

    // clue bounds: the solution meets each clue exactly, and its walls
    // bracket the partial board's walls and undetermined cells
    assert forall|y: int| 0 <= y < n implies #[trigger] count_in_row(c, n, y, Tile::Wall)
        <= rows[y] && rows[y] <= count_in_row(c, n, y, Tile::Wall) + count_in_row(
        c,
        n,
        y,
        Tile::Unsure,
    ) by {
        let fr = row_seq(f, n, y);
        assert forall|j: int| 0 <= j < fr.len() implies fr[j] != Tile::Unsure by {
            lemma_flat_bounds(n, j, y);
        }
        lemma_count_of_absent(fr, Tile::Unsure);
        assert(count_in_row(f, n, y, Tile::Wall) == rows[y]);
        lemma_res_row(c, f, n, y);
        lemma_res_wall_bounds(row_seq(c, n, y), fr);
    }
    assert forall|x: int| 0 <= x < n implies #[trigger] count_in_col(c, n, x, Tile::Wall)
        <= cols[x] && cols[x] <= count_in_col(c, n, x, Tile::Wall) + count_in_col(
        c,
        n,
        x,
        Tile::Unsure,
    ) by {
        let fc = col_seq(f, n, x);
        assert forall|j: int| 0 <= j < fc.len() implies fc[j] != Tile::Unsure by {
            lemma_flat_bounds(n, x, j);
        }
        lemma_count_of_absent(fc, Tile::Unsure);
        assert(count_in_col(f, n, x, Tile::Wall) == cols[x]);
        lemma_res_col(c, f, n, x);
        lemma_res_wall_bounds(col_seq(c, n, x), fc);
    }

    // connectivity: the solution's ground walks stay passable
    assert forall|x1: int, y1: int, x2: int, y2: int|
        #[trigger] is_tile_at(c, n, x1, y1, Tile::Ground) && #[trigger] is_tile_at(
            c,
            n,
            x2,
            y2,
            Tile::Ground,
        ) implies reach(c, n, x1, y1, x2, y2) by {
        lemma_flat_bounds(n, x1, y1);
        lemma_flat_bounds(n, x2, y2);
        assert(is_tile_at(f, n, x1, y1, Tile::Ground));
        assert(is_tile_at(f, n, x2, y2, Tile::Ground));
        assert(reach(f, n, x1, y1, x2, y2));
        let p = choose|p: Seq<(int, int)>|
            #[trigger] passable_path(f, n, p) && p.first() == (x1, y1) && p.last() == (x2, y2);
        assert forall|k: int| 0 <= k < p.len() implies is_passable(c, n, #[trigger] p[k].0, p[k].1)
        by {
            lemma_res_nbr_facts(c, f, n, p[k].0, p[k].1);
        }
        assert(passable_path(c, n, p));
    }
}

/// Along a resolution, a ground or passable cell of the partial board
/// maps forward, a passable cell of the full board maps backward, and
/// monsters and chests sit in the same cells.
proof fn lemma_res_nbr_facts(c: Seq<Tile>, f: Seq<Tile>, n: int, x: int, y: int)
    requires
        1 <= n <= 8,
        c.len() == n * n,
        resolution_of(c, f),
        forall|i: int| 0 <= i < f.len() ==> f[i] != Tile::Unsure,
    ensures
        is_tile_at(c, n, x, y, Tile::Ground) ==> is_tile_at(f, n, x, y, Tile::Ground),
        is_passable(f, n, x, y) ==> is_passable(c, n, x, y),
        is_tile_at(f, n, x, y, Tile::Monster) == is_tile_at(c, n, x, y, Tile::Monster),
        is_tile_at(f, n, x, y, Tile::Chest) == is_tile_at(c, n, x, y, Tile::Chest),
{
    if in_grid(n, x, y) {
        lemma_flat_bounds(n, x, y);
    }
}

/// One propagation pass keeps every full solution reachable.
pub proof fn lemma_pass_keeps_solution(
    c: Seq<Tile>,
    f: Seq<Tile>,
    n: int,
    cols: Seq<usize>,
    rows: Seq<usize>,
)
    requires
        1 <= n <= 8,
        c.len() == n * n,
        cols.len() == n,
        rows.len() == n,
        resolution_of(c, f),
        full_solution(f, n, cols, rows),
    ensures
        resolution_of(pass_once(c, n, cols, rows), f),
{
    lemma_solved_board_properties(f, n, cols, rows);
    lemma_pass_once_sound(c, f, n, cols, rows);
}

} // verus!
