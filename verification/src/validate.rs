//! The validator: global feasibility predicates on a partially unknown
//! board, used to prune impossible branches. It makes no changes; it
//! only reports whether a board can still be completed.
//!
//! The checks, in their fixed order: no open two-by-two ground block
//! without a chest nearby, a possible room placement for every chest, a
//! possible single exit for every monster, monster-guarded dead ends,
//! wall clues still satisfiable, and all confirmed ground still
//! connectable.
//!
//! The room check demands at least one feasible entrance; it does not
//! exclude a second one. That residual incompleteness of the rule set
//! is deliberate and kept: a fully determined accepted board is
//! guaranteed a room with at least one ground entrance, not exactly
//! one.

use vstd::prelude::*;

verus! {

use crate::board::{
    Board,
    Tile,
    in_grid,
    at,
    is_tile_at,
    count_in_row,
    count_in_col,
    clues_fit,
    tile_nbrs,
    passable_nbrs,
};
use crate::connect::grounds_connected;
use crate::connect::grounds_connected_check;

// ---------------------------------------------------------------------
// No open two-by-two ground block.
// ---------------------------------------------------------------------

/// A two-by-two block of confirmed ground with its top-left at `(x, y)`.
pub open spec fn open_square_at(s: Seq<Tile>, n: int, x: int, y: int) -> bool {
    &&& is_tile_at(s, n, x, y, Tile::Ground)
    &&& is_tile_at(s, n, x + 1, y, Tile::Ground)
    &&& is_tile_at(s, n, x, y + 1, Tile::Ground)
    &&& is_tile_at(s, n, x + 1, y + 1, Tile::Ground)
}

/// A chest sits on the four-by-four ring around the two-by-two block at
/// `(x, y)`.
pub open spec fn chest_in_ring(s: Seq<Tile>, n: int, x: int, y: int) -> bool {
    exists|cx: int, cy: int|
        #[trigger] is_tile_at(s, n, cx, cy, Tile::Chest) && x - 1 <= cx <= x + 2 && y - 1 <= cy <= y
            + 2 && (cx == x - 1 || cx == x + 2 || cy == y - 1 || cy == y + 2)
}

/// Open floor is only legal inside a treasure room: every two-by-two
/// ground block has a chest on the ring around it.
pub open spec fn no_open_squares(s: Seq<Tile>, n: int) -> bool {
    forall|x: int, y: int| #[trigger] open_square_at(s, n, x, y) ==> chest_in_ring(s, n, x, y)
}

fn chest_in_ring_check(b: &Board, x: usize, y: usize) -> (r: bool)
    requires
        b.wf(),
        x < b.dim(),
        y < b.dim(),
    ensures
        r == chest_in_ring(b@, b.dim() as int, x as int, y as int),
{
    let xi = x as i64;
    let yi = y as i64;
    let r = b.tile_at_is(xi - 1, yi - 1, Tile::Chest) || b.tile_at_is(xi, yi - 1, Tile::Chest)
        || b.tile_at_is(xi + 1, yi - 1, Tile::Chest) || b.tile_at_is(xi + 2, yi - 1, Tile::Chest)
        || b.tile_at_is(xi - 1, yi, Tile::Chest) || b.tile_at_is(xi + 2, yi, Tile::Chest)
        || b.tile_at_is(xi - 1, yi + 1, Tile::Chest) || b.tile_at_is(xi + 2, yi + 1, Tile::Chest)
        || b.tile_at_is(xi - 1, yi + 2, Tile::Chest) || b.tile_at_is(xi, yi + 2, Tile::Chest)
        || b.tile_at_is(xi + 1, yi + 2, Tile::Chest) || b.tile_at_is(xi + 2, yi + 2, Tile::Chest);
    proof {
        if !r {
            assert forall|cx: int, cy: int|
                !(#[trigger] is_tile_at(b@, b.dim() as int, cx, cy, Tile::Chest) && x - 1 <= cx <= x
                    + 2 && y - 1 <= cy <= y + 2 && (cx == x - 1 || cx == x + 2 || cy == y - 1 || cy
                    == y + 2)) by {}
        }
    }
    r
}

/// Checks that no two-by-two ground block lacks a nearby chest.
pub fn no_open_squares_check(b: &Board) -> (r: bool)
    requires
        b.wf(),
    ensures
        r == no_open_squares(b@, b.dim() as int),
{
    let n = b.side();
    let ghost nn = b.dim() as int;
    let mut y: usize = 0;
    while y < n
        invariant
            b.wf(),
            n == b.dim(),
            nn == n as int,
            y <= n,
            forall|xx: int, yy: int|
                0 <= yy < y && #[trigger] open_square_at(b@, nn, xx, yy) ==> chest_in_ring(
                    b@,
                    nn,
                    xx,
                    yy,
                ),
        decreases n - y,
    {
        let mut x: usize = 0;
        while x < n
            invariant
                b.wf(),
                n == b.dim(),
                nn == n as int,
                y < n,
                x <= n,
                forall|xx: int, yy: int|
                    0 <= yy < y && #[trigger] open_square_at(b@, nn, xx, yy) ==> chest_in_ring(
                        b@,
                        nn,
                        xx,
                        yy,
                    ),
                forall|xx: int|
                    0 <= xx < x && #[trigger] open_square_at(b@, nn, xx, y as int)
                        ==> chest_in_ring(b@, nn, xx, y as int),
        decreases n - x,
        {
            let xi = x as i64;
            let yi = y as i64;
            let sq = b.tile_at_is(xi, yi, Tile::Ground) && b.tile_at_is(xi + 1, yi, Tile::Ground)
                && b.tile_at_is(xi, yi + 1, Tile::Ground) && b.tile_at_is(
                xi + 1,
                yi + 1,
                Tile::Ground,
            );
            if sq {
                if !chest_in_ring_check(b, x, y) {
                    proof {
                        assert(open_square_at(b@, nn, x as int, y as int));
                        assert(!no_open_squares(b@, nn));
                    }
                    return false;
                }
            }
            x = x + 1;
        }
        y = y + 1;
    }
    proof {
        assert forall|x: int, y2: int| #[trigger] open_square_at(b@, nn, x, y2) implies
            chest_in_ring(b@, nn, x, y2) by {
            assert(in_grid(nn, x, y2));
        }
    }
    true
}

// ---------------------------------------------------------------------
// A possible room placement for every chest.
// ---------------------------------------------------------------------

/// The three-by-three interior with top-left `(lx, ly)` lies in the
/// grid and holds no monster and no wall.
pub open spec fn room_interior_ok(s: Seq<Tile>, n: int, lx: int, ly: int) -> bool {
    forall|ax: int, ay: int|
        lx <= ax < lx + 3 && ly <= ay < ly + 3 ==> in_grid(n, ax, ay) && #[trigger] at(s, n, ax, ay)
            != Tile::Monster && at(s, n, ax, ay) != Tile::Wall
}

/// A non-corner cell of the five-by-five ring around the interior whose
/// top-left is `(lx, ly)`.
pub open spec fn ring_pos(lx: int, ly: int, ax: int, ay: int) -> bool {
    &&& lx - 1 <= ax <= lx + 3 && ly - 1 <= ay <= ly + 3
    &&& (ax == lx - 1 || ax == lx + 3 || ay == ly - 1 || ay == ly + 3)
    &&& !((ax == lx - 1 || ax == lx + 3) && (ay == ly - 1 || ay == ly + 3))
}

/// No monster and no chest sits on a non-corner ring cell.
pub open spec fn room_perimeter_ok(s: Seq<Tile>, n: int, lx: int, ly: int) -> bool {
    forall|ax: int, ay: int|
        ring_pos(lx, ly, ax, ay) && in_grid(n, ax, ay) ==> #[trigger] at(s, n, ax, ay)
            != Tile::Monster && at(s, n, ax, ay) != Tile::Chest
}

/// Some non-corner ring cell can still be the room's entrance.
pub open spec fn room_entrance_possible(s: Seq<Tile>, n: int, lx: int, ly: int) -> bool {
    exists|ax: int, ay: int|
        ring_pos(lx, ly, ax, ay) && in_grid(n, ax, ay) && (#[trigger] at(s, n, ax, ay)
            == Tile::Ground || at(s, n, ax, ay) == Tile::Unsure)
}

/// Some placement of a three-by-three room interior containing the
/// chest at `(cx, cy)` is still possible.
pub open spec fn room_possible(s: Seq<Tile>, n: int, cx: int, cy: int) -> bool {
    exists|lx: int, ly: int|
        cx - 2 <= lx <= cx && cy - 2 <= ly <= cy && #[trigger] room_interior_ok(s, n, lx, ly)
            && room_perimeter_ok(s, n, lx, ly) && room_entrance_possible(s, n, lx, ly)
}

/// Every chest still has a possible room placement.
pub open spec fn chests_ok(s: Seq<Tile>, n: int) -> bool {
    forall|cx: int, cy: int|
        #[trigger] is_tile_at(s, n, cx, cy, Tile::Chest) ==> room_possible(s, n, cx, cy)
}

fn room_interior_ok_check(b: &Board, lx: i64, ly: i64) -> (r: bool)
    requires
        b.wf(),
        -8 <= lx <= 8,
        -8 <= ly <= 8,
    ensures
        r == room_interior_ok(b@, b.dim() as int, lx as int, ly as int),
{
    let n = b.side() as i64;
    let ghost nn = b.dim() as int;
    let mut j: i64 = 0;
    while j < 3
        invariant
            b.wf(),
            nn == b.dim() as int,
            n == nn,
            -8 <= lx <= 8,
            -8 <= ly <= 8,
            0 <= j <= 3,
            forall|ax: int, ay: int|
                lx <= ax < lx + 3 && ly <= ay < ly + j ==> in_grid(nn, ax, ay) && #[trigger] at(
                    b@,
                    nn,
                    ax,
                    ay,
                ) != Tile::Monster && at(b@, nn, ax, ay) != Tile::Wall,
        decreases 3 - j,
    {
        let mut i: i64 = 0;
        while i < 3
            invariant
                b.wf(),
                nn == b.dim() as int,
                n == nn,
                -8 <= lx <= 8,
                -8 <= ly <= 8,
                0 <= j < 3,
                0 <= i <= 3,
                forall|ax: int, ay: int|
                    lx <= ax < lx + 3 && ly <= ay < ly + j ==> in_grid(nn, ax, ay) && #[trigger] at(
                        b@,
                        nn,
                        ax,
                        ay,
                    ) != Tile::Monster && at(b@, nn, ax, ay) != Tile::Wall,
                forall|ax: int|
                    lx <= ax < lx + i ==> in_grid(nn, ax, ly + j) && #[trigger] at(
                        b@,
                        nn,
                        ax,
                        ly + j,
                    ) != Tile::Monster && at(b@, nn, ax, ly + j) != Tile::Wall,
            decreases 3 - i,
        {
            let ax = lx + i;
            let ay = ly + j;
            if ax < 0 || ay < 0 || ax >= n || ay >= n {
                proof {
                    assert(!(in_grid(nn, ax as int, ay as int) && at(b@, nn, ax as int, ay as int)
                        != Tile::Monster && at(b@, nn, ax as int, ay as int) != Tile::Wall));
                    assert(!room_interior_ok(b@, nn, lx as int, ly as int));
                }
                return false;
            }
            let t = b.get(ax as usize, ay as usize);
            if t == Tile::Monster || t == Tile::Wall {
                proof {
                    assert(!(in_grid(nn, ax as int, ay as int) && at(b@, nn, ax as int, ay as int)
                        != Tile::Monster && at(b@, nn, ax as int, ay as int) != Tile::Wall));
                    assert(!room_interior_ok(b@, nn, lx as int, ly as int));
                }
                return false;
            }
            i = i + 1;
        }
        j = j + 1;
    }
    true
}

fn room_perimeter_ok_check(b: &Board, lx: i64, ly: i64) -> (r: bool)
    requires
        b.wf(),
        -8 <= lx <= 8,
        -8 <= ly <= 8,
    ensures
        r == room_perimeter_ok(b@, b.dim() as int, lx as int, ly as int),
{
    let ghost nn = b.dim() as int;
    let mut j: i64 = 0;
    while j < 5
        invariant
            b.wf(),
            nn == b.dim() as int,
            -8 <= lx <= 8,
            -8 <= ly <= 8,
            0 <= j <= 5,
            forall|ax: int, ay: int|
                ring_pos(lx as int, ly as int, ax, ay) && in_grid(nn, ax, ay) && ay < ly - 1 + j
                    ==> #[trigger] at(b@, nn, ax, ay) != Tile::Monster && at(b@, nn, ax, ay)
                    != Tile::Chest,
        decreases 5 - j,
    {
        let mut i: i64 = 0;
        while i < 5
            invariant
                b.wf(),
                nn == b.dim() as int,
                -8 <= lx <= 8,
                -8 <= ly <= 8,
                0 <= j < 5,
                0 <= i <= 5,
                forall|ax: int, ay: int|
                    ring_pos(lx as int, ly as int, ax, ay) && in_grid(nn, ax, ay) && ay < ly - 1 + j
                        ==> #[trigger] at(b@, nn, ax, ay) != Tile::Monster && at(b@, nn, ax, ay)
                        != Tile::Chest,
                forall|ax: int|
                    ring_pos(lx as int, ly as int, ax, ly - 1 + j) && in_grid(nn, ax, ly - 1 + j)
                        && ax < lx - 1 + i ==> #[trigger] at(b@, nn, ax, ly - 1 + j)
                        != Tile::Monster && at(b@, nn, ax, ly - 1 + j) != Tile::Chest,
            decreases 5 - i,
        {
            let ax = lx - 1 + i;
            let ay = ly - 1 + j;
            let edge = i == 0 || i == 4 || j == 0 || j == 4;
            let corner = (i == 0 || i == 4) && (j == 0 || j == 4);
            if edge && !corner {
                if b.tile_at_is(ax, ay, Tile::Monster) || b.tile_at_is(ax, ay, Tile::Chest) {
                    proof {
                        assert(ring_pos(lx as int, ly as int, ax as int, ay as int));
                        assert(!(at(b@, nn, ax as int, ay as int) != Tile::Monster && at(
                            b@,
                            nn,
                            ax as int,
                            ay as int,
                        ) != Tile::Chest));
                        assert(!room_perimeter_ok(b@, nn, lx as int, ly as int));
                    }
                    return false;
                }
            }
            i = i + 1;
        }
        j = j + 1;
    }
    true
}

fn room_entrance_possible_check(b: &Board, lx: i64, ly: i64) -> (r: bool)
    requires
        b.wf(),
        -8 <= lx <= 8,
        -8 <= ly <= 8,
    ensures
        r == room_entrance_possible(b@, b.dim() as int, lx as int, ly as int),
{
    let ghost nn = b.dim() as int;
    let mut j: i64 = 0;
    while j < 5
        invariant
            b.wf(),
            nn == b.dim() as int,
            -8 <= lx <= 8,
            -8 <= ly <= 8,
            0 <= j <= 5,
            forall|ax: int, ay: int|
                ring_pos(lx as int, ly as int, ax, ay) && in_grid(nn, ax, ay) && ay < ly - 1 + j
                    ==> !(#[trigger] at(b@, nn, ax, ay) == Tile::Ground || at(b@, nn, ax, ay)
                    == Tile::Unsure),
        decreases 5 - j,
    {
        let mut i: i64 = 0;
        while i < 5
            invariant
                b.wf(),
                nn == b.dim() as int,
                -8 <= lx <= 8,
                -8 <= ly <= 8,
                0 <= j < 5,
                0 <= i <= 5,
                forall|ax: int, ay: int|
                    ring_pos(lx as int, ly as int, ax, ay) && in_grid(nn, ax, ay) && ay < ly - 1 + j
                        ==> !(#[trigger] at(b@, nn, ax, ay) == Tile::Ground || at(b@, nn, ax, ay)
                        == Tile::Unsure),
                forall|ax: int|
                    ring_pos(lx as int, ly as int, ax, ly - 1 + j) && in_grid(nn, ax, ly - 1 + j)
                        && ax < lx - 1 + i ==> !(#[trigger] at(b@, nn, ax, ly - 1 + j)
                        == Tile::Ground || at(b@, nn, ax, ly - 1 + j) == Tile::Unsure),
            decreases 5 - i,
        {
            let ax = lx - 1 + i;
            let ay = ly - 1 + j;
            let edge = i == 0 || i == 4 || j == 0 || j == 4;
            let corner = (i == 0 || i == 4) && (j == 0 || j == 4);
            if edge && !corner {
                if b.tile_at_is(ax, ay, Tile::Ground) || b.tile_at_is(ax, ay, Tile::Unsure) {
                    proof {
                        assert(ring_pos(lx as int, ly as int, ax as int, ay as int));
                    }
                    return true;
                }
            }
            i = i + 1;
        }
        j = j + 1;
    }
    proof {
        assert forall|ax: int, ay: int|
            !(ring_pos(lx as int, ly as int, ax, ay) && in_grid(nn, ax, ay) && (#[trigger] at(
                b@,
                nn,
                ax,
                ay,
            ) == Tile::Ground || at(b@, nn, ax, ay) == Tile::Unsure)) by {}
    }
    false
}

/// Checks whether some room placement for the chest at `(cx, cy)` is
/// still possible.
pub fn room_possible_check(b: &Board, cx: usize, cy: usize) -> (r: bool)
    requires
        b.wf(),
        cx < b.dim(),
        cy < b.dim(),
    ensures
        r == room_possible(b@, b.dim() as int, cx as int, cy as int),
{
    let ghost nn = b.dim() as int;
    let mut dx: i64 = 0;
    while dx < 3
        invariant
            b.wf(),
            nn == b.dim() as int,
            cx < b.dim(),
            cy < b.dim(),
            0 <= dx <= 3,
            forall|lx: int, ly: int|
                cx - dx < lx <= cx && cy - 2 <= ly <= cy ==> !(#[trigger] room_interior_ok(
                    b@,
                    nn,
                    lx,
                    ly,
                ) && room_perimeter_ok(b@, nn, lx, ly) && room_entrance_possible(b@, nn, lx, ly)),
        decreases 3 - dx,
    {
        let mut dy: i64 = 0;
        while dy < 3
            invariant
                b.wf(),
                nn == b.dim() as int,
                cx < b.dim(),
                cy < b.dim(),
                0 <= dx < 3,
                0 <= dy <= 3,
                forall|lx: int, ly: int|
                    cx - dx < lx <= cx && cy - 2 <= ly <= cy ==> !(#[trigger] room_interior_ok(
                        b@,
                        nn,
                        lx,
                        ly,
                    ) && room_perimeter_ok(b@, nn, lx, ly) && room_entrance_possible(
                        b@,
                        nn,
                        lx,
                        ly,
                    )),
                forall|ly: int|
                    cy - dy < ly <= cy ==> !(#[trigger] room_interior_ok(
                        b@,
                        nn,
                        cx - dx,
                        ly,
                    ) && room_perimeter_ok(b@, nn, cx - dx, ly) && room_entrance_possible(
                        b@,
                        nn,
                        cx - dx,
                        ly,
                    )),
            decreases 3 - dy,
        {
            let lx = cx as i64 - dx;
            let ly = cy as i64 - dy;
            if room_interior_ok_check(b, lx, ly) && room_perimeter_ok_check(b, lx, ly)
                && room_entrance_possible_check(b, lx, ly) {
                return true;
            }
            dy = dy + 1;
        }
        dx = dx + 1;
    }
    false
}

/// Checks that every chest still has a possible room placement.
pub fn chests_ok_check(b: &Board) -> (r: bool)
    requires
        b.wf(),
    ensures
        r == chests_ok(b@, b.dim() as int),
{
    let n = b.side();
    let ghost nn = b.dim() as int;
    let mut y: usize = 0;
    while y < n
        invariant
            b.wf(),
            n == b.dim(),
            nn == n as int,
            y <= n,
            forall|cx: int, cy: int|
                0 <= cy < y && #[trigger] is_tile_at(b@, nn, cx, cy, Tile::Chest) ==> room_possible(
                    b@,
                    nn,
                    cx,
                    cy,
                ),
        decreases n - y,
    {
        let mut x: usize = 0;
        while x < n
            invariant
                b.wf(),
                n == b.dim(),
                nn == n as int,
                y < n,
                x <= n,
                forall|cx: int, cy: int|
                    0 <= cy < y && #[trigger] is_tile_at(b@, nn, cx, cy, Tile::Chest)
                        ==> room_possible(b@, nn, cx, cy),
                forall|cx: int|
                    0 <= cx < x && #[trigger] is_tile_at(b@, nn, cx, y as int, Tile::Chest)
                        ==> room_possible(b@, nn, cx, y as int),
            decreases n - x,
        {
            if b.get(x, y) == Tile::Chest {
                if !room_possible_check(b, x, y) {
                    proof {
                        assert(is_tile_at(b@, nn, x as int, y as int, Tile::Chest));
                        assert(!chests_ok(b@, nn));
                    }
                    return false;
                }
            }
            x = x + 1;
        }
        y = y + 1;
    }
    proof {
        assert forall|cx: int, cy: int| #[trigger] is_tile_at(b@, nn, cx, cy, Tile::Chest) implies
            room_possible(b@, nn, cx, cy) by {
            assert(in_grid(nn, cx, cy));
        }
    }
    true
}

// ---------------------------------------------------------------------
// Monster exits and dead ends.
// ---------------------------------------------------------------------

/// Every monster has at most one confirmed ground neighbour, and at
/// least one neighbour that may still be ground.
pub open spec fn monsters_ok(s: Seq<Tile>, n: int) -> bool {
    forall|x: int, y: int|
        #[trigger] is_tile_at(s, n, x, y, Tile::Monster) ==> tile_nbrs(s, n, x, y, Tile::Ground)
            <= 1 && passable_nbrs(s, n, x, y) >= 1
}

/// Every confirmed ground cell with exactly one possibly-ground
/// neighbour (a dead end) has a monster beside it.
pub open spec fn dead_ends_ok(s: Seq<Tile>, n: int) -> bool {
    forall|x: int, y: int|
        #[trigger] is_tile_at(s, n, x, y, Tile::Ground) && passable_nbrs(s, n, x, y) == 1
            ==> tile_nbrs(s, n, x, y, Tile::Monster) >= 1
}

/// Checks the monster exit bound.
pub fn monsters_ok_check(b: &Board) -> (r: bool)
    requires
        b.wf(),
    ensures
        r == monsters_ok(b@, b.dim() as int),
{
    let n = b.side();
    let ghost nn = b.dim() as int;
    let mut y: usize = 0;
    while y < n
        invariant
            b.wf(),
            n == b.dim(),
            nn == n as int,
            y <= n,
            forall|xx: int, yy: int|
                0 <= yy < y && #[trigger] is_tile_at(b@, nn, xx, yy, Tile::Monster) ==> tile_nbrs(
                    b@,
                    nn,
                    xx,
                    yy,
                    Tile::Ground,
                ) <= 1 && passable_nbrs(b@, nn, xx, yy) >= 1,
        decreases n - y,
    {
        let mut x: usize = 0;
        while x < n
            invariant
                b.wf(),
                n == b.dim(),
                nn == n as int,
                y < n,
                x <= n,
                forall|xx: int, yy: int|
                    0 <= yy < y && #[trigger] is_tile_at(b@, nn, xx, yy, Tile::Monster)
                        ==> tile_nbrs(b@, nn, xx, yy, Tile::Ground) <= 1 && passable_nbrs(
                        b@,
                        nn,
                        xx,
                        yy,
                    ) >= 1,
                forall|xx: int|
                    0 <= xx < x && #[trigger] is_tile_at(b@, nn, xx, y as int, Tile::Monster)
                        ==> tile_nbrs(b@, nn, xx, y as int, Tile::Ground) <= 1 && passable_nbrs(
                        b@,
                        nn,
                        xx,
                        y as int,
                    ) >= 1,
            decreases n - x,
        {
            if b.get(x, y) == Tile::Monster {
                if b.count_tile_nbrs(x, y, Tile::Ground) > 1 {
                    proof {
                        assert(is_tile_at(b@, nn, x as int, y as int, Tile::Monster));
                        assert(!monsters_ok(b@, nn));
                    }
                    return false;
                }
                if b.count_passable_nbrs(x, y) == 0 {
                    proof {
                        assert(is_tile_at(b@, nn, x as int, y as int, Tile::Monster));
                        assert(!monsters_ok(b@, nn));
                    }
                    return false;
                }
            }
            x = x + 1;
        }
        y = y + 1;
    }
    proof {
        assert forall|x: int, y2: int| #[trigger] is_tile_at(b@, nn, x, y2, Tile::Monster) implies
            tile_nbrs(b@, nn, x, y2, Tile::Ground) <= 1 && passable_nbrs(b@, nn, x, y2) >= 1 by {
            assert(in_grid(nn, x, y2));
        }
    }
    true
}

/// Checks that dead ends are monster-guarded.
pub fn dead_ends_ok_check(b: &Board) -> (r: bool)
    requires
        b.wf(),
    ensures
        r == dead_ends_ok(b@, b.dim() as int),
{
    let n = b.side();
    let ghost nn = b.dim() as int;
    let mut y: usize = 0;
    while y < n
        invariant
            b.wf(),
            n == b.dim(),
            nn == n as int,
            y <= n,
            forall|xx: int, yy: int|
                0 <= yy < y && #[trigger] is_tile_at(b@, nn, xx, yy, Tile::Ground) && passable_nbrs(
                    b@,
                    nn,
                    xx,
                    yy,
                ) == 1 ==> tile_nbrs(b@, nn, xx, yy, Tile::Monster) >= 1,
        decreases n - y,
    {
        let mut x: usize = 0;
        while x < n
            invariant
                b.wf(),
                n == b.dim(),
                nn == n as int,
                y < n,
                x <= n,
                forall|xx: int, yy: int|
                    0 <= yy < y && #[trigger] is_tile_at(b@, nn, xx, yy, Tile::Ground)
                        && passable_nbrs(b@, nn, xx, yy) == 1 ==> tile_nbrs(
                        b@,
                        nn,
                        xx,
                        yy,
                        Tile::Monster,
                    ) >= 1,
                forall|xx: int|
                    0 <= xx < x && #[trigger] is_tile_at(b@, nn, xx, y as int, Tile::Ground)
                        && passable_nbrs(b@, nn, xx, y as int) == 1 ==> tile_nbrs(
                        b@,
                        nn,
                        xx,
                        y as int,
                        Tile::Monster,
                    ) >= 1,
            decreases n - x,
        {
            if b.get(x, y) == Tile::Ground {
                if b.count_passable_nbrs(x, y) == 1 && b.count_tile_nbrs(x, y, Tile::Monster) == 0 {
                    proof {
                        assert(is_tile_at(b@, nn, x as int, y as int, Tile::Ground));
                        assert(!dead_ends_ok(b@, nn));
                    }
                    return false;
                }
            }
            x = x + 1;
        }
        y = y + 1;
    }
    proof {
        assert forall|x: int, y2: int|
            #[trigger] is_tile_at(b@, nn, x, y2, Tile::Ground) && passable_nbrs(b@, nn, x, y2)
                == 1 implies tile_nbrs(b@, nn, x, y2, Tile::Monster) >= 1 by {
            assert(in_grid(nn, x, y2));
        }
    }
    true
}

// ---------------------------------------------------------------------
// Clue bounds.
// ---------------------------------------------------------------------

/// Every row and column can still meet its wall clue: confirmed walls
/// do not exceed it, and walls plus undetermined cells can still reach
/// it.
pub open spec fn clue_bounds_ok(s: Seq<Tile>, n: int, cols: Seq<usize>, rows: Seq<usize>) -> bool {
    &&& forall|y: int|
        0 <= y < n ==> #[trigger] count_in_row(s, n, y, Tile::Wall) <= rows[y] && rows[y]
            <= count_in_row(s, n, y, Tile::Wall) + count_in_row(s, n, y, Tile::Unsure)
    &&& forall|x: int|
        0 <= x < n ==> #[trigger] count_in_col(s, n, x, Tile::Wall) <= cols[x] && cols[x]
            <= count_in_col(s, n, x, Tile::Wall) + count_in_col(s, n, x, Tile::Unsure)
}

/// Checks the clue bounds for every row and column.
pub fn clue_bounds_check(b: &Board, nums_columns: &Vec<usize>, nums_rows: &Vec<usize>) -> (r: bool)
    requires
        b.wf(),
        clues_fit(nums_columns@, nums_rows@, b.dim()),
    ensures
        r == clue_bounds_ok(b@, b.dim() as int, nums_columns@, nums_rows@),
{
    let n = b.side();
    let ghost nn = b.dim() as int;
    let mut y: usize = 0;
    while y < n
        invariant
            b.wf(),
            n == b.dim(),
            nn == n as int,
            clues_fit(nums_columns@, nums_rows@, b.dim()),
            y <= n,
            forall|yy: int|
                0 <= yy < y ==> #[trigger] count_in_row(b@, nn, yy, Tile::Wall) <= nums_rows@[yy]
                    && nums_rows@[yy] <= count_in_row(b@, nn, yy, Tile::Wall) + count_in_row(
                    b@,
                    nn,
                    yy,
                    Tile::Unsure,
                ),
        decreases n - y,
    {
        let w = b.count_row(y, Tile::Wall);
        let u = b.count_row(y, Tile::Unsure);
        if w > nums_rows[y] {
            return false;
        }
        if w + u < nums_rows[y] {
            return false;
        }
        y = y + 1;
    }
    let mut x: usize = 0;
    while x < n
        invariant
            b.wf(),
            n == b.dim(),
            nn == n as int,
            clues_fit(nums_columns@, nums_rows@, b.dim()),
            x <= n,
            forall|yy: int|
                0 <= yy < n ==> #[trigger] count_in_row(b@, nn, yy, Tile::Wall) <= nums_rows@[yy]
                    && nums_rows@[yy] <= count_in_row(b@, nn, yy, Tile::Wall) + count_in_row(
                    b@,
                    nn,
                    yy,
                    Tile::Unsure,
                ),
            forall|xx: int|
                0 <= xx < x ==> #[trigger] count_in_col(b@, nn, xx, Tile::Wall) <= nums_columns@[xx]
                    && nums_columns@[xx] <= count_in_col(b@, nn, xx, Tile::Wall) + count_in_col(
                    b@,
                    nn,
                    xx,
                    Tile::Unsure,
                ),
        decreases n - x,
    {
        let w = b.count_col(x, Tile::Wall);
        let u = b.count_col(x, Tile::Unsure);
        if w > nums_columns[x] {
            return false;
        }
        if w + u < nums_columns[x] {
            return false;
        }
        x = x + 1;
    }
    true
}

// ---------------------------------------------------------------------
// The whole validator.
// ---------------------------------------------------------------------

/// A board is feasible when every pruning check passes: no open
/// two-by-two ground, a possible room for every chest, a possible
/// single exit for every monster, monster-guarded dead ends,
/// satisfiable clues, and connectable ground.
pub open spec fn spec_feasible(s: Seq<Tile>, n: int, cols: Seq<usize>, rows: Seq<usize>) -> bool {
    &&& no_open_squares(s, n)
    &&& chests_ok(s, n)
    &&& monsters_ok(s, n)
    &&& dead_ends_ok(s, n)
    &&& clue_bounds_ok(s, n, cols, rows)
    &&& grounds_connected(s, n)
}

/// The feasibility validator: reports whether the board can still be
/// completed, making no changes. Checks run in the fixed documented
/// order and all must pass.
pub fn is_possible(matrix: &Board, nums_columns: &Vec<usize>, nums_rows: &Vec<usize>) -> (r: bool)
    requires
        matrix.wf(),
        clues_fit(nums_columns@, nums_rows@, matrix.dim()),
    ensures
        r == spec_feasible(matrix@, matrix.dim() as int, nums_columns@, nums_rows@),
{
    no_open_squares_check(matrix) && chests_ok_check(matrix) && monsters_ok_check(matrix)
        && dead_ends_ok_check(matrix) && clue_bounds_check(matrix, nums_columns, nums_rows)
        && grounds_connected_check(matrix)
}

} // verus!
