//! The candidate generator: structured child boards to try from one
//! parent, in three priority tiers.
//!
//! Tier one: for each monster with an undetermined neighbour, one child
//! per such neighbour, opening that neighbour as the monster's exit and
//! walling the monster's other undetermined neighbours. Tier two: for
//! each chest and each plausible room placement, the filled room,
//! either with its predetermined entrance or once per possible
//! entrance. Tier three: for every undetermined cell, one child with it
//! ground and one with it wall.
//!
//! The emission order is fixed and deterministic: the tiers in the
//! order above, cells scanned row by row, directions left, right, up,
//! down. Every child only resolves undetermined cells of its parent.

use vstd::prelude::*;

verus! {

use crate::board::{
    Board,
    Tile,
    flat,
    in_grid,
    at,
    is_tile_at,
    collapse_of,
    lemma_flat_bounds,
    lemma_flat_coords,
};
use crate::connect::adjacent;
use crate::validate::{ring_pos, room_interior_ok, room_perimeter_ok};

/// Some emitted board has exactly the given cells.
pub open spec fn holds_board(rs: Seq<Board>, t: Seq<Tile>) -> bool {
    exists|k: int| 0 <= k < rs.len() && (#[trigger] rs[k])@ == t
}

pub proof fn lemma_holds_board_prefix(a: Seq<Board>, b: Seq<Board>, t: Seq<Tile>)
    requires
        a.is_prefix_of(b),
        holds_board(a, t),
    ensures
        holds_board(b, t),
{
    let k = choose|k: int| 0 <= k < a.len() && (#[trigger] a[k])@ == t;
    assert(b[k]@ == t);
}

pub proof fn lemma_holds_board_push(a: Seq<Board>, b: Board, t: Seq<Tile>)
    requires
        holds_board(a, t),
    ensures
        holds_board(a.push(b), t),
{
    let k = choose|k: int| 0 <= k < a.len() && (#[trigger] a[k])@ == t;
    assert(a.push(b)[k] == a[k]);
}

/// Every emitted child has one of the three tier shapes: a monster
/// collapse, a tier-two fill (plain or opened at one undetermined ring
/// cell of a plausible placement), or a single-cell collapse.
pub open spec fn tier_shaped(s: Seq<Tile>, n: int, c: Board) -> bool {
    ||| exists|mx: int, my: int, ex: int, ey: int|
        is_tile_at(s, n, mx, my, Tile::Monster) && is_tile_at(s, n, ex, ey, Tile::Unsure)
            && adjacent(mx, my, ex, ey) && c@ == #[trigger] monster_collapse(s, n, mx, my, ex, ey)
    ||| exists|lx: int, ly: int|
        #![trigger room_filled(s, n, lx, ly)]
        room_plausible(s, n, lx, ly) && ring_has_ground(s, n, lx, ly) && c@ == room_filled(
            s,
            n,
            lx,
            ly,
        )
    ||| exists|lx: int, ly: int, ex: int, ey: int|
        #![trigger room_filled(s, n, lx, ly), flat(n, ex, ey)]
        room_plausible(s, n, lx, ly) && !ring_has_ground(s, n, lx, ly) && ring_pos(lx, ly, ex, ey)
            && is_tile_at(s, n, ex, ey, Tile::Unsure) && c@ == room_filled(s, n, lx, ly).update(
            flat(n, ex, ey),
            Tile::Ground,
        )
    ||| exists|x: int, y: int|
        #![trigger flat(n, x, y)]
        is_tile_at(s, n, x, y, Tile::Unsure) && (c@ == s.update(flat(n, x, y), Tile::Ground) || c@
            == s.update(flat(n, x, y), Tile::Wall))
}

pub proof fn lemma_board_prefix_push(a: Seq<Board>, b: Board)
    ensures
        a.is_prefix_of(a.push(b)),
{
    assert(a =~= a.push(b).subrange(0, a.len() as int));
}

pub proof fn lemma_board_prefix_trans(a: Seq<Board>, b: Seq<Board>, c: Seq<Board>)
    requires
        a.is_prefix_of(b),
        b.is_prefix_of(c),
    ensures
        a.is_prefix_of(c),
{
    assert(a =~= c.subrange(0, a.len() as int));
}

/// The tier-one child for the monster at `(mx, my)` with chosen exit
/// `(ex, ey)`: the exit becomes ground, the monster's other
/// undetermined neighbours become walls.
pub open spec fn monster_collapse(s: Seq<Tile>, n: int, mx: int, my: int, ex: int, ey: int) -> Seq<
    Tile,
> {
    Seq::new(
        s.len(),
        |i: int|
            if i % n == ex && i / n == ey {
                Tile::Ground
            } else if adjacent(mx, my, i % n, i / n) && s[i] == Tile::Unsure {
                Tile::Wall
            } else {
                s[i]
            },
    )
}

/// The tier-two fill for the placement with interior top-left
/// `(lx, ly)`: interior undetermined cells become ground, non-corner
/// ring undetermined cells become walls, everything else is kept.
pub open spec fn room_filled(s: Seq<Tile>, n: int, lx: int, ly: int) -> Seq<Tile> {
    Seq::new(
        s.len(),
        |i: int|
            if s[i] == Tile::Unsure && lx <= i % n <= lx + 2 && ly <= i / n <= ly + 2 {
                Tile::Ground
            } else if s[i] == Tile::Unsure && ring_pos(lx, ly, i % n, i / n) {
                Tile::Wall
            } else {
                s[i]
            },
    )
}

/// At most one non-corner ring cell is already ground.
pub open spec fn at_most_one_ring_ground(s: Seq<Tile>, n: int, lx: int, ly: int) -> bool {
    forall|x1: int, y1: int, x2: int, y2: int|
        ring_pos(lx, ly, x1, y1) && ring_pos(lx, ly, x2, y2) && #[trigger] is_tile_at(
            s,
            n,
            x1,
            y1,
            Tile::Ground,
        ) && #[trigger] is_tile_at(s, n, x2, y2, Tile::Ground) ==> (x1 == x2 && y1 == y2)
}

/// A placement worth emitting in tier two: the interior lies in the
/// grid with no monster and no wall, the non-corner ring holds no chest
/// and no monster, and at most one ring cell is already ground.
pub open spec fn room_plausible(s: Seq<Tile>, n: int, lx: int, ly: int) -> bool {
    &&& room_interior_ok(s, n, lx, ly)
    &&& room_perimeter_ok(s, n, lx, ly)
    &&& at_most_one_ring_ground(s, n, lx, ly)
}

/// Some non-corner ring cell is already ground: the entrance is
/// predetermined.
pub open spec fn ring_has_ground(s: Seq<Tile>, n: int, lx: int, ly: int) -> bool {
    exists|ax: int, ay: int|
        ring_pos(lx, ly, ax, ay) && #[trigger] is_tile_at(s, n, ax, ay, Tile::Ground)
}

/// The tier-two children owed for one placement are among the emitted
/// boards: the plain fill when the entrance is predetermined, else one
/// opened fill per undetermined non-corner ring cell.
pub open spec fn tier2_emitted(rs: Seq<Board>, s: Seq<Tile>, n: int, lx: int, ly: int) -> bool {
    &&& ring_has_ground(s, n, lx, ly) ==> holds_board(rs, room_filled(s, n, lx, ly))
    &&& !ring_has_ground(s, n, lx, ly) ==> forall|ex: int, ey: int|
        ring_pos(lx, ly, ex, ey) && #[trigger] is_tile_at(s, n, ex, ey, Tile::Unsure)
            ==> holds_board(rs, room_filled(s, n, lx, ly).update(flat(n, ex, ey), Tile::Ground))
}

pub proof fn lemma_tier2_emitted_prefix(
    a: Seq<Board>,
    b: Seq<Board>,
    s: Seq<Tile>,
    n: int,
    lx: int,
    ly: int,
)
    requires
        a.is_prefix_of(b),
        tier2_emitted(a, s, n, lx, ly),
    ensures
        tier2_emitted(b, s, n, lx, ly),
{
    if ring_has_ground(s, n, lx, ly) {
        lemma_holds_board_prefix(a, b, room_filled(s, n, lx, ly));
    } else {
        assert forall|ex: int, ey: int|
            ring_pos(lx, ly, ex, ey) && #[trigger] is_tile_at(s, n, ex, ey, Tile::Unsure)
            implies holds_board(
            b,
            room_filled(s, n, lx, ly).update(flat(n, ex, ey), Tile::Ground),
        ) by {
            lemma_holds_board_prefix(
                a,
                b,
                room_filled(s, n, lx, ly).update(flat(n, ex, ey), Tile::Ground),
            );
        }
    }
}

/// Builds the tier-one child for one monster and one chosen exit.
fn build_monster_collapse(matrix: &Board, mx: usize, my: usize, ex: usize, ey: usize) -> (c: Board)
    requires
        matrix.wf(),
        mx < matrix.dim(),
        my < matrix.dim(),
        ex < matrix.dim(),
        ey < matrix.dim(),
        adjacent(mx as int, my as int, ex as int, ey as int),
        at(matrix@, matrix.dim() as int, ex as int, ey as int) == Tile::Unsure,
    ensures
        c.wf(),
        c.dim() == matrix.dim(),
        c@ == monster_collapse(
            matrix@,
            matrix.dim() as int,
            mx as int,
            my as int,
            ex as int,
            ey as int,
        ),
        collapse_of(matrix@, c@),
{
    let n = matrix.side();
    let ghost nn = matrix.dim() as int;
    let ghost target = monster_collapse(matrix@, nn, mx as int, my as int, ex as int, ey as int);
    let mut cells: Vec<Tile> = Vec::new();
    let mut y: usize = 0;
    while y < n
        invariant
            matrix.wf(),
            n == matrix.dim(),
            nn == n as int,
            mx < n,
            my < n,
            ex < n,
            ey < n,
            at(matrix@, nn, ex as int, ey as int) == Tile::Unsure,
            target == monster_collapse(matrix@, nn, mx as int, my as int, ex as int, ey as int),
            y <= n,
            cells@.len() == y * n,
            forall|j: int| 0 <= j < y * n ==> cells@[j] == target[j],
        decreases n - y,
    {
        let mut x: usize = 0;
        while x < n
            invariant
                matrix.wf(),
                n == matrix.dim(),
                nn == n as int,
                mx < n,
                my < n,
                ex < n,
                ey < n,
                at(matrix@, nn, ex as int, ey as int) == Tile::Unsure,
                target == monster_collapse(matrix@, nn, mx as int, my as int, ex as int, ey as int),
                y < n,
                x <= n,
                cells@.len() == y * n + x,
                forall|j: int| 0 <= j < y * n + x ==> cells@[j] == target[j],
            decreases n - x,
        {
            let t = matrix.get(x, y);
            let adj = (x == mx && (y == my + 1 || y + 1 == my)) || (y == my && (x == mx + 1 || x + 1
                == mx));
            let v = if x == ex && y == ey {
                Tile::Ground
            } else if adj && t == Tile::Unsure {
                Tile::Wall
            } else {
                t
            };
            proof {
                lemma_flat_bounds(nn, x as int, y as int);
                lemma_flat_coords(nn, x as int, y as int);
                assert(adj == adjacent(mx as int, my as int, x as int, y as int));
            }
            cells.push(v);
            x = x + 1;
        }
        proof {
            assert(y as int * nn + nn == (y as int + 1) * nn) by (nonlinear_arith);
        }
        y = y + 1;
    }
    proof {
        assert(cells@ =~= target);
        assert forall|i: int| 0 <= i < matrix@.len() implies (matrix@[i] != Tile::Unsure
            ==> target[i] == matrix@[i]) && (matrix@[i] == Tile::Unsure ==> (target[i]
            == Tile::Unsure || target[i] == Tile::Ground || target[i] == Tile::Wall)) by {
            if i % nn == ex as int && i / nn == ey as int {
                lemma_flat_bounds(nn, ex as int, ey as int);
                lemma_flat_coords(nn, ex as int, ey as int);
                assert(i == flat(nn, ex as int, ey as int)) by (nonlinear_arith)
                    requires
                        i % nn == ex as int,
                        i / nn == ey as int,
                        nn >= 1,
                        0 <= i,
                        flat(nn, ex as int, ey as int) == (ey as int) * nn + ex as int,
                ;
                assert(matrix@[i] == Tile::Unsure);
            }
        }
    }
    Board::from_parts(n, cells)
}

/// Fills a room placement: interior undetermined cells become ground,
/// non-corner ring undetermined cells become walls.
fn build_room_fill(matrix: &Board, lx: i64, ly: i64) -> (c: Board)
    requires
        matrix.wf(),
        -8 <= lx <= 8,
        -8 <= ly <= 8,
    ensures
        c.wf(),
        c.dim() == matrix.dim(),
        c@ == room_filled(matrix@, matrix.dim() as int, lx as int, ly as int),
        collapse_of(matrix@, c@),
{
    let n = matrix.side();
    let ghost nn = matrix.dim() as int;
    let ghost target = room_filled(matrix@, nn, lx as int, ly as int);
    let mut cells: Vec<Tile> = Vec::new();
    let mut y: usize = 0;
    while y < n
        invariant
            matrix.wf(),
            n == matrix.dim(),
            nn == n as int,
            -8 <= lx <= 8,
            -8 <= ly <= 8,
            target == room_filled(matrix@, nn, lx as int, ly as int),
            y <= n,
            cells@.len() == y * n,
            forall|j: int| 0 <= j < y * n ==> cells@[j] == target[j],
        decreases n - y,
    {
        let mut x: usize = 0;
        while x < n
            invariant
                matrix.wf(),
                n == matrix.dim(),
                nn == n as int,
                -8 <= lx <= 8,
                -8 <= ly <= 8,
                target == room_filled(matrix@, nn, lx as int, ly as int),
                y < n,
                x <= n,
                cells@.len() == y * n + x,
                forall|j: int| 0 <= j < y * n + x ==> cells@[j] == target[j],
            decreases n - x,
        {
            let t = matrix.get(x, y);
            let xi = x as i64;
            let yi = y as i64;
            let interior = lx <= xi && xi <= lx + 2 && ly <= yi && yi <= ly + 2;
            let in_window = lx - 1 <= xi && xi <= lx + 3 && ly - 1 <= yi && yi <= ly + 3;
            let corner = (xi == lx - 1 || xi == lx + 3) && (yi == ly - 1 || yi == ly + 3);
            let v = if t == Tile::Unsure && interior {
                Tile::Ground
            } else if t == Tile::Unsure && in_window && !interior && !corner {
                Tile::Wall
            } else {
                t
            };
            proof {
                lemma_flat_bounds(nn, x as int, y as int);
                lemma_flat_coords(nn, x as int, y as int);
                assert((in_window && !interior && !corner) == ring_pos(
                    lx as int,
                    ly as int,
                    x as int,
                    y as int,
                ));
            }
            cells.push(v);
            x = x + 1;
        }
        proof {
            assert(y as int * nn + nn == (y as int + 1) * nn) by (nonlinear_arith);
        }
        y = y + 1;
    }
    proof {
        assert(cells@ =~= target);
    }
    let c = Board::from_parts(n, cells);
    proof {
        assert(collapse_of(matrix@, c@));
    }
    c
}

/// Decides whether the room placement with interior top-left `(lx, ly)`
/// is plausible for tier-two emission, and whether some non-corner ring
/// cell is already ground (a predetermined entrance).
fn room_shape(matrix: &Board, lx: i64, ly: i64) -> (r: (bool, bool))
    requires
        matrix.wf(),
        -8 <= lx <= 8,
        -8 <= ly <= 8,
    ensures
        r.0 == room_plausible(matrix@, matrix.dim() as int, lx as int, ly as int),
        r.1 == ring_has_ground(matrix@, matrix.dim() as int, lx as int, ly as int),
{
    let n = matrix.side() as i64;
    let ghost nn = matrix.dim() as int;
    let ghost lxi = lx as int;
    let ghost lyi = ly as int;
    let ghost s = matrix@;
    let mut side_ground = false;
    let mut plausible = true;
    let mut j: i64 = 0;
    while j < 5
        invariant
            matrix.wf(),
            n == matrix.dim(),
            nn == n as int,
            s == matrix@,
            lxi == lx as int,
            lyi == ly as int,
            -8 <= lx <= 8,
            -8 <= ly <= 8,
            0 <= j <= 5,
            side_ground ==> exists|gx: int, gy: int|
                ring_pos(lxi, lyi, gx, gy) && #[trigger] is_tile_at(s, nn, gx, gy, Tile::Ground)
                    && gy < lyi - 1 + j,
            !side_ground ==> forall|gx: int, gy: int|
                ring_pos(lxi, lyi, gx, gy) && gy < lyi - 1 + j ==> !#[trigger] is_tile_at(
                    s,
                    nn,
                    gx,
                    gy,
                    Tile::Ground,
                ),
            plausible ==> forall|ax: int, ay: int|
                lxi <= ax < lxi + 3 && lyi <= ay < lyi + 3 && ay < lyi - 1 + j ==> in_grid(
                    nn,
                    ax,
                    ay,
                ) && #[trigger] at(s, nn, ax, ay) != Tile::Monster && at(s, nn, ax, ay)
                    != Tile::Wall,
            plausible ==> forall|ax: int, ay: int|
                ring_pos(lxi, lyi, ax, ay) && in_grid(nn, ax, ay) && ay < lyi - 1 + j
                    ==> #[trigger] at(s, nn, ax, ay) != Tile::Monster && at(s, nn, ax, ay)
                    != Tile::Chest,
            plausible ==> forall|x1: int, y1: int, x2: int, y2: int|
                ring_pos(lxi, lyi, x1, y1) && ring_pos(lxi, lyi, x2, y2) && y1 < lyi - 1 + j && y2
                    < lyi - 1 + j && #[trigger] is_tile_at(s, nn, x1, y1, Tile::Ground)
                    && #[trigger] is_tile_at(s, nn, x2, y2, Tile::Ground) ==> (x1 == x2 && y1
                    == y2),
            !plausible ==> !room_plausible(s, nn, lxi, lyi),
        decreases 5 - j,
    {
        let mut i: i64 = 0;
        while i < 5
            invariant
                matrix.wf(),
                n == matrix.dim(),
                nn == n as int,
                s == matrix@,
                lxi == lx as int,
                lyi == ly as int,
                -8 <= lx <= 8,
                -8 <= ly <= 8,
                0 <= j < 5,
                0 <= i <= 5,
                side_ground ==> exists|gx: int, gy: int|
                    ring_pos(lxi, lyi, gx, gy) && #[trigger] is_tile_at(s, nn, gx, gy, Tile::Ground)
                        && (gy < lyi - 1 + j || (gy == lyi - 1 + j && gx < lxi - 1 + i)),
                !side_ground ==> forall|gx: int, gy: int|
                    ring_pos(lxi, lyi, gx, gy) && (gy < lyi - 1 + j || (gy == lyi - 1 + j && gx
                        < lxi - 1 + i)) ==> !#[trigger] is_tile_at(s, nn, gx, gy, Tile::Ground),
                plausible ==> forall|ax: int, ay: int|
                    lxi <= ax < lxi + 3 && lyi <= ay < lyi + 3 && (ay < lyi - 1 + j || (ay == lyi
                        - 1 + j && ax < lxi - 1 + i)) ==> in_grid(nn, ax, ay) && #[trigger] at(
                        s,
                        nn,
                        ax,
                        ay,
                    ) != Tile::Monster && at(s, nn, ax, ay) != Tile::Wall,
                plausible ==> forall|ax: int, ay: int|
                    ring_pos(lxi, lyi, ax, ay) && in_grid(nn, ax, ay) && (ay < lyi - 1 + j || (ay
                        == lyi - 1 + j && ax < lxi - 1 + i)) ==> #[trigger] at(s, nn, ax, ay)
                        != Tile::Monster && at(s, nn, ax, ay) != Tile::Chest,
                plausible ==> forall|x1: int, y1: int, x2: int, y2: int|
                    ring_pos(lxi, lyi, x1, y1) && ring_pos(lxi, lyi, x2, y2) && (y1 < lyi - 1 + j
                        || (y1 == lyi - 1 + j && x1 < lxi - 1 + i)) && (y2 < lyi - 1 + j || (y2
                        == lyi - 1 + j && x2 < lxi - 1 + i)) && #[trigger] is_tile_at(
                        s,
                        nn,
                        x1,
                        y1,
                        Tile::Ground,
                    ) && #[trigger] is_tile_at(s, nn, x2, y2, Tile::Ground) ==> (x1 == x2 && y1
                        == y2),
                !plausible ==> !room_plausible(s, nn, lxi, lyi),
            decreases 5 - i,
        {
            let ax = lx - 1 + i;
            let ay = ly - 1 + j;
            let edge = i == 0 || i == 4 || j == 0 || j == 4;
            let corner = (i == 0 || i == 4) && (j == 0 || j == 4);
            if edge && !corner {
                proof {
                    assert(ring_pos(lxi, lyi, ax as int, ay as int));
                }
                if matrix.tile_at_is(ax, ay, Tile::Chest) || matrix.tile_at_is(
                    ax,
                    ay,
                    Tile::Monster,
                ) {
                    proof {
                        if plausible {
                            assert(!(at(s, nn, ax as int, ay as int) != Tile::Monster && at(
                                s,
                                nn,
                                ax as int,
                                ay as int,
                            ) != Tile::Chest));
                            assert(!room_perimeter_ok(s, nn, lxi, lyi));
                        }
                    }
                    plausible = false;
                }
                if matrix.tile_at_is(ax, ay, Tile::Ground) {
                    if side_ground {
                        proof {
                            let (gx, gy) = choose|gx: int, gy: int|
                                ring_pos(lxi, lyi, gx, gy) && #[trigger] is_tile_at(
                                    s,
                                    nn,
                                    gx,
                                    gy,
                                    Tile::Ground,
                                ) && (gy < lyi - 1 + j || (gy == lyi - 1 + j && gx < lxi - 1 + i));
                            assert(!(gx == ax as int && gy == ay as int));
                            assert(!at_most_one_ring_ground(s, nn, lxi, lyi));
                        }
                        plausible = false;
                    } else {
                        side_ground = true;
                    }
                }
            } else if !edge {
                if ax < 0 || ay < 0 || ax >= n || ay >= n {
                    proof {
                        if plausible {
                            assert(!(in_grid(nn, ax as int, ay as int) && at(
                                s,
                                nn,
                                ax as int,
                                ay as int,
                            ) != Tile::Monster && at(s, nn, ax as int, ay as int) != Tile::Wall));
                            assert(!room_interior_ok(s, nn, lxi, lyi));
                        }
                    }
                    plausible = false;
                } else if matrix.tile_at_is(ax, ay, Tile::Monster) || matrix.tile_at_is(
                    ax,
                    ay,
                    Tile::Wall,
                ) {
                    proof {
                        if plausible {
                            assert(!(at(s, nn, ax as int, ay as int) != Tile::Monster && at(
                                s,
                                nn,
                                ax as int,
                                ay as int,
                            ) != Tile::Wall));
                            assert(!room_interior_ok(s, nn, lxi, lyi));
                        }
                    }
                    plausible = false;
                }
            }
            i = i + 1;
        }
        j = j + 1;
    }
    proof {
        if plausible {
            assert(room_interior_ok(s, nn, lxi, lyi));
            assert(room_perimeter_ok(s, nn, lxi, lyi));
            assert(at_most_one_ring_ground(s, nn, lxi, lyi));
        }
        if side_ground {
            assert(ring_has_ground(s, nn, lxi, lyi));
        } else {
            assert forall|axq: int, ayq: int|
                !(ring_pos(lxi, lyi, axq, ayq) && #[trigger] is_tile_at(
                    s,
                    nn,
                    axq,
                    ayq,
                    Tile::Ground,
                )) by {}
        }
    }
    (plausible, side_ground)
}

/// Emits the tier-one children for one monster: one child per
/// undetermined neighbour, opening it as the exit.
fn emit_monster_children(matrix: &Board, out: &mut Vec<Board>, x: usize, y: usize)
    requires
        matrix.wf(),
        x < matrix.dim(),
        y < matrix.dim(),
        is_tile_at(matrix@, matrix.dim() as int, x as int, y as int, Tile::Monster),
        forall|k: int|
            0 <= k < old(out)@.len() ==> (#[trigger] old(out)@[k]).wf() && old(out)@[k].dim()
                == matrix.dim() && collapse_of(matrix@, old(out)@[k]@),
        forall|k: int|
            0 <= k < old(out)@.len() ==> tier_shaped(
                matrix@,
                matrix.dim() as int,
                #[trigger] old(out)@[k],
            ),
    ensures
        forall|k: int|
            0 <= k < final(out)@.len() ==> (#[trigger] final(out)@[k]).wf() && final(out)@[k].dim()
                == matrix.dim() && collapse_of(matrix@, final(out)@[k]@),
        forall|k: int|
            0 <= k < final(out)@.len() ==> tier_shaped(
                matrix@,
                matrix.dim() as int,
                #[trigger] final(out)@[k],
            ),
        old(out)@.is_prefix_of(final(out)@),
        forall|ex: int, ey: int|
            is_tile_at(matrix@, matrix.dim() as int, ex, ey, Tile::Unsure) && adjacent(
                x as int,
                y as int,
                ex,
                ey,
            ) ==> holds_board(
                final(out)@,
                #[trigger] monster_collapse(matrix@, matrix.dim() as int, x as int, y as int, ex, ey),
            ),
{
    let n = matrix.side();
    let ghost nn = matrix.dim() as int;
    let ghost mcw = monster_collapse(matrix@, nn, x as int, y as int, x as int - 1, y as int);
    let ghost mce = monster_collapse(matrix@, nn, x as int, y as int, x as int + 1, y as int);
    let ghost mcn = monster_collapse(matrix@, nn, x as int, y as int, x as int, y as int - 1);
    let ghost mcs = monster_collapse(matrix@, nn, x as int, y as int, x as int, y as int + 1);
    let aw = x > 0 && matrix.get(x - 1, y) == Tile::Unsure;
    let ae = x + 1 < n && matrix.get(x + 1, y) == Tile::Unsure;
    let an = y > 0 && matrix.get(x, y - 1) == Tile::Unsure;
    let az = y + 1 < n && matrix.get(x, y + 1) == Tile::Unsure;
    if aw {
        let c = build_monster_collapse(matrix, x, y, x - 1, y);
        proof {
            lemma_board_prefix_push(out@, c);
        }
        out.push(c);
        proof {
            assert(out@[out@.len() - 1] == c);
            assert(holds_board(out@, mcw));
            assert(tier_shaped(matrix@, nn, c));
        }
    }
    if ae {
        let c = build_monster_collapse(matrix, x, y, x + 1, y);
        proof {
            lemma_board_prefix_push(out@, c);
            lemma_board_prefix_trans(old(out)@, out@, out@.push(c));
            if aw {
                lemma_holds_board_push(out@, c, mcw);
            }
        }
        out.push(c);
        proof {
            assert(out@[out@.len() - 1] == c);
            assert(holds_board(out@, mce));
            assert(tier_shaped(matrix@, nn, c));
        }
    }
    if an {
        let c = build_monster_collapse(matrix, x, y, x, y - 1);
        proof {
            lemma_board_prefix_push(out@, c);
            lemma_board_prefix_trans(old(out)@, out@, out@.push(c));
            if aw {
                lemma_holds_board_push(out@, c, mcw);
            }
            if ae {
                lemma_holds_board_push(out@, c, mce);
            }
        }
        out.push(c);
        proof {
            assert(out@[out@.len() - 1] == c);
            assert(holds_board(out@, mcn));
            assert(tier_shaped(matrix@, nn, c));
        }
    }
    if az {
        let c = build_monster_collapse(matrix, x, y, x, y + 1);
        proof {
            lemma_board_prefix_push(out@, c);
            lemma_board_prefix_trans(old(out)@, out@, out@.push(c));
            if aw {
                lemma_holds_board_push(out@, c, mcw);
            }
            if ae {
                lemma_holds_board_push(out@, c, mce);
            }
            if an {
                lemma_holds_board_push(out@, c, mcn);
            }
        }
        out.push(c);
        proof {
            assert(out@[out@.len() - 1] == c);
            assert(holds_board(out@, mcs));
            assert(tier_shaped(matrix@, nn, c));
        }
    }
    proof {
        assert(old(out)@.is_prefix_of(out@));
        assert forall|ex: int, ey: int|
            is_tile_at(matrix@, nn, ex, ey, Tile::Unsure) && adjacent(x as int, y as int, ex, ey)
            implies holds_board(out@, monster_collapse(matrix@, nn, x as int, y as int, ex, ey)) by {
            if ex == x as int - 1 && ey == y as int {
                assert(aw);
                assert(holds_board(out@, mcw));
            } else if ex == x as int + 1 && ey == y as int {
                assert(ae);
                assert(holds_board(out@, mce));
            } else if ex == x as int && ey == y as int - 1 {
                assert(an);
                assert(holds_board(out@, mcn));
            } else {
                assert(ex == x as int && ey == y as int + 1);
                assert(az);
                assert(holds_board(out@, mcs));
            }
        }
    }
}

/// Emits the tier-two children for one chest and one placement offset:
/// nothing if the placement is implausible; the plain fill if its
/// entrance is predetermined; else one opened fill per undetermined
/// non-corner ring cell, in scan order.
fn emit_room_children(matrix: &Board, out: &mut Vec<Board>, cx: usize, cy: usize, dx: i64, dy: i64)
    requires
        matrix.wf(),
        cx < matrix.dim(),
        cy < matrix.dim(),
        0 <= dx <= 2,
        0 <= dy <= 2,
        forall|k: int|
            0 <= k < old(out)@.len() ==> (#[trigger] old(out)@[k]).wf() && old(out)@[k].dim()
                == matrix.dim() && collapse_of(matrix@, old(out)@[k]@),
        forall|k: int|
            0 <= k < old(out)@.len() ==> tier_shaped(
                matrix@,
                matrix.dim() as int,
                #[trigger] old(out)@[k],
            ),
    ensures
        forall|k: int|
            0 <= k < final(out)@.len() ==> (#[trigger] final(out)@[k]).wf() && final(out)@[k].dim()
                == matrix.dim() && collapse_of(matrix@, final(out)@[k]@),
        forall|k: int|
            0 <= k < final(out)@.len() ==> tier_shaped(
                matrix@,
                matrix.dim() as int,
                #[trigger] final(out)@[k],
            ),
        old(out)@.is_prefix_of(final(out)@),
        room_plausible(
            matrix@,
            matrix.dim() as int,
            cx as int - dx as int,
            cy as int - dy as int,
        ) ==> tier2_emitted(
            final(out)@,
            matrix@,
            matrix.dim() as int,
            cx as int - dx as int,
            cy as int - dy as int,
        ),
{
    let ghost nn = matrix.dim() as int;
    let lx = cx as i64 - dx;
    let ly = cy as i64 - dy;
    let ghost lxi = lx as int;
    let ghost lyi = ly as int;
    let (plausible, side_ground) = room_shape(matrix, lx, ly);
    if !plausible {
        proof {
            assert(out@.is_prefix_of(out@));
        }
        return ;
    }
    let fill = build_room_fill(matrix, lx, ly);
    if side_ground {
        out.push(fill);
        proof {
            assert(out@[out@.len() - 1] == fill);
            assert(holds_board(out@, room_filled(matrix@, nn, lxi, lyi)));
            assert(tier_shaped(matrix@, nn, fill));
            lemma_board_prefix_push(old(out)@, fill);
        }
        return ;
    }
    let ghost base = out@;
    let mut j: i64 = 0;
    while j < 5
        invariant
            matrix.wf(),
            nn == matrix.dim() as int,
            cx < matrix.dim(),
            cy < matrix.dim(),
            0 <= dx <= 2,
            0 <= dy <= 2,
            lx == cx as i64 - dx,
            ly == cy as i64 - dy,
            lxi == lx as int,
            lyi == ly as int,
            0 <= j <= 5,
            fill.wf(),
            fill.dim() == matrix.dim(),
            fill@ == room_filled(matrix@, nn, lxi, lyi),
            collapse_of(matrix@, fill@),
            room_plausible(matrix@, nn, lxi, lyi),
            !ring_has_ground(matrix@, nn, lxi, lyi),
            forall|k: int|
                0 <= k < out@.len() ==> (#[trigger] out@[k]).wf() && out@[k].dim() == matrix.dim()
                    && collapse_of(matrix@, out@[k]@),
            forall|k: int| 0 <= k < out@.len() ==> tier_shaped(matrix@, nn, #[trigger] out@[k]),
            base.is_prefix_of(out@),
            forall|ex: int, ey: int|
                ring_pos(lxi, lyi, ex, ey) && #[trigger] is_tile_at(
                    matrix@,
                    nn,
                    ex,
                    ey,
                    Tile::Unsure,
                ) && ey < lyi - 1 + j ==> holds_board(
                    out@,
                    room_filled(matrix@, nn, lxi, lyi).update(flat(nn, ex, ey), Tile::Ground),
                ),
        decreases 5 - j,
    {
        let mut i: i64 = 0;
        while i < 5
            invariant
                matrix.wf(),
                nn == matrix.dim() as int,
                cx < matrix.dim(),
                cy < matrix.dim(),
                0 <= dx <= 2,
                0 <= dy <= 2,
                lx == cx as i64 - dx,
                ly == cy as i64 - dy,
                lxi == lx as int,
                lyi == ly as int,
                0 <= j < 5,
                0 <= i <= 5,
                fill.wf(),
                fill.dim() == matrix.dim(),
                fill@ == room_filled(matrix@, nn, lxi, lyi),
                collapse_of(matrix@, fill@),
                room_plausible(matrix@, nn, lxi, lyi),
                !ring_has_ground(matrix@, nn, lxi, lyi),
                forall|k: int|
                    0 <= k < out@.len() ==> (#[trigger] out@[k]).wf() && out@[k].dim()
                        == matrix.dim() && collapse_of(matrix@, out@[k]@),
                forall|k: int| 0 <= k < out@.len() ==> tier_shaped(matrix@, nn, #[trigger] out@[k]),
                base.is_prefix_of(out@),
                forall|ex: int, ey: int|
                    ring_pos(lxi, lyi, ex, ey) && #[trigger] is_tile_at(
                        matrix@,
                        nn,
                        ex,
                        ey,
                        Tile::Unsure,
                    ) && (ey < lyi - 1 + j || (ey == lyi - 1 + j && ex < lxi - 1 + i))
                        ==> holds_board(
                        out@,
                        room_filled(matrix@, nn, lxi, lyi).update(flat(nn, ex, ey), Tile::Ground),
                    ),
            decreases 5 - i,
        {
            let ax = lx - 1 + i;
            let ay = ly - 1 + j;
            let edge = i == 0 || i == 4 || j == 0 || j == 4;
            let corner = (i == 0 || i == 4) && (j == 0 || j == 4);
            if edge && !corner && matrix.tile_at_is(ax, ay, Tile::Unsure) {
                proof {
                    lemma_flat_bounds(nn, ax as int, ay as int);
                }
                let child = fill.with_tile(ax as usize, ay as usize, Tile::Ground);
                proof {
                    assert(collapse_of(matrix@, child@));
                }
                let ghost prior = out@;
                out.push(child);
                proof {
                    lemma_board_prefix_push(prior, child);
                    lemma_board_prefix_trans(base, prior, out@);
                    assert(out@[out@.len() - 1] == child);
                    assert(ring_pos(lxi, lyi, ax as int, ay as int));
                    assert(holds_board(
                        out@,
                        room_filled(matrix@, nn, lxi, lyi).update(
                            flat(nn, ax as int, ay as int),
                            Tile::Ground,
                        ),
                    ));
                    assert(tier_shaped(matrix@, nn, child));
                    assert forall|ex: int, ey: int|
                        ring_pos(lxi, lyi, ex, ey) && #[trigger] is_tile_at(
                            matrix@,
                            nn,
                            ex,
                            ey,
                            Tile::Unsure,
                        ) && (ey < lyi - 1 + j || (ey == lyi - 1 + j && ex < lxi - 1 + i + 1))
                        implies holds_board(
                        out@,
                        room_filled(matrix@, nn, lxi, lyi).update(flat(nn, ex, ey), Tile::Ground),
                    ) by {
                        if !(ex == ax as int && ey == ay as int) {
                            lemma_holds_board_prefix(
                                prior,
                                out@,
                                room_filled(matrix@, nn, lxi, lyi).update(
                                    flat(nn, ex, ey),
                                    Tile::Ground,
                                ),
                            );
                        }
                    }
                }
            } else {
                proof {
                    assert forall|ex: int, ey: int|
                        ring_pos(lxi, lyi, ex, ey) && #[trigger] is_tile_at(
                            matrix@,
                            nn,
                            ex,
                            ey,
                            Tile::Unsure,
                        ) && (ey < lyi - 1 + j || (ey == lyi - 1 + j && ex < lxi - 1 + i + 1))
                        implies holds_board(
                        out@,
                        room_filled(matrix@, nn, lxi, lyi).update(flat(nn, ex, ey), Tile::Ground),
                    ) by {
                        if ex == ax as int && ey == ay as int {
                            assert(!(edge && !corner && is_tile_at(
                                matrix@,
                                nn,
                                ex,
                                ey,
                                Tile::Unsure,
                            )));
                        }
                    }
                }
            }
            i = i + 1;
        }
        j = j + 1;
    }
    proof {
        assert(!ring_has_ground(matrix@, nn, lxi, lyi));
        assert forall|ex: int, ey: int|
            ring_pos(lxi, lyi, ex, ey) && #[trigger] is_tile_at(matrix@, nn, ex, ey, Tile::Unsure)
            implies holds_board(
            out@,
            room_filled(matrix@, nn, lxi, lyi).update(flat(nn, ex, ey), Tile::Ground),
        ) by {}
        assert(tier2_emitted(out@, matrix@, nn, lxi, lyi));
    }
}

/// Produces the child boards of one parent, in the three fixed tiers.
/// Every child refines the parent: it only resolves undetermined
/// cells. Tier one is complete: every monster with an undetermined
/// neighbour yields the child for each such exit. Tier two is
/// complete: every plausible room placement of every chest yields its
/// owed fills. Tier three is complete: every undetermined cell yields
/// one ground child and one wall child.
#[verifier::rlimit(60)]
#[verifier::spinoff_prover]
pub fn collapse_random(matrix: &Board) -> (r: Vec<Board>)
    requires
        matrix.wf(),
    ensures
        forall|k: int|
            0 <= k < r@.len() ==> (#[trigger] r@[k]).wf() && r@[k].dim() == matrix.dim()
                && collapse_of(matrix@, r@[k]@),
        forall|k: int| 0 <= k < r@.len() ==> tier_shaped(matrix@, matrix.dim() as int, #[trigger] r@[k]),
        forall|mx: int, my: int, ex: int, ey: int|
            is_tile_at(matrix@, matrix.dim() as int, mx, my, Tile::Monster) && is_tile_at(
                matrix@,
                matrix.dim() as int,
                ex,
                ey,
                Tile::Unsure,
            ) && adjacent(mx, my, ex, ey) ==> holds_board(
                r@,
                #[trigger] monster_collapse(matrix@, matrix.dim() as int, mx, my, ex, ey),
            ),
        forall|x: int, y: int|
            #[trigger] is_tile_at(matrix@, matrix.dim() as int, x, y, Tile::Unsure) ==> holds_board(
                r@,
                matrix@.update(flat(matrix.dim() as int, x, y), Tile::Ground),
            ) && holds_board(r@, matrix@.update(flat(matrix.dim() as int, x, y), Tile::Wall)),
        forall|cx: int, cy: int, lx: int, ly: int|
            #![trigger is_tile_at(matrix@, matrix.dim() as int, cx, cy, Tile::Chest), room_plausible(matrix@, matrix.dim() as int, lx, ly)]
            is_tile_at(matrix@, matrix.dim() as int, cx, cy, Tile::Chest) && cx - 2 <= lx <= cx
                && cy - 2 <= ly <= cy && room_plausible(matrix@, matrix.dim() as int, lx, ly)
                ==> tier2_emitted(r@, matrix@, matrix.dim() as int, lx, ly),
{
    let n = matrix.side();
    let ghost nn = matrix.dim() as int;
    let mut out: Vec<Board> = Vec::new();

    // Tier one: monster exits.
    let mut y: usize = 0;
    while y < n
        invariant
            matrix.wf(),
            n == matrix.dim(),
            nn == n as int,
            y <= n,
            forall|k: int|
                0 <= k < out@.len() ==> (#[trigger] out@[k]).wf() && out@[k].dim() == matrix.dim()
                    && collapse_of(matrix@, out@[k]@),
            forall|k: int| 0 <= k < out@.len() ==> tier_shaped(matrix@, nn, #[trigger] out@[k]),
            forall|mx: int, my: int, ex: int, ey: int|
                0 <= my < y && is_tile_at(matrix@, nn, mx, my, Tile::Monster) && is_tile_at(
                    matrix@,
                    nn,
                    ex,
                    ey,
                    Tile::Unsure,
                ) && adjacent(mx, my, ex, ey) ==> holds_board(
                    out@,
                    #[trigger] monster_collapse(matrix@, nn, mx, my, ex, ey),
                ),
        decreases n - y,
    {
        let mut x: usize = 0;
        while x < n
            invariant
                matrix.wf(),
                n == matrix.dim(),
                nn == n as int,
                y < n,
                x <= n,
                forall|k: int|
                    0 <= k < out@.len() ==> (#[trigger] out@[k]).wf() && out@[k].dim()
                        == matrix.dim() && collapse_of(matrix@, out@[k]@),
                forall|k: int| 0 <= k < out@.len() ==> tier_shaped(matrix@, nn, #[trigger] out@[k]),
                forall|mx: int, my: int, ex: int, ey: int|
                    0 <= my < y && is_tile_at(matrix@, nn, mx, my, Tile::Monster) && is_tile_at(
                        matrix@,
                        nn,
                        ex,
                        ey,
                        Tile::Unsure,
                    ) && adjacent(mx, my, ex, ey) ==> holds_board(
                        out@,
                        #[trigger] monster_collapse(matrix@, nn, mx, my, ex, ey),
                    ),
                forall|mx: int, ex: int, ey: int|
                    0 <= mx < x && is_tile_at(matrix@, nn, mx, y as int, Tile::Monster)
                        && is_tile_at(matrix@, nn, ex, ey, Tile::Unsure) && adjacent(
                        mx,
                        y as int,
                        ex,
                        ey,
                    ) ==> holds_board(
                        out@,
                        #[trigger] monster_collapse(matrix@, nn, mx, y as int, ex, ey),
                    ),
            decreases n - x,
        {
            if matrix.get(x, y) == Tile::Monster {
                let ghost out0 = out@;
                emit_monster_children(matrix, &mut out, x, y);
                proof {
                    assert forall|mx: int, my: int, ex: int, ey: int|
                        0 <= my < y && is_tile_at(matrix@, nn, mx, my, Tile::Monster) && is_tile_at(
                            matrix@,
                            nn,
                            ex,
                            ey,
                            Tile::Unsure,
                        ) && adjacent(mx, my, ex, ey) implies holds_board(
                        out@,
                        monster_collapse(matrix@, nn, mx, my, ex, ey),
                    ) by {
                        assert(holds_board(out0, monster_collapse(matrix@, nn, mx, my, ex, ey)));
                        lemma_holds_board_prefix(
                            out0,
                            out@,
                            monster_collapse(matrix@, nn, mx, my, ex, ey),
                        );
                    }
                    assert forall|mx: int, ex: int, ey: int|
                        0 <= mx < x + 1 && is_tile_at(matrix@, nn, mx, y as int, Tile::Monster)
                            && is_tile_at(matrix@, nn, ex, ey, Tile::Unsure) && adjacent(
                            mx,
                            y as int,
                            ex,
                            ey,
                        ) implies holds_board(
                        out@,
                        monster_collapse(matrix@, nn, mx, y as int, ex, ey),
                    ) by {
                        if mx < x {
                            assert(holds_board(
                                out0,
                                monster_collapse(matrix@, nn, mx, y as int, ex, ey),
                            ));
                            lemma_holds_board_prefix(
                                out0,
                                out@,
                                monster_collapse(matrix@, nn, mx, y as int, ex, ey),
                            );
                        }
                    }
                }
            }
            x = x + 1;
        }
        y = y + 1;
    }
    let ghost tier1 = out@;

    // Tier two: chest rooms.
    let mut y2: usize = 0;
    while y2 < n
        invariant
            matrix.wf(),
            n == matrix.dim(),
            nn == n as int,
            y2 <= n,
            forall|k: int|
                0 <= k < out@.len() ==> (#[trigger] out@[k]).wf() && out@[k].dim() == matrix.dim()
                    && collapse_of(matrix@, out@[k]@),
            forall|k: int| 0 <= k < out@.len() ==> tier_shaped(matrix@, nn, #[trigger] out@[k]),
            tier1.is_prefix_of(out@),
            forall|cx: int, cy: int, lx: int, ly: int|
                #![trigger is_tile_at(matrix@, nn, cx, cy, Tile::Chest), room_plausible(matrix@, nn, lx, ly)]
                0 <= cy < y2 && is_tile_at(matrix@, nn, cx, cy, Tile::Chest) && cx - 2 <= lx <= cx
                    && cy - 2 <= ly <= cy && room_plausible(matrix@, nn, lx, ly) ==> tier2_emitted(
                    out@,
                    matrix@,
                    nn,
                    lx,
                    ly,
                ),
        decreases n - y2,
    {
        let mut x2: usize = 0;
        while x2 < n
            invariant
                matrix.wf(),
                n == matrix.dim(),
                nn == n as int,
                y2 < n,
                x2 <= n,
                forall|k: int|
                    0 <= k < out@.len() ==> (#[trigger] out@[k]).wf() && out@[k].dim()
                        == matrix.dim() && collapse_of(matrix@, out@[k]@),
                forall|k: int| 0 <= k < out@.len() ==> tier_shaped(matrix@, nn, #[trigger] out@[k]),
                tier1.is_prefix_of(out@),
                forall|cx: int, cy: int, lx: int, ly: int|
                    #![trigger is_tile_at(matrix@, nn, cx, cy, Tile::Chest), room_plausible(matrix@, nn, lx, ly)]
                    0 <= cy < y2 && is_tile_at(matrix@, nn, cx, cy, Tile::Chest) && cx - 2 <= lx
                        <= cx && cy - 2 <= ly <= cy && room_plausible(matrix@, nn, lx, ly)
                        ==> tier2_emitted(out@, matrix@, nn, lx, ly),
                forall|cx: int, lx: int, ly: int|
                    #![trigger is_tile_at(matrix@, nn, cx, y2 as int, Tile::Chest), room_plausible(matrix@, nn, lx, ly)]
                    0 <= cx < x2 && is_tile_at(matrix@, nn, cx, y2 as int, Tile::Chest) && cx - 2
                        <= lx <= cx && y2 as int - 2 <= ly <= y2 as int && room_plausible(
                        matrix@,
                        nn,
                        lx,
                        ly,
                    ) ==> tier2_emitted(out@, matrix@, nn, lx, ly),
            decreases n - x2,
        {
            if matrix.get(x2, y2) == Tile::Chest {
                let mut dx: i64 = 0;
                while dx < 3
                    invariant
                        matrix.wf(),
                        n == matrix.dim(),
                        nn == n as int,
                        y2 < n,
                        x2 < n,
                        0 <= dx <= 3,
                        forall|k: int|
                            0 <= k < out@.len() ==> (#[trigger] out@[k]).wf() && out@[k].dim()
                                == matrix.dim() && collapse_of(matrix@, out@[k]@),
                        forall|k: int|
                            0 <= k < out@.len() ==> tier_shaped(matrix@, nn, #[trigger] out@[k]),
                        tier1.is_prefix_of(out@),
                        forall|cx: int, cy: int, lx: int, ly: int|
                            #![trigger is_tile_at(matrix@, nn, cx, cy, Tile::Chest), room_plausible(matrix@, nn, lx, ly)]
                            0 <= cy < y2 && is_tile_at(matrix@, nn, cx, cy, Tile::Chest) && cx - 2
                                <= lx <= cx && cy - 2 <= ly <= cy && room_plausible(
                                matrix@,
                                nn,
                                lx,
                                ly,
                            ) ==> tier2_emitted(out@, matrix@, nn, lx, ly),
                        forall|cx: int, lx: int, ly: int|
                            #![trigger is_tile_at(matrix@, nn, cx, y2 as int, Tile::Chest), room_plausible(matrix@, nn, lx, ly)]
                            0 <= cx < x2 && is_tile_at(matrix@, nn, cx, y2 as int, Tile::Chest)
                                && cx - 2 <= lx <= cx && y2 as int - 2 <= ly <= y2 as int
                                && room_plausible(matrix@, nn, lx, ly) ==> tier2_emitted(
                                out@,
                                matrix@,
                                nn,
                                lx,
                                ly,
                            ),
                        forall|lx: int, ly: int|
                            #![trigger room_plausible(matrix@, nn, lx, ly)]
                            x2 - 2 <= lx <= x2 && y2 - 2 <= ly <= y2 && x2 as int - lx < dx
                                && room_plausible(matrix@, nn, lx, ly) ==> tier2_emitted(
                                out@,
                                matrix@,
                                nn,
                                lx,
                                ly,
                            ),
                    decreases 3 - dx,
                {
                    let mut dy: i64 = 0;
                    while dy < 3
                        invariant
                            matrix.wf(),
                            n == matrix.dim(),
                            nn == n as int,
                            y2 < n,
                            x2 < n,
                            0 <= dx < 3,
                            0 <= dy <= 3,
                            forall|k: int|
                                0 <= k < out@.len() ==> (#[trigger] out@[k]).wf() && out@[k].dim()
                                    == matrix.dim() && collapse_of(matrix@, out@[k]@),
                            forall|k: int|
                                0 <= k < out@.len() ==> tier_shaped(
                                    matrix@,
                                    nn,
                                    #[trigger] out@[k],
                                ),
                            tier1.is_prefix_of(out@),
                            forall|cx: int, cy: int, lx: int, ly: int|
                                #![trigger is_tile_at(matrix@, nn, cx, cy, Tile::Chest), room_plausible(matrix@, nn, lx, ly)]
                                0 <= cy < y2 && is_tile_at(matrix@, nn, cx, cy, Tile::Chest) && cx
                                    - 2 <= lx <= cx && cy - 2 <= ly <= cy && room_plausible(
                                    matrix@,
                                    nn,
                                    lx,
                                    ly,
                                ) ==> tier2_emitted(out@, matrix@, nn, lx, ly),
                            forall|cx: int, lx: int, ly: int|
                                #![trigger is_tile_at(matrix@, nn, cx, y2 as int, Tile::Chest), room_plausible(matrix@, nn, lx, ly)]
                                0 <= cx < x2 && is_tile_at(matrix@, nn, cx, y2 as int, Tile::Chest)
                                    && cx - 2 <= lx <= cx && y2 as int - 2 <= ly <= y2 as int
                                    && room_plausible(matrix@, nn, lx, ly) ==> tier2_emitted(
                                    out@,
                                    matrix@,
                                    nn,
                                    lx,
                                    ly,
                                ),
                            forall|lx: int, ly: int|
                                #![trigger room_plausible(matrix@, nn, lx, ly)]
                                x2 - 2 <= lx <= x2 && y2 - 2 <= ly <= y2 && (x2 as int - lx < dx
                                    || (x2 as int - lx == dx && y2 as int - ly < dy))
                                    && room_plausible(matrix@, nn, lx, ly) ==> tier2_emitted(
                                    out@,
                                    matrix@,
                                    nn,
                                    lx,
                                    ly,
                                ),
                        decreases 3 - dy,
                    {
                        let ghost prior = out@;
                        emit_room_children(matrix, &mut out, x2, y2, dx, dy);
                        proof {
                            assert forall|lx: int, ly: int|
                                x2 - 2 <= lx <= x2 && y2 - 2 <= ly <= y2 && (x2 as int - lx < dx
                                    || (x2 as int - lx == dx && y2 as int - ly < dy + 1))
                                    && #[trigger] room_plausible(matrix@, nn, lx, ly)
                                implies tier2_emitted(out@, matrix@, nn, lx, ly) by {
                                if x2 as int - lx == dx && y2 as int - ly == dy {
                                    assert(lx == x2 as int - dx && ly == y2 as int - dy);
                                    assert(tier2_emitted(out@, matrix@, nn, lx, ly));
                                } else {
                                    assert(tier2_emitted(prior, matrix@, nn, lx, ly));
                                    lemma_tier2_emitted_prefix(prior, out@, matrix@, nn, lx, ly);
                                }
                            }
                            assert forall|cx: int, cy: int, lx: int, ly: int|
                                0 <= cy < y2 && #[trigger] is_tile_at(
                                    matrix@,
                                    nn,
                                    cx,
                                    cy,
                                    Tile::Chest,
                                ) && cx - 2 <= lx <= cx && cy - 2 <= ly <= cy
                                    && #[trigger] room_plausible(matrix@, nn, lx, ly)
                                implies tier2_emitted(out@, matrix@, nn, lx, ly) by {
                                assert(tier2_emitted(prior, matrix@, nn, lx, ly));
                                lemma_tier2_emitted_prefix(prior, out@, matrix@, nn, lx, ly);
                            }
                            assert forall|cx: int, lx: int, ly: int|
                                0 <= cx < x2 && #[trigger] is_tile_at(
                                    matrix@,
                                    nn,
                                    cx,
                                    y2 as int,
                                    Tile::Chest,
                                ) && cx - 2 <= lx <= cx && y2 as int - 2 <= ly <= y2 as int
                                    && #[trigger] room_plausible(matrix@, nn, lx, ly)
                                implies tier2_emitted(out@, matrix@, nn, lx, ly) by {
                                assert(tier2_emitted(prior, matrix@, nn, lx, ly));
                                lemma_tier2_emitted_prefix(prior, out@, matrix@, nn, lx, ly);
                            }
                        }
                        dy = dy + 1;
                    }
                    dx = dx + 1;
                }
            }
            x2 = x2 + 1;
        }
        y2 = y2 + 1;
    }
    let ghost tier2 = out@;


    // Tier three: single-cell collapses.
    let mut y3: usize = 0;
    while y3 < n
        invariant
            matrix.wf(),
            n == matrix.dim(),
            nn == n as int,
            y3 <= n,
            forall|k: int|
                0 <= k < out@.len() ==> (#[trigger] out@[k]).wf() && out@[k].dim() == matrix.dim()
                    && collapse_of(matrix@, out@[k]@),
            forall|k: int| 0 <= k < out@.len() ==> tier_shaped(matrix@, nn, #[trigger] out@[k]),
            tier1.is_prefix_of(out@),
            tier2.is_prefix_of(out@),
            forall|x: int, y: int|
                0 <= y < y3 && #[trigger] is_tile_at(matrix@, nn, x, y, Tile::Unsure)
                    ==> holds_board(out@, matrix@.update(flat(nn, x, y), Tile::Ground))
                    && holds_board(out@, matrix@.update(flat(nn, x, y), Tile::Wall)),
        decreases n - y3,
    {
        let mut x3: usize = 0;
        while x3 < n
            invariant
                matrix.wf(),
                n == matrix.dim(),
                nn == n as int,
                y3 < n,
                x3 <= n,
                forall|k: int|
                    0 <= k < out@.len() ==> (#[trigger] out@[k]).wf() && out@[k].dim()
                        == matrix.dim() && collapse_of(matrix@, out@[k]@),
                forall|k: int| 0 <= k < out@.len() ==> tier_shaped(matrix@, nn, #[trigger] out@[k]),
                tier1.is_prefix_of(out@),
                tier2.is_prefix_of(out@),
                forall|x: int, y: int|
                    0 <= y < y3 && #[trigger] is_tile_at(matrix@, nn, x, y, Tile::Unsure)
                        ==> holds_board(out@, matrix@.update(flat(nn, x, y), Tile::Ground))
                        && holds_board(out@, matrix@.update(flat(nn, x, y), Tile::Wall)),
                forall|x: int|
                    0 <= x < x3 && #[trigger] is_tile_at(matrix@, nn, x, y3 as int, Tile::Unsure)
                        ==> holds_board(out@, matrix@.update(flat(nn, x, y3 as int), Tile::Ground))
                        && holds_board(out@, matrix@.update(flat(nn, x, y3 as int), Tile::Wall)),
            decreases n - x3,
        {
            if matrix.get(x3, y3) == Tile::Unsure {
                let ghost out0 = out@;
                let g = matrix.with_tile(x3, y3, Tile::Ground);
                let w = matrix.with_tile(x3, y3, Tile::Wall);
                proof {
                    lemma_flat_bounds(nn, x3 as int, y3 as int);
                    assert(collapse_of(matrix@, g@));
                    assert(collapse_of(matrix@, w@));
                }
                let ghost mid = out@.push(g);
                out.push(g);
                out.push(w);
                proof {
                    let ghost l0 = out0.len() as int;
                    assert(out@ == mid.push(w));
                    assert(mid[l0] == g);
                    assert(out@[l0] == g);
                    assert(out@[l0 + 1] == w);
                    assert(tier_shaped(matrix@, nn, g));
                    assert(tier_shaped(matrix@, nn, w));
                    assert(out0.is_prefix_of(out@));
                    assert(holds_board(out@, matrix@.update(flat(nn, x3 as int, y3 as int), Tile::Ground)));
                    assert(holds_board(out@, matrix@.update(flat(nn, x3 as int, y3 as int), Tile::Wall)));
                    assert forall|x: int, y: int|
                        0 <= y < y3 && #[trigger] is_tile_at(matrix@, nn, x, y, Tile::Unsure)
                        implies holds_board(out@, matrix@.update(flat(nn, x, y), Tile::Ground))
                        && holds_board(out@, matrix@.update(flat(nn, x, y), Tile::Wall)) by {
                        lemma_holds_board_prefix(
                            out0,
                            out@,
                            matrix@.update(flat(nn, x, y), Tile::Ground),
                        );
                        lemma_holds_board_prefix(
                            out0,
                            out@,
                            matrix@.update(flat(nn, x, y), Tile::Wall),
                        );
                    }
                    assert forall|x: int|
                        0 <= x < x3 + 1 && #[trigger] is_tile_at(
                            matrix@,
                            nn,
                            x,
                            y3 as int,
                            Tile::Unsure,
                        ) implies holds_board(
                        out@,
                        matrix@.update(flat(nn, x, y3 as int), Tile::Ground),
                    ) && holds_board(out@, matrix@.update(flat(nn, x, y3 as int), Tile::Wall)) by {
                        if x < x3 {
                            lemma_holds_board_prefix(
                                out0,
                                out@,
                                matrix@.update(flat(nn, x, y3 as int), Tile::Ground),
                            );
                            lemma_holds_board_prefix(
                                out0,
                                out@,
                                matrix@.update(flat(nn, x, y3 as int), Tile::Wall),
                            );
                        }
                    }
                }
            }
            x3 = x3 + 1;
        }
        y3 = y3 + 1;
    }
    proof {
        assert forall|mx: int, my: int, ex: int, ey: int|
            is_tile_at(matrix@, nn, mx, my, Tile::Monster) && is_tile_at(
                matrix@,
                nn,
                ex,
                ey,
                Tile::Unsure,
            ) && adjacent(mx, my, ex, ey) implies holds_board(
            out@,
            #[trigger] monster_collapse(matrix@, nn, mx, my, ex, ey),
        ) by {
            assert(holds_board(tier1, monster_collapse(matrix@, nn, mx, my, ex, ey)));
            lemma_holds_board_prefix(tier1, out@, monster_collapse(matrix@, nn, mx, my, ex, ey));
        }
        assert forall|x: int, y: int|
            #[trigger] is_tile_at(matrix@, nn, x, y, Tile::Unsure) implies holds_board(
            out@,
            matrix@.update(flat(nn, x, y), Tile::Ground),
        ) && holds_board(out@, matrix@.update(flat(nn, x, y), Tile::Wall)) by {}
        assert forall|cx: int, cy: int, lx: int, ly: int|
            #[trigger] is_tile_at(matrix@, nn, cx, cy, Tile::Chest) && cx - 2 <= lx <= cx && cy - 2
                <= ly <= cy && #[trigger] room_plausible(matrix@, nn, lx, ly)
            implies tier2_emitted(
            out@,
            matrix@,
            nn,
            lx,
            ly,
        ) by {
            assert(tier2_emitted(tier2, matrix@, nn, lx, ly));
            lemma_tier2_emitted_prefix(tier2, out@, matrix@, nn, lx, ly);
        }
    }
    out
}

} // verus!
