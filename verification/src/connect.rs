//! Ground connectivity: reachability through passable cells, and a
//! verified flood fill that decides whether all confirmed ground cells
//! can still end up in one connected component.

use vstd::prelude::*;

verus! {

use crate::board::{
    Board,
    Tile,
    flat,
    in_grid,
    at,
    is_passable,
    is_tile_at,
    lemma_flat_bounds,
    lemma_flat_coords,
};

/// Two cells share an edge.
pub open spec fn adjacent(x1: int, y1: int, x2: int, y2: int) -> bool {
    ||| (x1 == x2 && (y2 == y1 + 1 || y2 == y1 - 1))
    ||| (y1 == y2 && (x2 == x1 + 1 || x2 == x1 - 1))
}

/// A walk through passable cells: nonempty, every cell in the grid and
/// passable, consecutive cells adjacent.
pub open spec fn passable_path(s: Seq<Tile>, n: int, p: Seq<(int, int)>) -> bool {
    &&& p.len() >= 1
    &&& forall|k: int| #![trigger p[k]] 0 <= k < p.len() ==> is_passable(s, n, p[k].0, p[k].1)
    &&& forall|k: int|
        #![trigger p[k]]
        0 <= k < p.len() - 1 ==> adjacent(p[k].0, p[k].1, p[k + 1].0, p[k + 1].1)
}

/// A passable walk leads from one cell to the other.
pub open spec fn reach(s: Seq<Tile>, n: int, x1: int, y1: int, x2: int, y2: int) -> bool {
    exists|p: Seq<(int, int)>|
        #[trigger] passable_path(s, n, p) && p.first() == (x1, y1) && p.last() == (x2, y2)
}

/// Every confirmed ground cell can reach every other through cells that
/// may still be ground.
pub open spec fn grounds_connected(s: Seq<Tile>, n: int) -> bool {
    forall|x1: int, y1: int, x2: int, y2: int|
        #[trigger] is_tile_at(s, n, x1, y1, Tile::Ground) && #[trigger] is_tile_at(
            s,
            n,
            x2,
            y2,
            Tile::Ground,
        ) ==> reach(s, n, x1, y1, x2, y2)
}

pub proof fn lemma_reach_self(s: Seq<Tile>, n: int, x: int, y: int)
    requires
        is_passable(s, n, x, y),
    ensures
        reach(s, n, x, y, x, y),
{
    let p: Seq<(int, int)> = seq![(x, y)];
    assert(p[0] == (x, y));
    assert(passable_path(s, n, p));
}

pub proof fn lemma_reach_step(s: Seq<Tile>, n: int, x1: int, y1: int, x2: int, y2: int, x3: int, y3: int)
    requires
        reach(s, n, x1, y1, x2, y2),
        adjacent(x2, y2, x3, y3),
        is_passable(s, n, x3, y3),
    ensures
        reach(s, n, x1, y1, x3, y3),
{
    let p = choose|p: Seq<(int, int)>|
        #[trigger] passable_path(s, n, p) && p.first() == (x1, y1) && p.last() == (x2, y2);
    let q = p.push((x3, y3));
    assert(q.last() == (x3, y3));
    assert forall|k: int| 0 <= k < q.len() implies is_passable(s, n, #[trigger] q[k].0, q[k].1) by {
        if k < p.len() {
            assert(q[k] == p[k]);
        }
    }
    assert forall|k: int| 0 <= k < q.len() - 1 implies adjacent(
        #[trigger] q[k].0,
        q[k].1,
        q[k + 1].0,
        q[k + 1].1,
    ) by {
        if k < p.len() - 1 {
            assert(q[k] == p[k]);
            assert(q[k + 1] == p[k + 1]);
        } else {
            assert(q[k] == p.last());
            assert(q[k + 1] == (x3, y3));
        }
    }
    assert(passable_path(s, n, q));
}

pub proof fn lemma_reach_symm(s: Seq<Tile>, n: int, x1: int, y1: int, x2: int, y2: int)
    requires
        reach(s, n, x1, y1, x2, y2),
    ensures
        reach(s, n, x2, y2, x1, y1),
{
    let p = choose|p: Seq<(int, int)>|
        #[trigger] passable_path(s, n, p) && p.first() == (x1, y1) && p.last() == (x2, y2);
    let l = p.len() as int;
    let q = Seq::new(p.len(), |k: int| p[l - 1 - k]);
    assert(q.first() == (x2, y2));
    assert(q.last() == (x1, y1));
    assert forall|k: int| 0 <= k < q.len() implies is_passable(s, n, #[trigger] q[k].0, q[k].1) by {
        assert(q[k] == p[l - 1 - k]);
    }
    assert forall|k: int| 0 <= k < q.len() - 1 implies adjacent(
        #[trigger] q[k].0,
        q[k].1,
        q[k + 1].0,
        q[k + 1].1,
    ) by {
        assert(q[k] == p[l - 1 - k]);
        assert(q[k + 1] == p[l - 2 - k]);
        assert(adjacent(p[l - 2 - k].0, p[l - 2 - k].1, p[l - 1 - k].0, p[l - 1 - k].1));
    }
    assert(passable_path(s, n, q));
}

pub proof fn lemma_reach_trans(s: Seq<Tile>, n: int, x1: int, y1: int, x2: int, y2: int, x3: int, y3: int)
    requires
        reach(s, n, x1, y1, x2, y2),
        reach(s, n, x2, y2, x3, y3),
    ensures
        reach(s, n, x1, y1, x3, y3),
{
    let p = choose|p: Seq<(int, int)>|
        #[trigger] passable_path(s, n, p) && p.first() == (x1, y1) && p.last() == (x2, y2);
    let q = choose|q: Seq<(int, int)>|
        #[trigger] passable_path(s, n, q) && q.first() == (x2, y2) && q.last() == (x3, y3);
    if q.len() == 1 {
        assert((x2, y2) == (x3, y3));
        assert(passable_path(s, n, p) && p.first() == (x1, y1) && p.last() == (x3, y3));
    } else {
        let r = p + q.drop_first();
        let pl = p.len() as int;
        assert(r.first() == (x1, y1));
        assert(r.last() == q.drop_first().last());
        assert(q.drop_first().last() == q.last());
        assert forall|k: int| 0 <= k < r.len() implies is_passable(s, n, #[trigger] r[k].0, r[k].1)
        by {
            if k < pl {
                assert(r[k] == p[k]);
            } else {
                assert(r[k] == q.drop_first()[k - pl]);
                assert(q.drop_first()[k - pl] == q[k - pl + 1]);
            }
        }
        assert forall|k: int| 0 <= k < r.len() - 1 implies adjacent(
            #[trigger] r[k].0,
            r[k].1,
            r[k + 1].0,
            r[k + 1].1,
        ) by {
            if k < pl - 1 {
                assert(r[k] == p[k]);
                assert(r[k + 1] == p[k + 1]);
            } else if k == pl - 1 {
                assert(r[k] == p.last());
                assert(r[k + 1] == q.drop_first()[0]);
                assert(q.drop_first()[0] == q[1]);
                assert(adjacent(q[0].0, q[0].1, q[1].0, q[1].1));
            } else {
                assert(r[k] == q.drop_first()[k - pl]);
                assert(r[k + 1] == q.drop_first()[k + 1 - pl]);
                assert(q.drop_first()[k - pl] == q[k - pl + 1]);
                assert(q.drop_first()[k + 1 - pl] == q[k + 2 - pl]);
                assert(adjacent(q[k - pl + 1].0, q[k - pl + 1].1, q[k + 2 - pl].0, q[k + 2 - pl].1));
            }
        }
        assert(passable_path(s, n, r));
    }
}

/// The flood mark of a cell, by coordinates.
pub open spec fn marked(fl: Seq<bool>, n: int, x: int, y: int) -> bool {
    fl[flat(n, x, y)]
}

/// Every passable neighbour of the cell is marked.
pub open spec fn cell_closed(s: Seq<Tile>, n: int, fl: Seq<bool>, x: int, y: int) -> bool {
    &&& is_passable(s, n, x + 1, y) ==> marked(fl, n, x + 1, y)
    &&& is_passable(s, n, x - 1, y) ==> marked(fl, n, x - 1, y)
    &&& is_passable(s, n, x, y + 1) ==> marked(fl, n, x, y + 1)
    &&& is_passable(s, n, x, y - 1) ==> marked(fl, n, x, y - 1)
}

/// The marks are closed under stepping to a passable neighbour.
pub open spec fn flood_closed(s: Seq<Tile>, n: int, fl: Seq<bool>) -> bool {
    forall|x: int, y: int|
        in_grid(n, x, y) && #[trigger] marked(fl, n, x, y) ==> cell_closed(s, n, fl, x, y)
}

/// Closed marks cover every passable walk that starts on a marked cell.
pub proof fn lemma_closed_covers_path(s: Seq<Tile>, n: int, fl: Seq<bool>, p: Seq<(int, int)>)
    requires
        flood_closed(s, n, fl),
        passable_path(s, n, p),
        marked(fl, n, p.first().0, p.first().1),
    ensures
        marked(fl, n, p.last().0, p.last().1),
    decreases p.len(),
{
    if p.len() > 1 {
        let q = p.drop_first();
        assert(is_passable(s, n, p[0].0, p[0].1));
        assert(adjacent(p[0].0, p[0].1, p[1].0, p[1].1));
        assert(is_passable(s, n, p[1].0, p[1].1));
        assert(marked(fl, n, p[1].0, p[1].1));
        assert forall|k: int| 0 <= k < q.len() implies is_passable(s, n, #[trigger] q[k].0, q[k].1)
        by {
            assert(q[k] == p[k + 1]);
        }
        assert forall|k: int| 0 <= k < q.len() - 1 implies adjacent(
            #[trigger] q[k].0,
            q[k].1,
            q[k + 1].0,
            q[k + 1].1,
        ) by {
            assert(q[k] == p[k + 1]);
            assert(q[k + 1] == p[k + 2]);
        }
        assert(passable_path(s, n, q));
        assert(q.first() == p[1]);
        assert(q.last() == p.last());
        lemma_closed_covers_path(s, n, fl, q);
    }
}

/// How many cells of `s` are marked.
pub open spec fn count_true(s: Seq<bool>) -> int
    decreases s.len(),
{
    if s.len() == 0 {
        0
    } else {
        count_true(s.drop_last()) + if s.last() {
            1int
        } else {
            0int
        }
    }
}

pub proof fn lemma_count_true_bounds(s: Seq<bool>)
    ensures
        0 <= count_true(s) <= s.len(),
    decreases s.len(),
{
    if s.len() > 0 {
        lemma_count_true_bounds(s.drop_last());
    }
}

/// Marks only grow, so the count only grows.
pub proof fn lemma_count_true_monotone(a: Seq<bool>, b: Seq<bool>)
    requires
        a.len() == b.len(),
        forall|j: int| 0 <= j < a.len() && a[j] ==> b[j],
    ensures
        count_true(a) <= count_true(b),
    decreases a.len(),
{
    if a.len() > 0 {
        assert(forall|j: int|
            0 <= j < a.drop_last().len() && a.drop_last()[j] ==> b.drop_last()[j]);
        lemma_count_true_monotone(a.drop_last(), b.drop_last());
    }
}

/// Marking one unmarked cell raises the count by one.
pub proof fn lemma_count_true_update(s: Seq<bool>, j: int)
    requires
        0 <= j < s.len(),
        !s[j],
    ensures
        count_true(s.update(j, true)) == count_true(s) + 1,
    decreases s.len(),
{
    let t = s.update(j, true);
    if j == s.len() - 1 {
        assert(t.drop_last() =~= s.drop_last());
    } else {
        assert(t.drop_last() =~= s.drop_last().update(j, true));
        lemma_count_true_update(s.drop_last(), j);
    }
}

/// Finds the first confirmed ground cell, scanning row by row.
fn first_ground(b: &Board) -> (r: Option<(usize, usize)>)
    requires
        b.wf(),
    ensures
        r matches Some(c) ==> is_tile_at(b@, b.dim() as int, c.0 as int, c.1 as int, Tile::Ground),
        r is None ==> forall|x: int, y: int| !is_tile_at(b@, b.dim() as int, x, y, Tile::Ground),
{
    let n = b.side();
    let ghost nn = b.dim() as int;
    let mut y: usize = 0;
    while y < n
        invariant
            b.wf(),
            n == b.dim(),
            nn == n as int,
            y <= n,
            forall|xx: int, yy: int|
                0 <= yy < y && 0 <= xx < nn ==> !is_tile_at(b@, nn, xx, yy, Tile::Ground),
        decreases n - y,
    {
        let mut x: usize = 0;
        while x < n
            invariant
                b.wf(),
                n == b.dim(),
                nn == n as int,
                y < n,
                x <= n,
                forall|xx: int, yy: int|
                    0 <= yy < y && 0 <= xx < nn ==> !is_tile_at(b@, nn, xx, yy, Tile::Ground),
                forall|xx: int| 0 <= xx < x ==> !is_tile_at(b@, nn, xx, y as int, Tile::Ground),
            decreases n - x,
        {
            if b.get(x, y) == Tile::Ground {
                return Some((x, y));
            }
            x = x + 1;
        }
        y = y + 1;
    }
    proof {
        assert forall|x: int, y2: int| !is_tile_at(b@, nn, x, y2, Tile::Ground) by {
            if in_grid(nn, x, y2) {
                assert(!is_tile_at(b@, nn, x, y2, Tile::Ground));
            }
        }
    }
    None
}

/// Marks every passable unmarked neighbour of the marked cell `i`.
/// Reports whether any mark was added; if none was, the cell is closed.
fn flood_cell(b: &Board, fl: &mut Vec<bool>, i: usize, Ghost(sx): Ghost<int>, Ghost(sy): Ghost<
    int,
>) -> (chg: bool)
    requires
        b.wf(),
        old(fl)@.len() == b.dim() * b.dim(),
        i < b.dim() * b.dim(),
        old(fl)@[i as int],
        forall|j: int|
            0 <= j < old(fl)@.len() && #[trigger] old(fl)@[j] ==> is_passable(
                b@,
                b.dim() as int,
                j % (b.dim() as int),
                j / (b.dim() as int),
            ) && reach(b@, b.dim() as int, sx, sy, j % (b.dim() as int), j / (b.dim() as int)),
    ensures
        final(fl)@.len() == old(fl)@.len(),
        forall|j: int| 0 <= j < old(fl)@.len() && old(fl)@[j] ==> final(fl)@[j],
        forall|j: int|
            0 <= j < final(fl)@.len() && #[trigger] final(fl)@[j] ==> is_passable(
                b@,
                b.dim() as int,
                j % (b.dim() as int),
                j / (b.dim() as int),
            ) && reach(b@, b.dim() as int, sx, sy, j % (b.dim() as int), j / (b.dim() as int)),
        chg ==> count_true(final(fl)@) > count_true(old(fl)@),
        !chg ==> final(fl)@ == old(fl)@,
        !chg ==> cell_closed(
            b@,
            b.dim() as int,
            final(fl)@,
            i as int % (b.dim() as int),
            i as int / (b.dim() as int),
        ),
{
    let n = b.side();
    let ghost nn = b.dim() as int;
    let x = i % n;
    let y = i / n;
    let mut chg = false;
    proof {
        vstd::arithmetic::div_mod::lemma_fundamental_div_mod(i as int, nn);
        assert(y < n) by (nonlinear_arith)
            requires
                nn >= 1,
                i as int == nn * (y as int) + (x as int),
                0 <= (x as int) < nn,
                (i as int) < nn * nn,
                n == nn,
        ;
        assert((y as int) * nn + (x as int) == nn * (y as int) + (x as int)) by (nonlinear_arith);
        assert(i as int == flat(nn, x as int, y as int));
        assert((y as int + 1) * nn == (y as int) * nn + nn) by (nonlinear_arith);
        assert((y as int - 1) * nn == (y as int) * nn - nn) by (nonlinear_arith);
        lemma_flat_coords(nn, x as int, y as int);
    }
    if x + 1 < n {
        proof {
            lemma_flat_bounds(nn, x as int + 1, y as int);
            lemma_flat_coords(nn, x as int + 1, y as int);
            assert(flat(nn, x as int + 1, y as int) == i as int + 1);
        }
        let t = b.get(x + 1, y);
        if (t == Tile::Ground || t == Tile::Unsure) && !fl[i + 1] {
            proof {
                lemma_count_true_monotone(old(fl)@, fl@);
                lemma_count_true_update(fl@, i as int + 1);
                lemma_reach_step(b@, nn, sx, sy, x as int, y as int, x as int + 1, y as int);
            }
            fl.set(i + 1, true);
            chg = true;
        }
    }
    if x > 0 {
        proof {
            lemma_flat_bounds(nn, x as int - 1, y as int);
            lemma_flat_coords(nn, x as int - 1, y as int);
            assert(flat(nn, x as int - 1, y as int) == i as int - 1);
        }
        let t = b.get(x - 1, y);
        if (t == Tile::Ground || t == Tile::Unsure) && !fl[i - 1] {
            proof {
                lemma_count_true_monotone(old(fl)@, fl@);
                lemma_count_true_update(fl@, i as int - 1);
                lemma_reach_step(b@, nn, sx, sy, x as int, y as int, x as int - 1, y as int);
            }
            fl.set(i - 1, true);
            chg = true;
        }
    }
    if y + 1 < n {
        proof {
            lemma_flat_bounds(nn, x as int, y as int + 1);
            lemma_flat_coords(nn, x as int, y as int + 1);
            assert(flat(nn, x as int, y as int + 1) == i as int + nn);
        }
        let t = b.get(x, y + 1);
        if (t == Tile::Ground || t == Tile::Unsure) && !fl[i + n] {
            proof {
                lemma_count_true_monotone(old(fl)@, fl@);
                lemma_count_true_update(fl@, i as int + nn);
                lemma_reach_step(b@, nn, sx, sy, x as int, y as int, x as int, y as int + 1);
            }
            fl.set(i + n, true);
            chg = true;
        }
    }
    if y > 0 {
        proof {
            lemma_flat_bounds(nn, x as int, y as int - 1);
            lemma_flat_coords(nn, x as int, y as int - 1);
            assert(flat(nn, x as int, y as int - 1) == i as int - nn);
        }
        let t = b.get(x, y - 1);
        if (t == Tile::Ground || t == Tile::Unsure) && !fl[i - n] {
            proof {
                lemma_count_true_monotone(old(fl)@, fl@);
                lemma_count_true_update(fl@, i as int - nn);
                lemma_reach_step(b@, nn, sx, sy, x as int, y as int, x as int, y as int - 1);
            }
            fl.set(i - n, true);
            chg = true;
        }
    }
    chg
}

/// Decides whether all confirmed ground cells can reach one another
/// through cells that may still be ground, by flood fill from the first
/// ground cell.
pub fn grounds_connected_check(b: &Board) -> (r: bool)
    requires
        b.wf(),
    ensures
        r == grounds_connected(b@, b.dim() as int),
{
    let n = b.side();
    let ghost nn = b.dim() as int;
    proof {
        lemma_flat_bounds(nn, 0, 0);
    }
    let nsq = n * n;
    let seed_opt = first_ground(b);
    let (sx, sy) = match seed_opt {
        None => {
            proof {
                assert forall|x1: int, y1: int, x2: int, y2: int|
                    is_tile_at(b@, nn, x1, y1, Tile::Ground) && is_tile_at(
                        b@,
                        nn,
                        x2,
                        y2,
                        Tile::Ground,
                    ) implies reach(b@, nn, x1, y1, x2, y2) by {
                    assert(!is_tile_at(b@, nn, x1, y1, Tile::Ground));
                }
            }
            return true;
        },
        Some(c) => c,
    };
    let mut fl: Vec<bool> = Vec::new();
    let mut i: usize = 0;
    while i < nsq
        invariant
            i <= nsq,
            fl@.len() == i,
            forall|j: int| 0 <= j < i ==> !fl@[j],
        decreases nsq - i,
    {
        fl.push(false);
        i = i + 1;
    }
    proof {
        lemma_flat_bounds(nn, sx as int, sy as int);
    }
    fl.set(sy * n + sx, true);
    proof {
        lemma_reach_self(b@, nn, sx as int, sy as int);
        lemma_flat_coords(nn, sx as int, sy as int);
        assert forall|j: int|
            0 <= j < nsq && #[trigger] fl@[j] implies is_passable(b@, nn, j % nn, j / nn) && reach(
            b@,
            nn,
            sx as int,
            sy as int,
            j % nn,
            j / nn,
        ) by {
            assert(j == flat(nn, sx as int, sy as int));
        }
    }
    let mut changed = true;
    while changed
        invariant
            b.wf(),
            n == b.dim(),
            nn == n as int,
            nsq == n * n,
            fl@.len() == nsq,
            sx < n,
            sy < n,
            is_tile_at(b@, nn, sx as int, sy as int, Tile::Ground),
            marked(fl@, nn, sx as int, sy as int),
            forall|j: int|
                0 <= j < nsq && #[trigger] fl@[j] ==> is_passable(b@, nn, j % nn, j / nn) && reach(
                    b@,
                    nn,
                    sx as int,
                    sy as int,
                    j % nn,
                    j / nn,
                ),
            !changed ==> flood_closed(b@, nn, fl@),
        decreases nsq - count_true(fl@), (if changed {
            1int
        } else {
            0int
        }),
    {
        changed = false;
        let ghost fl0 = fl@;
        let mut i: usize = 0;
        while i < nsq
            invariant
                b.wf(),
                n == b.dim(),
                nn == n as int,
                nsq == n * n,
                fl@.len() == nsq,
                i <= nsq,
                sx < n,
                sy < n,
                is_tile_at(b@, nn, sx as int, sy as int, Tile::Ground),
                marked(fl@, nn, sx as int, sy as int),
                forall|j: int|
                    0 <= j < nsq && #[trigger] fl@[j] ==> is_passable(b@, nn, j % nn, j / nn)
                        && reach(b@, nn, sx as int, sy as int, j % nn, j / nn),
                fl0.len() == nsq,
                forall|j: int| 0 <= j < nsq && fl0[j] ==> fl@[j],
                changed ==> count_true(fl@) > count_true(fl0),
                !changed ==> fl@ == fl0,
                !changed ==> forall|x: int, y: int|
                    in_grid(nn, x, y) && flat(nn, x, y) < i && #[trigger] marked(fl@, nn, x, y)
                        ==> cell_closed(b@, nn, fl@, x, y),
            decreases nsq - i,
        {
            if fl[i] {
                let ghost prior = fl@;
                let c = flood_cell(b, &mut fl, i, Ghost(sx as int), Ghost(sy as int));
                proof {
                    lemma_flat_bounds(nn, sx as int, sy as int);
                    if c {
                        lemma_count_true_monotone(fl0, prior);
                    }
                    if !changed && !c {
                        assert forall|x: int, y: int|
                            in_grid(nn, x, y) && flat(nn, x, y) < i + 1 && #[trigger] marked(
                            fl@,
                            nn,
                            x,
                            y,
                        ) implies cell_closed(b@, nn, fl@, x, y) by {
                            lemma_flat_coords(nn, x, y);
                        }
                    }
                }
                if c {
                    changed = true;
                }
            } else {
                proof {
                    if !changed {
                        assert forall|x: int, y: int|
                            in_grid(nn, x, y) && flat(nn, x, y) < i + 1 && #[trigger] marked(
                            fl@,
                            nn,
                            x,
                            y,
                        ) implies cell_closed(b@, nn, fl@, x, y) by {
                            lemma_flat_coords(nn, x, y);
                        }
                    }
                }
            }
            i = i + 1;
        }
        proof {
            lemma_count_true_bounds(fl@);
            if !changed {
                assert forall|x: int, y: int|
                    in_grid(nn, x, y) && #[trigger] marked(fl@, nn, x, y) implies cell_closed(
                    b@,
                    nn,
                    fl@,
                    x,
                    y,
                ) by {
                    lemma_flat_bounds(nn, x, y);
                }
            }
        }
    }
    let mut i: usize = 0;
    while i < nsq
        invariant
            b.wf(),
            n == b.dim(),
            nn == n as int,
            nsq == n * n,
            fl@.len() == nsq,
            i <= nsq,
            sx < n,
            sy < n,
            is_tile_at(b@, nn, sx as int, sy as int, Tile::Ground),
            marked(fl@, nn, sx as int, sy as int),
            flood_closed(b@, nn, fl@),
            forall|j: int|
                0 <= j < nsq && #[trigger] fl@[j] ==> is_passable(b@, nn, j % nn, j / nn) && reach(
                    b@,
                    nn,
                    sx as int,
                    sy as int,
                    j % nn,
                    j / nn,
                ),
            forall|j: int| 0 <= j < i && at(b@, nn, j % nn, j / nn) == Tile::Ground ==> fl@[j],
        decreases nsq - i,
    {
        let x = i % n;
        let y = i / n;
        proof {
            vstd::arithmetic::div_mod::lemma_fundamental_div_mod(i as int, nn);
            assert(y < n) by (nonlinear_arith)
                requires
                    nn >= 1,
                    i as int == nn * (y as int) + (x as int),
                    0 <= (x as int) < nn,
                    (i as int) < nn * nn,
                    n == nn,
                ;
            lemma_flat_coords(nn, x as int, y as int);
        }
        if b.get(x, y) == Tile::Ground && !fl[i] {
            proof {
                assert(!reach(b@, nn, sx as int, sy as int, x as int, y as int)) by {
                    if reach(b@, nn, sx as int, sy as int, x as int, y as int) {
                        let p = choose|p: Seq<(int, int)>|
                            #[trigger] passable_path(b@, nn, p) && p.first() == (
                                sx as int,
                                sy as int,
                            ) && p.last() == (x as int, y as int);
                        lemma_closed_covers_path(b@, nn, fl@, p);
                    }
                }
                assert(is_tile_at(b@, nn, x as int, y as int, Tile::Ground));
            }
            return false;
        }
        i = i + 1;
    }
    proof {
        assert forall|x1: int, y1: int, x2: int, y2: int|
            is_tile_at(b@, nn, x1, y1, Tile::Ground) && is_tile_at(b@, nn, x2, y2, Tile::Ground)
            implies reach(b@, nn, x1, y1, x2, y2) by {
            lemma_flat_bounds(nn, x1, y1);
            lemma_flat_bounds(nn, x2, y2);
            lemma_flat_coords(nn, x1, y1);
            lemma_flat_coords(nn, x2, y2);
            assert(fl@[flat(nn, x1, y1)]);
            assert(fl@[flat(nn, x2, y2)]);
            assert(reach(b@, nn, sx as int, sy as int, x1, y1));
            assert(reach(b@, nn, sx as int, sy as int, x2, y2));
            lemma_reach_symm(b@, nn, sx as int, sy as int, x1, y1);
            lemma_reach_trans(b@, nn, x1, y1, sx as int, sy as int, x2, y2);
        }
    }
    true
}

} // verus!
