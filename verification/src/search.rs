//! The search driver: memoized backtracking over candidate boards.
//!
//! The memo set records every board ever inserted during one search, by
//! structural equality of all cell states; no board is ever stored
//! twice, so no board is ever expanded twice and the search terminates.
//! Candidates are generated, deduplicated against the memo set,
//! validated, propagated to fixpoint, ordered most-determined first,
//! and visited in that order; a fully determined survivor is the
//! solution. Among equally determined candidates the order of
//! generation decides (the sort is stable), which fixes one
//! deterministic visiting order.

use vstd::prelude::*;

verus! {

use crate::board::{
    Board,
    Tile,
    flat,
    is_tile_at,
    count_tile,
    clues_fit,
    collapse_of,
    resolution_of,
    lemma_collapse_of_trans,
    lemma_collapse_count_eq,
    lemma_collapse_unsure_le,
    lemma_collapse_unsure_lt,
    lemma_count_tile_bounds,
    lemma_count_tile_nonzero,
};
use crate::propagate::{pass_once, spec_propagate, collapse_certainties, propagate,
    lemma_pass_once_collapse};
use crate::validate::{spec_feasible, is_possible};
use crate::candidates::{collapse_random, holds_board};
use crate::laws::{
    full_solution,
    lemma_feasible_resolution_back,
    lemma_pass_keeps_solution,
    lemma_resolution_complete_eq,
    lemma_coords_of_index,
    lemma_solved_board_properties,
    lemma_propagate_sound,
};

pub proof fn lemma_prefix_push(a: Seq<Seq<Tile>>, t: Seq<Tile>)
    ensures
        a.is_prefix_of(a.push(t)),
{
    assert(a =~= a.push(t).subrange(0, a.len() as int));
}

pub proof fn lemma_prefix_trans(a: Seq<Seq<Tile>>, b: Seq<Seq<Tile>>, c: Seq<Seq<Tile>>)
    requires
        a.is_prefix_of(b),
        b.is_prefix_of(c),
    ensures
        a.is_prefix_of(c),
{
    assert(a =~= c.subrange(0, a.len() as int));
}

/// The set of all boards seen during one search, keyed by structural
/// equality of the full cell sequence.
pub struct MemoSet {
    items: Vec<Board>,
}

impl View for MemoSet {
    type V = Seq<Seq<Tile>>;

    closed spec fn view(&self) -> Seq<Seq<Tile>> {
        self.items@.map_values(|b: Board| b@)
    }
}

/// Two well-formed boards with the same cells have the same side.
proof fn lemma_dim_from_cells(a: Board, b: Board)
    requires
        a.wf(),
        b.wf(),
        a@ == b@,
    ensures
        a.dim() == b.dim(),
{
    let d1 = a.dim() as int;
    let d2 = b.dim() as int;
    assert(d1 == d2) by (nonlinear_arith)
        requires
            1 <= d1,
            1 <= d2,
            d1 * d1 == d2 * d2,
    ;
}

impl MemoSet {
    /// All stored boards are well formed, and no two are equal: a board
    /// is never inserted twice.
    pub closed spec fn inv(&self) -> bool {
        &&& forall|i: int| 0 <= i < self.items@.len() ==> (#[trigger] self.items@[i]).wf()
        &&& forall|i: int, j: int|
            0 <= i < j < self.items@.len() ==> self.items@[i]@ != self.items@[j]@
    }

    /// A fresh, empty memo set.
    pub fn new() -> (r: MemoSet)
        ensures
            r.inv(),
            r@.len() == 0,
    {
        let r = MemoSet { items: Vec::new() };
        proof {
            assert(r@.len() == 0);
        }
        r
    }

    /// How many distinct boards have been recorded.
    pub fn len(&self) -> (r: usize)
        ensures
            r == self@.len(),
    {
        self.items.len()
    }

    fn contains_board(&self, b: &Board) -> (r: bool)
        requires
            self.inv(),
            b.wf(),
        ensures
            r == self@.contains(b@),
    {
        let mut i: usize = 0;
        while i < self.items.len()
            invariant
                self.inv(),
                b.wf(),
                i <= self.items@.len(),
                forall|j: int| 0 <= j < i ==> self.items@[j]@ != b@,
            decreases self.items@.len() - i,
        {
            if self.items[i].same_board(b) {
                proof {
                    assert(self@[i as int] == b@);
                }
                return true;
            }
            proof {
                if self.items@[i as int]@ == b@ {
                    lemma_dim_from_cells(self.items@[i as int], *b);
                }
            }
            i = i + 1;
        }
        proof {
            if self@.contains(b@) {
                let j = choose|j: int| 0 <= j < self@.len() && self@[j] == b@;
                assert(self.items@[j]@ == b@);
            }
        }
        false
    }

    /// The stored boards are pairwise distinct: a board the set already
    /// holds is never stored again, so no board ever appears twice.
    pub proof fn lemma_distinct(&self)
        requires
            self.inv(),
        ensures
            forall|i: int, j: int| 0 <= i < j < self@.len() ==> self@[i] != self@[j],
    {
    }

    /// Records the board unless an identical board was recorded before.
    /// Returns whether the board was new; an already-present board is
    /// never stored a second time, so the stored boards stay pairwise
    /// distinct.
    pub fn insert(&mut self, b: &Board) -> (r: bool)
        requires
            old(self).inv(),
            b.wf(),
        ensures
            final(self).inv(),
            r == !old(self)@.contains(b@),
            r ==> final(self)@ == old(self)@.push(b@),
            !r ==> final(self)@ == old(self)@,
            final(self)@.contains(b@),
            old(self)@.is_prefix_of(final(self)@),
    {
        if self.contains_board(b) {
            proof {
                assert(self@ =~= old(self)@);
                assert(self@.is_prefix_of(self@));
            }
            return false;
        }
        let d = b.duplicate();
        self.items.push(d);
        proof {
            assert(self@ =~= old(self)@.push(b@));
            let l = old(self).items@.len() as int;
            assert(self.items@[l] == d);
            assert forall|i: int, j: int|
                0 <= i < j < self.items@.len() implies self.items@[i]@ != self.items@[j]@ by {
                if j == l {
                    assert(!old(self)@.contains(b@));
                    assert(old(self)@[i] == self.items@[i]@);
                }
            }
            assert(self@[l] == b@);
            lemma_prefix_push(old(self)@, b@);
        }
        true
    }
}

/// A surviving candidate: well formed, a refinement of the parent with
/// strictly fewer undetermined cells, validated, and at propagation
/// fixpoint.
pub open spec fn surviving(
    c: Board,
    parent: Board,
    cols: Seq<usize>,
    rows: Seq<usize>,
) -> bool {
    &&& c.wf()
    &&& c.dim() == parent.dim()
    &&& collapse_of(parent@, c@)
    &&& count_tile(c@, Tile::Unsure) < count_tile(parent@, Tile::Unsure)
    &&& spec_feasible(c@, parent.dim() as int, cols, rows)
    &&& pass_once(c@, parent.dim() as int, cols, rows) == c@
}

/// Some recorded board that the full solution `f` still resolves has
/// strictly fewer undetermined cells than `bound`.
pub open spec fn resolver_below(ms: Seq<Seq<Tile>>, f: Seq<Tile>, bound: int) -> bool {
    exists|j: int|
        0 <= j < ms.len() && #[trigger] resolution_of(ms[j], f) && count_tile(ms[j], Tile::Unsure)
            < bound
}

/// Every recorded board that a full solution resolves is undercut by a
/// strictly more determined recorded board that the same solution
/// resolves. Iterating the undercutting drives the count of
/// undetermined cells below zero, so such a record can hold no board
/// that any full solution resolves at all.
spec fn memo_self_blocking(
    ms: Seq<Seq<Tile>>,
    n: int,
    cols: Seq<usize>,
    rows: Seq<usize>,
) -> bool {
    forall|i: int, f: Seq<Tile>|
        0 <= i < ms.len() && full_solution(f, n, cols, rows) && #[trigger] resolution_of(ms[i], f)
            ==> resolver_below(ms, f, count_tile(ms[i], Tile::Unsure))
}

/// A candidate not yet reached by the filter commits one undetermined
/// cell of the parent to the value the full solution gives it.
spec fn pending_candidate(cs: Seq<Board>, lo: int, s: Seq<Tile>, f: Seq<Tile>) -> bool {
    exists|k2: int, w: int|
        #![trigger cs[k2], s.update(w, f[w])]
        lo <= k2 < cs.len() && 0 <= w < s.len() && s[w] == Tile::Unsure && cs[k2]@ == s.update(
            w,
            f[w],
        )
}

/// Some board in the list from position `lo` on is resolved by `f` and
/// is at least as determined as `bound`.
spec fn board_refuge(ks: Seq<Board>, lo: int, f: Seq<Tile>, bound: int) -> bool {
    exists|j: int|
        lo <= j < ks.len() && resolution_of((#[trigger] ks[j])@, f) && count_tile(
            ks[j]@,
            Tile::Unsure,
        ) <= bound
}

/// The board appears somewhere in the list.
spec fn board_in(ks: Seq<Board>, b: Board) -> bool {
    exists|a: int| 0 <= a < ks.len() && ks[a] == b
}

proof fn lemma_prefix_index(a: Seq<Seq<Tile>>, b: Seq<Seq<Tile>>, i: int)
    requires
        a.is_prefix_of(b),
        0 <= i < a.len(),
    ensures
        b[i] == a[i],
{
    assert(a[i] == b.subrange(0, a.len() as int)[i]);
}

proof fn lemma_resolver_below_grow(a: Seq<Seq<Tile>>, b: Seq<Seq<Tile>>, f: Seq<Tile>, bound: int)
    requires
        a.is_prefix_of(b),
        resolver_below(a, f, bound),
    ensures
        resolver_below(b, f, bound),
{
    let j = choose|j: int|
        0 <= j < a.len() && #[trigger] resolution_of(a[j], f) && count_tile(a[j], Tile::Unsure)
            < bound;
    lemma_prefix_index(a, b, j);
    assert(resolution_of(b[j], f));
}

proof fn lemma_refuge_push(ks: Seq<Board>, nb: Board, f: Seq<Tile>, bound: int)
    requires
        board_refuge(ks, 0, f, bound),
    ensures
        board_refuge(ks.push(nb), 0, f, bound),
{
    let j = choose|j: int|
        0 <= j < ks.len() && resolution_of((#[trigger] ks[j])@, f) && count_tile(
            ks[j]@,
            Tile::Unsure,
        ) <= bound;
    assert(ks.push(nb)[j] == ks[j]);
    assert(resolution_of((ks.push(nb)[j])@, f));
}

/// A self-blocking record holds no board that `f` resolves with at
/// most `k` undetermined cells.
proof fn lemma_blocking_no_resolver(
    ms: Seq<Seq<Tile>>,
    n: int,
    cols: Seq<usize>,
    rows: Seq<usize>,
    f: Seq<Tile>,
    k: int,
)
    requires
        memo_self_blocking(ms, n, cols, rows),
        full_solution(f, n, cols, rows),
        k >= 0,
    ensures
        forall|i: int|
            0 <= i < ms.len() && #[trigger] resolution_of(ms[i], f) ==> count_tile(
                ms[i],
                Tile::Unsure,
            ) > k,
    decreases k,
{
    assert forall|i: int|
        0 <= i < ms.len() && #[trigger] resolution_of(ms[i], f) implies count_tile(
        ms[i],
        Tile::Unsure,
    ) > k by {
        lemma_count_tile_bounds(ms[i], Tile::Unsure);
        if count_tile(ms[i], Tile::Unsure) <= k {
            if count_tile(ms[i], Tile::Unsure) == 0 {
                lemma_resolution_complete_eq(ms[i], f);
                assert(resolver_below(ms, f, 0));
                let j = choose|j: int|
                    0 <= j < ms.len() && #[trigger] resolution_of(ms[j], f) && count_tile(
                        ms[j],
                        Tile::Unsure,
                    ) < 0;
                lemma_count_tile_bounds(ms[j], Tile::Unsure);
            } else {
                lemma_blocking_no_resolver(ms, n, cols, rows, f, k - 1);
                assert(resolver_below(ms, f, count_tile(ms[i], Tile::Unsure)));
                let j = choose|j: int|
                    0 <= j < ms.len() && #[trigger] resolution_of(ms[j], f) && count_tile(
                        ms[j],
                        Tile::Unsure,
                    ) < count_tile(ms[i], Tile::Unsure);
                assert(count_tile(ms[j], Tile::Unsure) > k - 1);
            }
        }
    }
}

/// One record either already undercuts itself, is sheltered by a kept
/// survivor, or is the parent board itself.
spec fn covered(ms: Seq<Seq<Tile>>, i: int, f: Seq<Tile>, ks: Seq<Board>, parent: Seq<Tile>) -> bool {
    ||| resolver_below(ms, f, count_tile(ms[i], Tile::Unsure))
    ||| board_refuge(ks, 0, f, count_tile(ms[i], Tile::Unsure))
    ||| (resolution_of(parent, f) && count_tile(ms[i], Tile::Unsure) == count_tile(
        parent,
        Tile::Unsure,
    ))
}

/// Every record from `lo` on is covered.
spec fn records_covered(
    ms: Seq<Seq<Tile>>,
    lo: int,
    ks: Seq<Board>,
    parent: Seq<Tile>,
    n: int,
    cols: Seq<usize>,
    rows: Seq<usize>,
) -> bool {
    forall|i: int, f: Seq<Tile>|
        lo <= i < ms.len() && full_solution(f, n, cols, rows) && #[trigger] resolution_of(
            ms[i],
            f,
        ) ==> covered(ms, i, f, ks, parent)
}

/// Runs one candidate through the record, the validator and the
/// propagation chain. Returns the surviving fixpoint, or `None` if the
/// candidate was seen before or failed validation somewhere along the
/// chain. Every full solution that resolves a board recorded here
/// stays covered: undercut by the record, sheltered by a kept survivor
/// in `ks`, by the returned survivor, or equal in progress to the
/// parent.
#[verifier::rlimit(100)]
#[verifier::spinoff_prover]
fn process_candidate(
    matrix: &Board,
    nums_columns: &Vec<usize>,
    nums_rows: &Vec<usize>,
    past_matrices: &mut MemoSet,
    cand: &Board,
    Ghost(lo): Ghost<int>,
    Ghost(ks): Ghost<Seq<Board>>,
) -> (r: Option<Board>)
    requires
        matrix.wf(),
        clues_fit(nums_columns@, nums_rows@, matrix.dim()),
        old(past_matrices).inv(),
        0 <= lo <= old(past_matrices)@.len(),
        cand.wf(),
        cand.dim() == matrix.dim(),
        collapse_of(matrix@, cand@),
        records_covered(
            old(past_matrices)@,
            lo,
            ks,
            matrix@,
            matrix.dim() as int,
            nums_columns@,
            nums_rows@,
        ),
    ensures
        final(past_matrices).inv(),
        old(past_matrices)@.is_prefix_of(final(past_matrices)@),
        final(past_matrices)@.contains(cand@),
        r matches Some(s) ==> s.wf() && s.dim() == matrix.dim() && collapse_of(matrix@, s@)
            && count_tile(s@, Tile::Unsure) <= count_tile(matrix@, Tile::Unsure) && spec_feasible(
            s@,
            matrix.dim() as int,
            nums_columns@,
            nums_rows@,
        ) && pass_once(s@, matrix.dim() as int, nums_columns@, nums_rows@) == s@ && (forall|
            i: int,
            f: Seq<Tile>,
        |
            lo <= i < final(past_matrices)@.len() && full_solution(
                f,
                matrix.dim() as int,
                nums_columns@,
                nums_rows@,
            ) && #[trigger] resolution_of(final(past_matrices)@[i], f) ==> covered(
                final(past_matrices)@,
                i,
                f,
                ks,
                matrix@,
            ) || (resolution_of(s@, f) && count_tile(s@, Tile::Unsure) <= count_tile(
                final(past_matrices)@[i],
                Tile::Unsure,
            ) && count_tile(final(past_matrices)@[i], Tile::Unsure) <= count_tile(
                matrix@,
                Tile::Unsure,
            ))),
        r is None ==> records_covered(
            final(past_matrices)@,
            lo,
            ks,
            matrix@,
            matrix.dim() as int,
            nums_columns@,
            nums_rows@,
        ),
{
    let ghost nn = matrix.dim() as int;
    let ghost memo0 = past_matrices@;
    let ghost parent_cnt = count_tile(matrix@, Tile::Unsure);
    let mut c = cand.duplicate();
    let ghost cand_view = c@;
    proof {
        lemma_collapse_unsure_le(matrix@, c@);
    }
    let mut dead = false;
    let mut fixed = false;
    while !dead && !fixed
        invariant
            matrix.wf(),
            nn == matrix.dim() as int,
            clues_fit(nums_columns@, nums_rows@, matrix.dim()),
            parent_cnt == count_tile(matrix@, Tile::Unsure),
            0 <= lo <= memo0.len(),
            c.wf(),
            c.dim() == matrix.dim(),
            collapse_of(matrix@, c@),
            count_tile(c@, Tile::Unsure) <= parent_cnt,
            past_matrices.inv(),
            memo0.is_prefix_of(past_matrices@),
            fixed ==> pass_once(c@, nn, nums_columns@, nums_rows@) == c@ && spec_feasible(
                c@,
                nn,
                nums_columns@,
                nums_rows@,
            ),
            past_matrices@.contains(cand_view) || (!dead && !fixed && c@ == cand_view),
            dead ==> past_matrices@.contains(cand_view),
            fixed ==> past_matrices@.contains(cand_view) && past_matrices@.contains(c@),
            forall|i: int, f: Seq<Tile>|
                lo <= i < past_matrices@.len() && full_solution(f, nn, nums_columns@, nums_rows@)
                    && #[trigger] resolution_of(past_matrices@[i], f) ==> covered(
                    past_matrices@,
                    i,
                    f,
                    ks,
                    matrix@,
                ) || (!dead && resolution_of(c@, f) && count_tile(c@, Tile::Unsure) < count_tile(
                    past_matrices@[i],
                    Tile::Unsure,
                ) && count_tile(past_matrices@[i], Tile::Unsure) <= parent_cnt) || (fixed
                    && past_matrices@[i] == c@ && count_tile(past_matrices@[i], Tile::Unsure)
                    <= parent_cnt),
        decreases count_tile(c@, Tile::Unsure), (if dead || fixed {
            0int
        } else {
            1int
        }),
    {
        proof {
            lemma_count_tile_bounds(c@, Tile::Unsure);
        }
        let ghost memo_pre = past_matrices@;
        let fresh = past_matrices.insert(&c);
        proof {
            lemma_prefix_trans(memo0, memo_pre, past_matrices@);
            // older records keep their standing as the record grows
            assert forall|i: int, f: Seq<Tile>|
                lo <= i < memo_pre.len() && full_solution(f, nn, nums_columns@, nums_rows@)
                    && #[trigger] resolution_of(past_matrices@[i], f) implies covered(
                past_matrices@,
                i,
                f,
                ks,
                matrix@,
            ) || (resolution_of(c@, f) && count_tile(c@, Tile::Unsure) < count_tile(
                past_matrices@[i],
                Tile::Unsure,
            ) && count_tile(past_matrices@[i], Tile::Unsure) <= parent_cnt) by {
                lemma_prefix_index(memo_pre, past_matrices@, i);
                if resolver_below(memo_pre, f, count_tile(memo_pre[i], Tile::Unsure)) {
                    lemma_resolver_below_grow(
                        memo_pre,
                        past_matrices@,
                        f,
                        count_tile(memo_pre[i], Tile::Unsure),
                    );
                }
            }
        }
        if !fresh {
            proof {
                // the head was recorded before: boards deferring to it
                // strictly are undercut by that record
                let jb = choose|j: int| 0 <= j < past_matrices@.len() && past_matrices@[j] == c@;
                assert forall|f: Seq<Tile>|
                    full_solution(f, nn, nums_columns@, nums_rows@) && resolution_of(c@, f)
                    implies resolution_of(past_matrices@[jb], f) by {}
            }
            dead = true;
        } else if !is_possible(&c, nums_columns, nums_rows) {
            proof {
                // an infeasible head is resolved by no full solution,
                // so every deferral to it is vacuous
                assert forall|f: Seq<Tile>|
                    full_solution(f, nn, nums_columns@, nums_rows@) implies !resolution_of(
                    c@,
                    f,
                ) by {
                    if resolution_of(c@, f) {
                        lemma_feasible_resolution_back(c@, f, nn, nums_columns@, nums_rows@);
                    }
                }
            }
            dead = true;
        } else {
            let pre = c.count_total(Tile::Unsure);
            let ghost cprev = c@;
            collapse_certainties(&mut c, nums_columns, nums_rows);
            let post = c.count_total(Tile::Unsure);
            proof {
                lemma_pass_once_collapse(cprev, nn, nums_columns@, nums_rows@);
                lemma_collapse_of_trans(matrix@, cprev, c@);
                lemma_collapse_unsure_le(cprev, c@);
                // the pass keeps every full solution: deferrals follow
                // the head forward
                assert forall|f: Seq<Tile>|
                    full_solution(f, nn, nums_columns@, nums_rows@) && resolution_of(cprev, f)
                    implies resolution_of(c@, f) by {
                    lemma_pass_keeps_solution(cprev, f, nn, nums_columns@, nums_rows@);
                }
            }
            if post == pre {
                proof {
                    lemma_collapse_count_eq(cprev, c@);
                }
                fixed = true;
            }
        }
    }
    if fixed {
        Some(c)
    } else {
        None
    }
}

/// The recursive backtracking search. Generates the parent's
/// candidates; each one is recorded in the memo set (candidates seen
/// before are discarded without a second insertion), validated,
/// propagated to fixpoint, and dropped unless it determined at least
/// one more cell than the parent; survivors are visited
/// most-determined first. A fully determined survivor is returned at
/// once; otherwise the search recurses and the first success is
/// propagated upward. `None` means the frontier was exhausted: the
/// last two clauses then say that every full solution of this board
/// was already pinned by a strictly more determined recorded board,
/// and that the boards recorded by this call are themselves undercut
/// the same way — so that, with an initially empty record, no full
/// solution exists at all.
#[verifier::rlimit(100)]
#[verifier::spinoff_prover]
pub fn solve(
    matrix: &Board,
    nums_columns: &Vec<usize>,
    nums_rows: &Vec<usize>,
    past_matrices: &mut MemoSet,
) -> (r: Option<Board>)
    requires
        matrix.wf(),
        clues_fit(nums_columns@, nums_rows@, matrix.dim()),
        count_tile(matrix@, Tile::Unsure) >= 1,
        old(past_matrices).inv(),
    ensures
        final(past_matrices).inv(),
        old(past_matrices)@.is_prefix_of(final(past_matrices)@),
        r matches Some(b) ==> b.wf() && b.dim() == matrix.dim() && collapse_of(matrix@, b@)
            && count_tile(b@, Tile::Unsure) == 0 && spec_feasible(
            b@,
            matrix.dim() as int,
            nums_columns@,
            nums_rows@,
        ) && pass_once(b@, matrix.dim() as int, nums_columns@, nums_rows@) == b@,
        r is None ==> forall|f: Seq<Tile>|
            full_solution(f, matrix.dim() as int, nums_columns@, nums_rows@)
                && #[trigger] resolution_of(matrix@, f) ==> resolver_below(
                final(past_matrices)@,
                f,
                count_tile(matrix@, Tile::Unsure),
            ),
        r is None ==> forall|i: int, f: Seq<Tile>|
            old(past_matrices)@.len() <= i < final(past_matrices)@.len() && full_solution(
                f,
                matrix.dim() as int,
                nums_columns@,
                nums_rows@,
            ) && #[trigger] resolution_of(final(past_matrices)@[i], f) ==> resolver_below(
                final(past_matrices)@,
                f,
                count_tile(final(past_matrices)@[i], Tile::Unsure),
            ),
    decreases count_tile(matrix@, Tile::Unsure),
{
    let ghost nn = matrix.dim() as int;
    let ghost memo0 = past_matrices@;
    let parent_unsure = matrix.count_total(Tile::Unsure);
    let cands = collapse_random(matrix);
    proof {
        // every full solution of this board is pinned by one of the
        // single-cell candidates
        assert forall|f: Seq<Tile>|
            full_solution(f, nn, nums_columns@, nums_rows@) && #[trigger] resolution_of(matrix@, f)
            implies pending_candidate(cands@, 0, matrix@, f) by {
            lemma_count_tile_nonzero(matrix@, Tile::Unsure);
            let w = choose|h: int| 0 <= h < matrix@.len() && matrix@[h] == Tile::Unsure;
            lemma_coords_of_index(nn, w);
            let x = w % nn;
            let y = w / nn;
            assert(is_tile_at(matrix@, nn, x, y, Tile::Unsure));
            assert(holds_board(cands@, matrix@.update(flat(nn, x, y), Tile::Ground)));
            assert(holds_board(cands@, matrix@.update(flat(nn, x, y), Tile::Wall)));
            assert(flat(nn, x, y) == w);
            if f[w] == Tile::Ground {
                let k2 = choose|k: int|
                    0 <= k < cands@.len() && (#[trigger] cands@[k])@ == matrix@.update(
                        w,
                        Tile::Ground,
                    );
                assert(cands@[k2]@ == matrix@.update(w, f[w]));
            } else {
                let k2 = choose|k: int|
                    0 <= k < cands@.len() && (#[trigger] cands@[k])@ == matrix@.update(
                        w,
                        Tile::Wall,
                    );
                assert(cands@[k2]@ == matrix@.update(w, f[w]));
            }
        }
    }
    let mut kept: Vec<Board> = Vec::new();
    let mut idx: usize = 0;
    while idx < cands.len()
        invariant
            matrix.wf(),
            nn == matrix.dim() as int,
            clues_fit(nums_columns@, nums_rows@, matrix.dim()),
            parent_unsure == count_tile(matrix@, Tile::Unsure),
            parent_unsure >= 1,
            idx <= cands@.len(),
            forall|k: int|
                0 <= k < cands@.len() ==> (#[trigger] cands@[k]).wf() && cands@[k].dim()
                    == matrix.dim() && collapse_of(matrix@, cands@[k]@),
            past_matrices.inv(),
            memo0.is_prefix_of(past_matrices@),
            forall|k: int|
                0 <= k < kept@.len() ==> surviving(
                    #[trigger] kept@[k],
                    *matrix,
                    nums_columns@,
                    nums_rows@,
                ),
            forall|f: Seq<Tile>|
                full_solution(f, nn, nums_columns@, nums_rows@) && #[trigger] resolution_of(
                    matrix@,
                    f,
                ) ==> resolver_below(past_matrices@, f, parent_unsure as int) || pending_candidate(
                    cands@,
                    idx as int,
                    matrix@,
                    f,
                ),
            records_covered(
                past_matrices@,
                memo0.len() as int,
                kept@,
                matrix@,
                nn,
                nums_columns@,
                nums_rows@,
            ),
        decreases cands@.len() - idx,
    {
        let ghost memo_iter = past_matrices@;
        let ghost kept0 = kept@;
        let cand = &cands[idx];
        let survivor = process_candidate(
            matrix,
            nums_columns,
            nums_rows,
            past_matrices,
            cand,
            Ghost(memo0.len() as int),
            Ghost(kept@),
        );
        proof {
            lemma_prefix_trans(memo0, memo_iter, past_matrices@);
        }
        match survivor {
            Some(c) => {
                let cnt = c.count_total(Tile::Unsure);
                if cnt < parent_unsure {
                    proof {
                        assert(surviving(c, *matrix, nums_columns@, nums_rows@));
                    }
                    kept.push(c);
                    proof {
                        assert(kept@[kept@.len() - 1] == c);
                        // the survivor shelters its own resolutions and
                        // those of every board that deferred to it
                        assert forall|i: int, f: Seq<Tile>|
                            memo0.len() <= i < past_matrices@.len() && full_solution(
                                f,
                                nn,
                                nums_columns@,
                                nums_rows@,
                            ) && #[trigger] resolution_of(past_matrices@[i], f) implies covered(
                            past_matrices@,
                            i,
                            f,
                            kept@,
                            matrix@,
                        ) by {
                            if board_refuge(
                                kept0,
                                0,
                                f,
                                count_tile(past_matrices@[i], Tile::Unsure),
                            ) {
                                lemma_refuge_push(
                                    kept0,
                                    c,
                                    f,
                                    count_tile(past_matrices@[i], Tile::Unsure),
                                );
                            }
                            if resolution_of(c@, f) && count_tile(c@, Tile::Unsure) <= count_tile(
                                past_matrices@[i],
                                Tile::Unsure,
                            ) {
                                assert(resolution_of((kept@[kept@.len() - 1])@, f));
                                assert(board_refuge(
                                    kept@,
                                    0,
                                    f,
                                    count_tile(past_matrices@[i], Tile::Unsure),
                                ));
                            }
                        }
                    }
                } else {
                    proof {
                        // no cell was resolved beyond the parent: the
                        // survivor is the parent itself
                        lemma_collapse_unsure_le(matrix@, c@);
                        lemma_collapse_count_eq(matrix@, c@);
                        assert(c@ == matrix@);
                        assert forall|i: int, f: Seq<Tile>|
                            memo0.len() <= i < past_matrices@.len() && full_solution(
                                f,
                                nn,
                                nums_columns@,
                                nums_rows@,
                            ) && #[trigger] resolution_of(past_matrices@[i], f) implies covered(
                            past_matrices@,
                            i,
                            f,
                            kept@,
                            matrix@,
                        ) by {}
                    }
                }
            },
            None => {},
        }
        proof {
            // the candidate of this round is recorded now; if it was a
            // full solution's single-cell commitment, that solution is
            // pinned by the record
            assert(past_matrices@.contains(cand@));
            assert forall|f: Seq<Tile>|
                full_solution(f, nn, nums_columns@, nums_rows@) && #[trigger] resolution_of(
                    matrix@,
                    f,
                ) implies resolver_below(past_matrices@, f, parent_unsure as int)
                || pending_candidate(cands@, idx as int + 1, matrix@, f) by {
                if resolver_below(memo_iter, f, parent_unsure as int) {
                    lemma_resolver_below_grow(memo_iter, past_matrices@, f, parent_unsure as int);
                } else {
                    assert(pending_candidate(cands@, idx as int, matrix@, f));
                    let (k2, w) = choose|k2: int, w: int|
                        #![trigger cands@[k2], matrix@.update(w, f[w])]
                        idx <= k2 < cands@.len() && 0 <= w < matrix@.len() && matrix@[w]
                            == Tile::Unsure && cands@[k2]@ == matrix@.update(w, f[w]);
                    if k2 == idx {
                        let jb = choose|j: int|
                            0 <= j < past_matrices@.len() && past_matrices@[j] == cand@;
                        crate::board::lemma_count_tile_zero(f, Tile::Unsure);
                        assert(resolution_of(cand@, f));
                        assert(collapse_of(matrix@, cand@));
                        lemma_collapse_unsure_lt(matrix@, cand@, w);
                        assert(resolution_of(past_matrices@[jb], f));
                        assert(resolver_below(past_matrices@, f, parent_unsure as int));
                    } else {
                        assert(pending_candidate(cands@, idx as int + 1, matrix@, f));
                    }
                }
            }
        }
        idx = idx + 1;
    }
    proof {
        // the filter is done: every full solution of this board is now
        // pinned by the record
        assert forall|f: Seq<Tile>|
            full_solution(f, nn, nums_columns@, nums_rows@) && #[trigger] resolution_of(matrix@, f)
            implies resolver_below(past_matrices@, f, parent_unsure as int) by {
            if pending_candidate(cands@, cands@.len() as int, matrix@, f) {
                let (k2, w) = choose|k2: int, w: int|
                    #![trigger cands@[k2], matrix@.update(w, f[w])]
                    cands@.len() <= k2 < cands@.len() && 0 <= w < matrix@.len() && matrix@[w]
                        == Tile::Unsure && cands@[k2]@ == matrix@.update(w, f[w]);
            }
        }
    }
    let ghost keptsnap = kept@;
    let mut src = kept;
    let mut sorted: Vec<Board> = Vec::new();
    proof {
        assert forall|j: int| #![trigger keptsnap[j]] 0 <= j < keptsnap.len() implies board_in(
            sorted@,
            keptsnap[j],
        ) || board_in(src@, keptsnap[j]) by {
            assert(src@[j] == keptsnap[j]);
            assert(board_in(src@, keptsnap[j]));
        }
    }
    while src.len() > 0
        invariant
            matrix.wf(),
            nn == matrix.dim() as int,
            clues_fit(nums_columns@, nums_rows@, matrix.dim()),
            forall|j: int|
                0 <= j < src@.len() ==> surviving(
                    #[trigger] src@[j],
                    *matrix,
                    nums_columns@,
                    nums_rows@,
                ),
            forall|j: int|
                0 <= j < sorted@.len() ==> surviving(
                    #[trigger] sorted@[j],
                    *matrix,
                    nums_columns@,
                    nums_rows@,
                ),
            forall|a: int, b: int|
                0 <= a <= b < sorted@.len() ==> count_tile((#[trigger] sorted@[a])@, Tile::Unsure)
                    <= count_tile((#[trigger] sorted@[b])@, Tile::Unsure),
            forall|a: int, k: int|
                0 <= a < sorted@.len() && 0 <= k < src@.len() ==> count_tile(
                    (#[trigger] sorted@[a])@,
                    Tile::Unsure,
                ) <= count_tile((#[trigger] src@[k])@, Tile::Unsure),
            forall|j: int|
                #![trigger keptsnap[j]]
                0 <= j < keptsnap.len() ==> board_in(sorted@, keptsnap[j]) || board_in(
                    src@,
                    keptsnap[j],
                ),
        decreases src@.len(),
    {
        let mut best: usize = 0;
        let mut best_cnt = src[0].count_total(Tile::Unsure);
        let mut i: usize = 1;
        while i < src.len()
            invariant
                matrix.wf(),
                nn == matrix.dim() as int,
                clues_fit(nums_columns@, nums_rows@, matrix.dim()),
                forall|j: int|
                    0 <= j < src@.len() ==> surviving(
                        #[trigger] src@[j],
                        *matrix,
                        nums_columns@,
                        nums_rows@,
                    ),
                src@.len() > 0,
                best < i,
                i <= src@.len(),
                best_cnt == count_tile(src@[best as int]@, Tile::Unsure),
                forall|j: int|
                    0 <= j < i ==> best_cnt <= count_tile((#[trigger] src@[j])@, Tile::Unsure),
            decreases src@.len() - i,
        {
            let c = src[i].count_total(Tile::Unsure);
            if c < best_cnt {
                best = i;
                best_cnt = c;
            }
            i = i + 1;
        }
        let ghost src0 = src@;
        let ghost sorted0 = sorted@;
        let m = src.remove(best);
        sorted.push(m);
        proof {
            assert forall|j: int| 0 <= j < src@.len() implies surviving(
                #[trigger] src@[j],
                *matrix,
                nums_columns@,
                nums_rows@,
            ) && count_tile((src@[j])@, Tile::Unsure) >= best_cnt by {
                if j < best {
                    assert(src@[j] == src0[j]);
                } else {
                    assert(src@[j] == src0[j + 1]);
                }
            }
            assert(sorted@[sorted@.len() - 1] == src0[best as int]);
            assert forall|a: int, b: int|
                0 <= a <= b < sorted@.len() implies count_tile(
                (#[trigger] sorted@[a])@,
                Tile::Unsure,
            ) <= count_tile((#[trigger] sorted@[b])@, Tile::Unsure) by {
                if b < sorted0.len() {
                    assert(sorted@[a] == sorted0[a]);
                    assert(sorted@[b] == sorted0[b]);
                } else if a < sorted0.len() {
                    assert(sorted@[a] == sorted0[a]);
                }
            }
            assert forall|j: int| #![trigger keptsnap[j]] 0 <= j < keptsnap.len() implies board_in(
                sorted@,
                keptsnap[j],
            ) || board_in(src@, keptsnap[j]) by {
                if board_in(sorted0, keptsnap[j]) {
                    let a = choose|a: int| 0 <= a < sorted0.len() && sorted0[a] == keptsnap[j];
                    assert(sorted@[a] == keptsnap[j]);
                    assert(board_in(sorted@, keptsnap[j]));
                } else {
                    assert(board_in(src0, keptsnap[j]));
                    let i2 = choose|i2: int| 0 <= i2 < src0.len() && src0[i2] == keptsnap[j];
                    if i2 == best {
                        assert(sorted@[sorted@.len() - 1] == keptsnap[j]);
                        assert(board_in(sorted@, keptsnap[j]));
                    } else if i2 < best {
                        assert(src@[i2] == keptsnap[j]);
                        assert(board_in(src@, keptsnap[j]));
                    } else {
                        assert(src@[i2 - 1] == keptsnap[j]);
                        assert(board_in(src@, keptsnap[j]));
                    }
                }
            }
        }
    }
    // survivors stand most-determined first: the certainty order that
    // the search visits
    proof {
        assert(forall|a: int, b: int|
            0 <= a <= b < sorted@.len() ==> count_tile((#[trigger] sorted@[a])@, Tile::Unsure)
                <= count_tile((#[trigger] sorted@[b])@, Tile::Unsure));
        // shelter in the kept survivors becomes shelter in the sorted
        // survivors: sorting loses none of them
        assert forall|i: int, f: Seq<Tile>|
            memo0.len() <= i < past_matrices@.len() && full_solution(
                f,
                nn,
                nums_columns@,
                nums_rows@,
            ) && #[trigger] resolution_of(past_matrices@[i], f) implies resolver_below(
            past_matrices@,
            f,
            count_tile(past_matrices@[i], Tile::Unsure),
        ) || board_refuge(sorted@, 0, f, count_tile(past_matrices@[i], Tile::Unsure)) || (
        resolution_of(matrix@, f) && count_tile(past_matrices@[i], Tile::Unsure)
            == parent_unsure as int) by {
            assert(covered(past_matrices@, i, f, keptsnap, matrix@));
            if board_refuge(keptsnap, 0, f, count_tile(past_matrices@[i], Tile::Unsure)) {
                let j = choose|j: int|
                    0 <= j < keptsnap.len() && resolution_of((#[trigger] keptsnap[j])@, f)
                        && count_tile(keptsnap[j]@, Tile::Unsure) <= count_tile(
                        past_matrices@[i],
                        Tile::Unsure,
                    );
                assert(board_in(sorted@, keptsnap[j]));
                let a = choose|a: int| 0 <= a < sorted@.len() && sorted@[a] == keptsnap[j];
                assert(resolution_of((sorted@[a])@, f));
                assert(board_refuge(sorted@, 0, f, count_tile(past_matrices@[i], Tile::Unsure)));
            }
        }
    }
    let mut k: usize = 0;
    while k < sorted.len()
        invariant
            matrix.wf(),
            nn == matrix.dim() as int,
            clues_fit(nums_columns@, nums_rows@, matrix.dim()),
            memo0 == old(past_matrices)@,
            parent_unsure == count_tile(matrix@, Tile::Unsure),
            parent_unsure >= 1,
            k <= sorted@.len(),
            forall|j: int|
                0 <= j < sorted@.len() ==> surviving(
                    #[trigger] sorted@[j],
                    *matrix,
                    nums_columns@,
                    nums_rows@,
                ),
            past_matrices.inv(),
            memo0.is_prefix_of(past_matrices@),
            forall|f: Seq<Tile>|
                full_solution(f, nn, nums_columns@, nums_rows@) && #[trigger] resolution_of(
                    matrix@,
                    f,
                ) ==> resolver_below(past_matrices@, f, parent_unsure as int),
            forall|i: int, f: Seq<Tile>|
                memo0.len() <= i < past_matrices@.len() && full_solution(
                    f,
                    nn,
                    nums_columns@,
                    nums_rows@,
                ) && #[trigger] resolution_of(past_matrices@[i], f) ==> resolver_below(
                    past_matrices@,
                    f,
                    count_tile(past_matrices@[i], Tile::Unsure),
                ) || board_refuge(sorted@, k as int, f, count_tile(past_matrices@[i], Tile::Unsure))
                    || (resolution_of(matrix@, f) && count_tile(past_matrices@[i], Tile::Unsure)
                    == parent_unsure as int),
        decreases sorted@.len() - k,
    {
        let cur = &sorted[k];
        proof {
            assert(surviving(sorted@[k as int], *matrix, nums_columns@, nums_rows@));
        }
        if cur.count_total(Tile::Unsure) == 0 {
            return Some(cur.duplicate());
        }
        let ghost memo_pre = past_matrices@;
        let sol = solve(cur, nums_columns, nums_rows, past_matrices);
        proof {
            lemma_prefix_trans(memo0, memo_pre, past_matrices@);
        }
        match sol {
            Some(s) => {
                proof {
                    lemma_collapse_of_trans(matrix@, cur@, s@);
                }
                return Some(s);
            },
            None => {},
        }
        proof {
            // the visited survivor failed: its resolutions are now
            // undercut by its own recursion's record
            assert forall|f: Seq<Tile>|
                full_solution(f, nn, nums_columns@, nums_rows@) && #[trigger] resolution_of(
                    matrix@,
                    f,
                ) implies resolver_below(past_matrices@, f, parent_unsure as int) by {
                lemma_resolver_below_grow(memo_pre, past_matrices@, f, parent_unsure as int);
            }
            assert forall|i: int, f: Seq<Tile>|
                memo0.len() <= i < past_matrices@.len() && full_solution(
                    f,
                    nn,
                    nums_columns@,
                    nums_rows@,
                ) && #[trigger] resolution_of(past_matrices@[i], f) implies resolver_below(
                past_matrices@,
                f,
                count_tile(past_matrices@[i], Tile::Unsure),
            ) || board_refuge(
                sorted@,
                k as int + 1,
                f,
                count_tile(past_matrices@[i], Tile::Unsure),
            ) || (resolution_of(matrix@, f) && count_tile(past_matrices@[i], Tile::Unsure)
                == parent_unsure as int) by {
                if i < memo_pre.len() {
                    lemma_prefix_index(memo_pre, past_matrices@, i);
                    if resolver_below(memo_pre, f, count_tile(memo_pre[i], Tile::Unsure)) {
                        lemma_resolver_below_grow(
                            memo_pre,
                            past_matrices@,
                            f,
                            count_tile(memo_pre[i], Tile::Unsure),
                        );
                    } else if board_refuge(
                        sorted@,
                        k as int,
                        f,
                        count_tile(memo_pre[i], Tile::Unsure),
                    ) {
                        let j = choose|j: int|
                            k as int <= j < sorted@.len() && resolution_of(
                                (#[trigger] sorted@[j])@,
                                f,
                            ) && count_tile(sorted@[j]@, Tile::Unsure) <= count_tile(
                                memo_pre[i],
                                Tile::Unsure,
                            );
                        if j == k as int {
                            // the recursion on this survivor pinned f
                            // strictly deeper
                            assert(resolution_of(sorted@[k as int]@, f));
                            assert(resolver_below(
                                past_matrices@,
                                f,
                                count_tile(sorted@[k as int]@, Tile::Unsure),
                            ));
                        }
                    }
                }
            }
        }
        k = k + 1;
    }
    proof {
        // nothing worked: every board recorded by this call is undercut
        // by the record, and every full solution of this board is
        // pinned strictly below it
        assert forall|i: int, f: Seq<Tile>|
            memo0.len() <= i < past_matrices@.len() && full_solution(
                f,
                nn,
                nums_columns@,
                nums_rows@,
            ) && #[trigger] resolution_of(past_matrices@[i], f) implies resolver_below(
            past_matrices@,
            f,
            count_tile(past_matrices@[i], Tile::Unsure),
        ) by {
            if resolution_of(matrix@, f) && count_tile(past_matrices@[i], Tile::Unsure)
                == parent_unsure as int {
            }
        }
    }
    None
}

/// The top-level entry point for one observed board: propagation
/// first, then search only if undetermined cells remain. When the
/// clues alone drive propagation to a fully determined board, that
/// board is returned as it stands and the memo set is never touched —
/// the candidate generator is not invoked at all. Started with an
/// empty memo set, the solver succeeds whenever a full solution
/// exists: a fully determined board the validator accepts, resolving
/// the observation, with at least two ground cells.
#[verifier::spinoff_prover]
pub fn solve_observation(
    matrix: &Board,
    nums_columns: &Vec<usize>,
    nums_rows: &Vec<usize>,
    past_matrices: &mut MemoSet,
) -> (r: Option<Board>)
    requires
        matrix.wf(),
        clues_fit(nums_columns@, nums_rows@, matrix.dim()),
        old(past_matrices).inv(),
    ensures
        final(past_matrices).inv(),
        old(past_matrices)@.is_prefix_of(final(past_matrices)@),
        r matches Some(b) ==> b.wf() && b.dim() == matrix.dim() && collapse_of(matrix@, b@)
            && count_tile(b@, Tile::Unsure) == 0 && pass_once(
            b@,
            matrix.dim() as int,
            nums_columns@,
            nums_rows@,
        ) == b@,
        count_tile(
            spec_propagate(matrix@, matrix.dim() as int, nums_columns@, nums_rows@),
            Tile::Unsure,
        ) == 0 ==> (r matches Some(b) && b@ == spec_propagate(
            matrix@,
            matrix.dim() as int,
            nums_columns@,
            nums_rows@,
        ) && final(past_matrices)@ == old(past_matrices)@),
        count_tile(
            spec_propagate(matrix@, matrix.dim() as int, nums_columns@, nums_rows@),
            Tile::Unsure,
        ) != 0 ==> (r matches Some(b) ==> spec_feasible(
            b@,
            matrix.dim() as int,
            nums_columns@,
            nums_rows@,
        )),
        (old(past_matrices)@.len() == 0 && exists|f: Seq<Tile>|
            full_solution(f, matrix.dim() as int, nums_columns@, nums_rows@)
                && #[trigger] resolution_of(matrix@, f)) ==> r is Some,
{
    let ghost nn = matrix.dim() as int;
    let p = propagate(matrix, nums_columns, nums_rows);
    if p.count_total(Tile::Unsure) == 0 {
        proof {
            assert(past_matrices@.is_prefix_of(past_matrices@));
        }
        Some(p)
    } else {
        let sol = solve(&p, nums_columns, nums_rows, past_matrices);
        match sol {
            Some(s) => {
                proof {
                    lemma_collapse_of_trans(matrix@, p@, s@);
                }
                Some(s)
            },
            None => {
                proof {
                    // with an empty memo at the start, the record is
                    // self-blocking, so it pins no full solution; yet
                    // any full solution of the observation would have
                    // been pinned. None is returned only when no full
                    // solution exists.
                    if old(past_matrices)@.len() == 0 {
                        assert forall|f: Seq<Tile>|
                            full_solution(f, nn, nums_columns@, nums_rows@) implies !resolution_of(
                            matrix@,
                            f,
                        ) by {
                            if resolution_of(matrix@, f) {
                                lemma_solved_board_properties(f, nn, nums_columns@, nums_rows@);
                                lemma_propagate_sound(matrix@, f, nn, nums_columns@, nums_rows@);
                                assert(resolution_of(p@, f));
                                assert(memo_self_blocking(
                                    past_matrices@,
                                    nn,
                                    nums_columns@,
                                    nums_rows@,
                                ));
                                lemma_blocking_no_resolver(
                                    past_matrices@,
                                    nn,
                                    nums_columns@,
                                    nums_rows@,
                                    f,
                                    nn * nn,
                                );
                                assert(resolver_below(
                                    past_matrices@,
                                    f,
                                    count_tile(p@, Tile::Unsure),
                                ));
                                let j = choose|j: int|
                                    0 <= j < past_matrices@.len() && #[trigger] resolution_of(
                                        past_matrices@[j],
                                        f,
                                    ) && count_tile(past_matrices@[j], Tile::Unsure) < count_tile(
                                        p@,
                                        Tile::Unsure,
                                    );
                                lemma_count_tile_bounds(past_matrices@[j], Tile::Unsure);
                                assert(count_tile(past_matrices@[j], Tile::Unsure) > nn * nn);
                                assert(past_matrices@[j].len() == f.len());
                            }
                        }
                    }
                }
                None
            },
        }
    }
}

} // verus!
