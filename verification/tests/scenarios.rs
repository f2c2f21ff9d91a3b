use dungeon_solver::board::{Board, Tile};
use dungeon_solver::search::{solve_observation, MemoSet};
use dungeon_solver::validate::is_possible;

fn tiles(text: &str) -> Vec<Tile> {
    text.chars()
        .map(|c| match c {
            'O' => Tile::Chest,
            '?' => Tile::Unsure,
            '!' => Tile::Monster,
            '_' => Tile::Ground,
            '#' => Tile::Wall,
            _ => panic!("unknown tile character"),
        })
        .collect()
}

fn board(n: usize, text: &str) -> Board {
    Board::new(n, tiles(text)).expect("well-formed board")
}

fn unknown_board_with_chest(n: usize, cx: usize, cy: usize) -> Board {
    let text: String = (0..n * n)
        .map(|i| if i == cy * n + cx { 'O' } else { '?' })
        .collect();
    board(n, &text)
}

fn assert_cells(b: &Board, text: &str) {
    let expect = tiles(text);
    let n = b.side();
    for y in 0..n {
        for x in 0..n {
            assert!(
                b.get(x, y) == expect[y * n + x],
                "cell ({}, {}) differs",
                x,
                y
            );
        }
    }
}

#[test]
fn lone_monster_with_zero_clues_yields_all_ground() {
    // a three-wide board, one monster at the centre, every clue zero:
    // the solver must leave no wall anywhere
    let b = board(3, "????!????");
    let cols = vec![0, 0, 0];
    let rows = vec![0, 0, 0];
    let mut memo = MemoSet::new();
    let r = solve_observation(&b, &cols, &rows, &mut memo);
    let solved = r.expect("a solution");
    assert_cells(&solved, "____!____");
    assert_eq!(memo.len(), 0);
}

#[test]
fn single_enclosed_room_is_reconstructed() {
    // one chest, no monsters, clues consistent with exactly one
    // enclosed room whose entrance opens onto a ring corridor
    let b = unknown_board_with_chest(8, 2, 2);
    let cols = vec![8, 5, 5, 5, 7, 5, 6, 5];
    let rows = vec![8, 2, 2, 2, 8, 8, 8, 8];
    let mut memo = MemoSet::new();
    let r = solve_observation(&b, &cols, &rows, &mut memo);
    let solved = r.expect("a solution");
    let expect = "#########___#___#_O___#_#___#___################################";
    assert_cells(&solved, expect);
    // the clue counts of the result match exactly
    for y in 0..8 {
        assert_eq!(solved.count_row(y, Tile::Wall), rows[y]);
    }
    for x in 0..8 {
        assert_eq!(solved.count_col(x, Tile::Wall), cols[x]);
    }
    // the room: a three-by-three interior around the chest, and a ring
    // with exactly one ground entrance
    for y in 1..4 {
        for x in 1..4 {
            let t = solved.get(x, y);
            assert!(t == Tile::Ground || t == Tile::Chest);
        }
    }
    let ring = [
        (1, 0),
        (2, 0),
        (3, 0),
        (0, 1),
        (4, 1),
        (0, 2),
        (4, 2),
        (0, 3),
        (4, 3),
        (1, 4),
        (2, 4),
        (3, 4),
    ];
    let entrances = ring
        .iter()
        .filter(|&&(x, y)| solved.get(x, y) == Tile::Ground)
        .count();
    assert_eq!(entrances, 1);
    assert!(solved.get(4, 2) == Tile::Ground);
}

#[test]
fn clue_determined_board_skips_the_search() {
    // the clues alone drive propagation to a full fixpoint, so the
    // search driver returns it without generating any candidate: the
    // memo set stays empty
    let b = board(3, "?????????");
    let cols = vec![3, 3, 3];
    let rows = vec![3, 3, 3];
    let mut memo = MemoSet::new();
    let r = solve_observation(&b, &cols, &rows, &mut memo);
    let solved = r.expect("a solution");
    assert_cells(&solved, "#########");
    assert_eq!(memo.len(), 0);
}

#[test]
fn inconsistent_clue_yields_no_solution_with_bounded_memo() {
    // a row clue exceeding the row length: no solution exists, the
    // search exhausts its candidates in finite time, and the memo set
    // holds exactly the generated single-cell candidates
    let b = board(3, "?????????");
    let cols = vec![2, 2, 2];
    let rows = vec![4, 2, 2];
    let mut memo = MemoSet::new();
    let r = solve_observation(&b, &cols, &rows, &mut memo);
    assert!(r.is_none());
    assert_eq!(memo.len(), 18);
}

#[test]
fn chest_puzzle_needing_guesses_is_solved_by_search() {
    // propagation alone cannot place this room; the search must commit
    // to a placement and backtrack over the leftovers
    let b = unknown_board_with_chest(5, 2, 2);
    let cols = vec![2, 2, 2, 2, 1];
    let rows = vec![2, 0, 1, 3, 3];
    let mut memo = MemoSet::new();
    let r = solve_observation(&b, &cols, &rows, &mut memo);
    let solved = r.expect("a solution");
    assert_eq!(solved.count_total(Tile::Unsure), 0);
    for y in 0..5 {
        assert_eq!(solved.count_row(y, Tile::Wall), rows[y]);
    }
    for x in 0..5 {
        assert_eq!(solved.count_col(x, Tile::Wall), cols[x]);
    }
    assert!(solved.get(2, 2) == Tile::Chest);
    assert!(is_possible(&solved, &cols, &rows));
    assert!(memo.len() > 0);
}
