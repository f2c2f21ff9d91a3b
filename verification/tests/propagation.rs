use dungeon_solver::board::{Board, Tile};
use dungeon_solver::propagate::{collapse_certainties, propagate};

fn tiles(text: &str) -> Vec<Tile> {
    text.chars()
        .map(|c| match c {
            'O' => Tile::Chest,
            '?' => Tile::Unsure,
            '!' => Tile::Monster,
            '_' => Tile::Ground,
            '#' => Tile::Wall,
            _ => panic!("unknown tile character"),
        })
        .collect()
}

fn board(n: usize, text: &str) -> Board {
    Board::new(n, tiles(text)).expect("well-formed board")
}

fn assert_cells(b: &Board, text: &str) {
    let expect = tiles(text);
    let n = b.side();
    for y in 0..n {
        for x in 0..n {
            assert!(
                b.get(x, y) == expect[y * n + x],
                "cell ({}, {}) differs",
                x,
                y
            );
        }
    }
}

// Clue value that fires no row or column saturation on these boards.
const INERT: usize = 9;

#[test]
fn row_saturation_fills_walls_and_ground() {
    let mut b = board(3, "?????????");
    let cols = vec![1, 1, 1];
    let rows = vec![3, 0, 0];
    collapse_certainties(&mut b, &cols, &rows);
    assert_cells(&b, "###______");
}

#[test]
fn monster_escape_forces_the_only_exit() {
    let mut b = board(3, "?#?#!??#?");
    let cols = vec![INERT; 3];
    let rows = vec![INERT; 3];
    collapse_certainties(&mut b, &cols, &rows);
    assert_cells(&b, "?#?#!_?#?");
}

#[test]
fn monster_enclosure_walls_the_other_neighbours() {
    let mut b = board(3, "?????!???");
    let mut c = b.with_tile(1, 1, Tile::Ground);
    // monster at (2, 1), settled ground exit at (1, 1)
    c = c.with_tile(2, 1, Tile::Monster);
    let cols = vec![INERT; 3];
    let rows = vec![INERT; 3];
    let before = c.duplicate();
    collapse_certainties(&mut c, &cols, &rows);
    assert!(before.get(2, 0) == Tile::Unsure);
    assert!(c.get(2, 0) == Tile::Wall);
    assert!(c.get(2, 2) == Tile::Wall);
    assert!(c.get(1, 1) == Tile::Ground);
    assert!(b.get(0, 0) == Tile::Unsure);
}

#[test]
fn chest_clearance_pulls_ground_toward_the_chest() {
    let mut b = board(3, "????O#???");
    let cols = vec![INERT; 3];
    let rows = vec![INERT; 3];
    collapse_certainties(&mut b, &cols, &rows);
    // the wall right of the chest and the boundary above and below
    // force the room onto the remaining cells of the cross
    assert!(b.get(0, 1) == Tile::Ground);
    assert!(b.get(1, 0) == Tile::Ground);
    assert!(b.get(1, 2) == Tile::Ground);
    assert!(b.get(2, 1) == Tile::Wall);
    assert!(b.get(0, 0) == Tile::Unsure);
    assert!(b.get(2, 0) == Tile::Unsure);
}

#[test]
fn ground_saturation_extends_hemmed_in_ground() {
    let mut b = board(3, "?#??_??#?");
    // ground at (1, 1) with walls above-left pattern: walls at (1, 0)
    // and (1, 2), so two wall neighbours force the undetermined
    // neighbours to ground
    let cols = vec![INERT; 3];
    let rows = vec![INERT; 3];
    collapse_certainties(&mut b, &cols, &rows);
    assert!(b.get(0, 1) == Tile::Ground);
    assert!(b.get(2, 1) == Tile::Ground);
    assert!(b.get(0, 0) == Tile::Unsure);
}

#[test]
fn propagate_reaches_a_fixpoint_and_is_idempotent() {
    let b = board(3, "????O#???");
    let cols = vec![INERT; 3];
    let rows = vec![INERT; 3];
    let once = propagate(&b, &cols, &rows);
    let twice = propagate(&once, &cols, &rows);
    assert!(once.same_board(&twice));
    let mut pass_again = once.duplicate();
    collapse_certainties(&mut pass_again, &cols, &rows);
    assert!(pass_again.same_board(&once));
}

#[test]
fn propagate_cascades_rows_and_columns() {
    let b = board(2, "????");
    let cols = vec![0, 2];
    let rows = vec![1, 1];
    let r = propagate(&b, &cols, &rows);
    // column clues settle everything: left column ground, right wall
    assert_cells(&r, "_#_#");
}
