use dungeon_solver::board::{Board, Tile};
use dungeon_solver::connect::grounds_connected_check;
use dungeon_solver::validate::{
    chests_ok_check, clue_bounds_check, dead_ends_ok_check, is_possible, monsters_ok_check,
    no_open_squares_check,
};

fn tiles(text: &str) -> Vec<Tile> {
    text.chars()
        .map(|c| match c {
            'O' => Tile::Chest,
            '?' => Tile::Unsure,
            '!' => Tile::Monster,
            '_' => Tile::Ground,
            '#' => Tile::Wall,
            _ => panic!("unknown tile character"),
        })
        .collect()
}

fn board(n: usize, text: &str) -> Board {
    Board::new(n, tiles(text)).expect("well-formed board")
}

#[test]
fn open_square_without_chest_is_refused() {
    let b = board(3, "__?__????");
    assert!(!no_open_squares_check(&b));
}

#[test]
fn open_square_beside_a_chest_is_allowed() {
    let b = board(3, "__O__????");
    assert!(no_open_squares_check(&b));
}

#[test]
fn chest_without_possible_room_is_refused() {
    // a chest walled in on every side has no three-by-three interior
    let b = board(3, "?#?#O#?#?");
    assert!(!chests_ok_check(&b));
}

#[test]
fn chest_with_open_space_is_allowed() {
    let text: String = (0..25)
        .map(|i| if i == 12 { 'O' } else { '?' })
        .collect();
    let b = board(5, &text);
    assert!(chests_ok_check(&b));
}

#[test]
fn monster_with_two_ground_neighbours_is_refused() {
    let b = board(3, "_!_??????");
    assert!(!monsters_ok_check(&b));
}

#[test]
fn monster_boxed_in_is_refused() {
    let b = board(3, "#!#?#????");
    assert!(!monsters_ok_check(&b));
}

#[test]
fn monster_with_one_exit_is_allowed() {
    let b = board(3, "_!???????");
    assert!(monsters_ok_check(&b));
}

#[test]
fn unguarded_dead_end_is_refused() {
    let b = board(3, "_#?_?????");
    assert!(!dead_ends_ok_check(&b));
}

#[test]
fn monster_guarded_dead_end_is_allowed() {
    let b = board(3, "_!?_?????");
    assert!(dead_ends_ok_check(&b));
}

#[test]
fn clue_bounds_refuse_too_many_walls() {
    let b = board(2, "#???");
    let cols = vec![1, 1];
    let rows = vec![0, 0];
    assert!(!clue_bounds_check(&b, &cols, &rows));
}

#[test]
fn clue_bounds_refuse_unreachable_clue() {
    let b = board(2, "_#__");
    let cols = vec![0, 1];
    let rows = vec![2, 0];
    assert!(!clue_bounds_check(&b, &cols, &rows));
}

#[test]
fn clue_bounds_accept_satisfiable_clues() {
    let b = board(2, "#???");
    let cols = vec![1, 1];
    let rows = vec![2, 0];
    assert!(clue_bounds_check(&b, &cols, &rows));
}

#[test]
fn split_ground_is_refused() {
    let b = board(3, "_#_###???");
    assert!(!grounds_connected_check(&b));
}

#[test]
fn ground_joined_through_undetermined_cells_is_allowed() {
    let b = board(3, "_#_??????");
    assert!(grounds_connected_check(&b));
}

#[test]
fn is_possible_accepts_an_open_board() {
    let b = board(3, "?????????");
    let cols = vec![1, 1, 1];
    let rows = vec![1, 1, 1];
    assert!(is_possible(&b, &cols, &rows));
}

#[test]
fn is_possible_refuses_an_overlarge_clue() {
    let b = board(3, "?????????");
    let cols = vec![0, 0, 0];
    let rows = vec![4, 0, 0];
    assert!(!is_possible(&b, &cols, &rows));
}
