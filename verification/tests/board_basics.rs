use dungeon_solver::board::{Board, Tile};
use dungeon_solver::render::render_board;
use dungeon_solver::search::MemoSet;

fn tiles(text: &str) -> Vec<Tile> {
    text.chars()
        .map(|c| match c {
            'O' => Tile::Chest,
            '?' => Tile::Unsure,
            '!' => Tile::Monster,
            '_' => Tile::Ground,
            '#' => Tile::Wall,
            _ => panic!("unknown tile character"),
        })
        .collect()
}

fn board(n: usize, text: &str) -> Board {
    Board::new(n, tiles(text)).expect("well-formed board")
}

#[test]
fn new_rejects_malformed_input() {
    assert!(Board::new(3, tiles("????????")).is_none());
    assert!(Board::new(0, Vec::new()).is_none());
    assert!(Board::new(9, vec![Tile::Unsure; 81]).is_none());
    assert!(Board::new(3, tiles("?????????")).is_some());
}

#[test]
fn get_reads_row_major_cells() {
    let b = board(2, "O?!_");
    assert_eq!(b.side(), 2);
    assert!(b.get(0, 0) == Tile::Chest);
    assert!(b.get(1, 0) == Tile::Unsure);
    assert!(b.get(0, 1) == Tile::Monster);
    assert!(b.get(1, 1) == Tile::Ground);
}

#[test]
fn with_tile_changes_one_cell() {
    let b = board(2, "????");
    let c = b.with_tile(1, 0, Tile::Wall);
    assert!(c.get(1, 0) == Tile::Wall);
    assert!(c.get(0, 0) == Tile::Unsure);
    assert!(b.get(1, 0) == Tile::Unsure);
}

#[test]
fn same_board_is_structural() {
    let a = board(2, "_#_#");
    let b = board(2, "_#_#");
    let c = board(2, "_##_");
    assert!(a.same_board(&b));
    assert!(!a.same_board(&c));
}

#[test]
fn counts_by_row_column_and_total() {
    let b = board(3, "##?_#_???");
    assert_eq!(b.count_row(0, Tile::Wall), 2);
    assert_eq!(b.count_row(1, Tile::Wall), 1);
    assert_eq!(b.count_row(2, Tile::Unsure), 3);
    assert_eq!(b.count_col(0, Tile::Wall), 1);
    assert_eq!(b.count_col(2, Tile::Unsure), 2);
    assert_eq!(b.count_total(Tile::Wall), 3);
    assert_eq!(b.count_total(Tile::Unsure), 4);
}

#[test]
fn memo_set_never_stores_a_board_twice() {
    let mut memo = MemoSet::new();
    let a = board(2, "_#?O");
    let same_a = board(2, "_#?O");
    let b = board(2, "#_?O");
    assert_eq!(memo.len(), 0);
    assert!(memo.insert(&a));
    assert_eq!(memo.len(), 1);
    assert!(!memo.insert(&same_a));
    assert_eq!(memo.len(), 1);
    assert!(memo.insert(&b));
    assert_eq!(memo.len(), 2);
    assert!(!memo.insert(&a));
    assert_eq!(memo.len(), 2);
}

#[test]
fn render_is_fixed_width_text() {
    let b = board(2, "_#O!");
    let cols = vec![1, 0];
    let rows = vec![1, 0];
    let text = render_board(&b, &cols, &rows);
    assert_eq!(text, " 10\n1_#\n0O!\n");
}
