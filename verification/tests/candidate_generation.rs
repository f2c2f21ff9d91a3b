use dungeon_solver::board::{Board, Tile};
use dungeon_solver::candidates::collapse_random;

fn tiles(text: &str) -> Vec<Tile> {
    text.chars()
        .map(|c| match c {
            'O' => Tile::Chest,
            '?' => Tile::Unsure,
            '!' => Tile::Monster,
            '_' => Tile::Ground,
            '#' => Tile::Wall,
            _ => panic!("unknown tile character"),
        })
        .collect()
}

fn board(n: usize, text: &str) -> Board {
    Board::new(n, tiles(text)).expect("well-formed board")
}

fn refines(parent: &Board, child: &Board) -> bool {
    let n = parent.side();
    if child.side() != n {
        return false;
    }
    for y in 0..n {
        for x in 0..n {
            let p = parent.get(x, y);
            let c = child.get(x, y);
            if p != Tile::Unsure && c != p {
                return false;
            }
        }
    }
    true
}

#[test]
fn monster_tier_opens_each_possible_exit() {
    let b = board(3, "????!????");
    let cands = collapse_random(&b);
    // four monster children, then two children per undetermined cell
    assert_eq!(cands.len(), 4 + 8 * 2);
    // first child: exit to the left, other monster neighbours walled
    let c0 = &cands[0];
    assert!(c0.get(0, 1) == Tile::Ground);
    assert!(c0.get(2, 1) == Tile::Wall);
    assert!(c0.get(1, 0) == Tile::Wall);
    assert!(c0.get(1, 2) == Tile::Wall);
    assert!(c0.get(0, 0) == Tile::Unsure);
    assert!(c0.get(1, 1) == Tile::Monster);
    // second child: exit to the right
    let c1 = &cands[1];
    assert!(c1.get(2, 1) == Tile::Ground);
    assert!(c1.get(0, 1) == Tile::Wall);
    for c in cands.iter() {
        assert!(refines(&b, c));
    }
}

#[test]
fn generic_tier_tries_both_values_for_every_cell() {
    let b = board(2, "#_??");
    let cands = collapse_random(&b);
    // two undetermined cells, two children each
    assert_eq!(cands.len(), 4);
    assert!(cands[0].get(0, 1) == Tile::Ground);
    assert!(cands[1].get(0, 1) == Tile::Wall);
    assert!(cands[2].get(1, 1) == Tile::Ground);
    assert!(cands[3].get(1, 1) == Tile::Wall);
    for c in cands.iter() {
        assert!(refines(&b, c));
    }
}

#[test]
fn chest_tier_emits_each_placement_and_entrance() {
    let text: String = (0..25)
        .map(|i| if i == 12 { 'O' } else { '?' })
        .collect();
    let b = board(5, &text);
    let cands = collapse_random(&b);
    // nine placements whose in-grid non-corner ring cells number
    // 6, 9 or 12 give 72 room children; 24 undetermined cells give 48
    // generic children
    assert_eq!(cands.len(), 72 + 48);
    // first child: the placement whose interior's top-left is the
    // chest itself, opened at the first ring cell in scan order
    let c0 = &cands[0];
    assert!(c0.get(2, 2) == Tile::Chest);
    assert!(c0.get(3, 2) == Tile::Ground);
    assert!(c0.get(3, 3) == Tile::Ground);
    assert!(c0.get(4, 4) == Tile::Ground);
    assert!(c0.get(2, 1) == Tile::Ground);
    assert!(c0.get(3, 1) == Tile::Wall);
    assert!(c0.get(4, 1) == Tile::Wall);
    assert!(c0.get(1, 2) == Tile::Wall);
    assert!(c0.get(1, 3) == Tile::Wall);
    assert!(c0.get(1, 4) == Tile::Wall);
    assert!(c0.get(1, 1) == Tile::Unsure);
    assert!(c0.get(0, 0) == Tile::Unsure);
    for c in cands.iter() {
        assert!(refines(&b, c));
    }
}
