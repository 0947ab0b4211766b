use minesweeper::generate_map::generate_minefield;
use minesweeper::minefield::{
    is_in_minefield, propegate_zeros_through_minefield, render, Minefield, MAP_SIZE_HEIGHT,
    MAP_SIZE_WIDTH,
};
use minesweeper::tile::{Tile, PRESET_FLAG, PRESET_ONE};

/// A board with mines on the given cells, laid out for a first move at `safe`.
fn board(width: usize, height: usize, mines: &[(usize, usize)], safe: (usize, usize)) -> Minefield {
    let mut mask = vec![false; width * height];
    for &(x, y) in mines {
        mask[x * height + y] = true;
    }
    generate_minefield(width, height, &mask, safe.0, safe.1)
}

fn discovered(field: &Minefield) -> Vec<(usize, usize)> {
    let mut cells = Vec::new();
    for x in 0..field.width() {
        for y in 0..field.height() {
            if field.tile(x, y).is_discovered {
                cells.push((x, y));
            }
        }
    }
    cells
}

#[test]
fn board_constants() {
    assert_eq!(MAP_SIZE_WIDTH, 60);
    assert_eq!(MAP_SIZE_HEIGHT, 30);
}

#[test]
fn new_board_is_blank() {
    let field = Minefield::new(4, 3);
    assert_eq!(field.width(), 4);
    assert_eq!(field.height(), 3);
    for x in 0..4 {
        for y in 0..3 {
            let t = field.tile(x, y);
            assert!(!t.is_discovered && !t.is_flagged && !t.is_mine);
            assert_eq!(t.number, 0);
        }
    }
}

#[test]
fn new_board_may_be_empty() {
    let field = Minefield::new(0, 7);
    assert_eq!(field.width(), 0);
    assert_eq!(field.height(), 7);
    assert!(field.all_safe_discovered());
    assert_eq!(render(&field).len(), 1);
}

#[test]
fn index_goes_column_by_column() {
    let field = Minefield::new(4, 3);
    assert_eq!(field.index(0, 0), 0);
    assert_eq!(field.index(0, 2), 2);
    assert_eq!(field.index(1, 0), 3);
    assert_eq!(field.index(3, 2), 11);
}

#[test]
fn set_tile_changes_one_tile() {
    let mut field = Minefield::new(3, 2);
    let tile = Tile { is_discovered: true, number: 4, is_mine: false, is_flagged: false };
    field.set_tile(2, 1, tile);
    for x in 0..3 {
        for y in 0..2 {
            let t = field.tile(x, y);
            if (x, y) == (2, 1) {
                assert!(t.is_discovered);
                assert_eq!(t.number, 4);
            } else {
                assert!(!t.is_discovered);
                assert_eq!(t.number, 0);
            }
        }
    }
}

#[test]
fn in_minefield_accepts_cells_only() {
    let field = Minefield::new(4, 3);
    assert!(is_in_minefield(&field, 0, 0));
    assert!(is_in_minefield(&field, 3, 2));
    assert!(!is_in_minefield(&field, 4, 2));
    assert!(!is_in_minefield(&field, 3, 3));
    assert!(!is_in_minefield(&field, -1, 0));
    assert!(!is_in_minefield(&field, 0, -1));
    assert!(!is_in_minefield(&field, i32::MIN, i32::MIN));
    assert!(!is_in_minefield(&field, i32::MAX, 0));
}

#[test]
fn toggle_flag_sets_and_clears() {
    let mut field = board(3, 3, &[(2, 2)], (0, 0));
    field.toggle_flag(1, 1);
    assert!(field.tile(1, 1).is_flagged);
    assert!(!field.tile(0, 1).is_flagged);
    field.toggle_flag(1, 1);
    assert!(!field.tile(1, 1).is_flagged);
}

#[test]
fn toggle_flag_on_discovered_tile_is_a_no_op() {
    let mut field = board(3, 3, &[(2, 2)], (0, 0));
    assert!(!field.reveal_tile(1, 1));
    assert!(field.tile(1, 1).is_discovered);
    field.toggle_flag(1, 1);
    assert!(!field.tile(1, 1).is_flagged);
    assert!(field.tile(1, 1).is_discovered);
}

#[test]
fn reveal_of_flagged_tile_is_a_no_op() {
    let mut field = board(3, 3, &[(2, 2)], (0, 0));
    field.toggle_flag(0, 0);
    assert!(!field.reveal_tile(0, 0));
    assert!(discovered(&field).is_empty());
    assert!(field.tile(0, 0).is_flagged);
}

#[test]
fn reveal_of_flagged_mine_does_not_hit() {
    let mut field = board(3, 3, &[(2, 2)], (0, 0));
    field.toggle_flag(2, 2);
    assert!(!field.reveal_tile(2, 2));
    assert!(!field.tile(2, 2).is_discovered);
    field.toggle_flag(2, 2);
    assert!(field.reveal_tile(2, 2));
    assert!(field.tile(2, 2).is_discovered);
}

#[test]
fn reveal_of_mine_uncovers_only_the_mine() {
    let mut field = board(3, 3, &[(2, 2)], (0, 0));
    assert!(field.reveal_tile(2, 2));
    assert_eq!(discovered(&field), vec![(2, 2)]);
    assert_eq!(field.tile(2, 2).get_repr(), 'B');
}

#[test]
fn reveal_of_numbered_tile_uncovers_only_it() {
    let mut field = board(3, 3, &[(2, 2)], (0, 0));
    assert!(!field.reveal_tile(1, 1));
    assert_eq!(discovered(&field), vec![(1, 1)]);
    assert_eq!(field.tile(1, 1).get_repr(), '1');
}

#[test]
fn one_by_one_board_without_mines() {
    let mut field = generate_minefield(1, 1, &vec![false], 0, 0);
    assert!(!field.reveal_tile(0, 0));
    let t = field.tile(0, 0);
    assert_eq!(t.number, 0);
    assert!(t.is_discovered);
    assert!(!t.is_mine);
    assert!(field.all_safe_discovered());

    let mut again = generate_minefield(1, 1, &vec![false], 0, 0);
    let visited = again.flood_fill(0, 0);
    assert_eq!(visited, vec![(0, 0)]);
    assert!(again.tile(0, 0).is_discovered);
}

#[test]
fn three_by_three_with_mine_in_the_corner() {
    let mut field = board(3, 3, &[(2, 2)], (0, 0));
    assert_eq!(field.tile(0, 0).number, 0);
    assert!(!field.reveal_tile(0, 0));
    for cell in [(0, 0), (0, 1), (1, 0), (1, 1)] {
        assert!(field.tile(cell.0, cell.1).is_discovered, "{:?}", cell);
    }
    for cell in [(0, 0), (0, 1), (1, 0), (0, 2), (2, 0)] {
        assert_eq!(field.tile(cell.0, cell.1).number, 0, "{:?}", cell);
    }
    for cell in [(1, 1), (1, 2), (2, 1)] {
        let t = field.tile(cell.0, cell.1);
        assert!(t.is_discovered, "{:?}", cell);
        assert_eq!(t.number, 1, "{:?}", cell);
    }
    let mine = field.tile(2, 2);
    assert!(mine.is_mine);
    assert!(!mine.is_discovered);
    assert_eq!(discovered(&field).len(), 8);
    assert!(field.all_safe_discovered());
}

#[test]
fn fill_visits_the_region_once_each() {
    let mut field = board(3, 3, &[(2, 2)], (0, 0));
    let mut visited = field.flood_fill(0, 0);
    assert_eq!(visited[0], (0, 0));
    visited.sort();
    assert_eq!(visited, vec![(0, 0), (0, 1), (0, 2), (1, 0), (2, 0)]);
}

#[test]
fn fill_of_a_board_without_mines_visits_every_tile_once() {
    let mut field = board(5, 4, &[], (2, 2));
    let mut visited = field.flood_fill(2, 2);
    assert_eq!(visited.len(), 20);
    visited.sort();
    visited.dedup();
    assert_eq!(visited.len(), 20);
    assert_eq!(discovered(&field).len(), 20);
}

#[test]
fn fill_stops_at_numbered_tiles() {
    // A wall of numbered tiles in columns 1 to 3 parts the open tiles on
    // the left from those on the right.
    let mut field = board(5, 3, &[(2, 0), (2, 1), (2, 2)], (0, 0));
    assert!(!field.reveal_tile(0, 1));
    let mut seen = discovered(&field);
    seen.sort();
    assert_eq!(seen, vec![(0, 0), (0, 1), (0, 2), (1, 0), (1, 1), (1, 2)]);
    assert_eq!(field.tile(1, 1).number, 3);
    assert_eq!(field.tile(1, 0).number, 2);
    assert!(!field.tile(4, 1).is_discovered);
    assert!(!field.tile(3, 1).is_discovered);
}

#[test]
fn fill_goes_by_edges_and_not_by_corners() {
    // (0, 0) and (1, 1) are open and touch by a corner only: the mines at
    // the far end make (1, 0) and (0, 1) numbered.
    let mut field = Minefield::new(2, 2);
    let one = Tile { is_discovered: false, number: 1, is_mine: false, is_flagged: false };
    field.set_tile(1, 0, one);
    field.set_tile(0, 1, one);
    let visited = field.flood_fill(0, 0);
    assert_eq!(visited, vec![(0, 0)]);
    let mut seen = discovered(&field);
    seen.sort();
    assert_eq!(seen, vec![(0, 0), (0, 1), (1, 0)]);
    assert!(!field.tile(1, 1).is_discovered);
}

#[test]
fn fill_never_uncovers_a_mine() {
    // The tile of the first move carries a 0 though mines lie around it.
    let mut field = board(3, 3, &[(1, 0), (0, 1), (1, 1)], (0, 0));
    assert_eq!(field.tile(0, 0).number, 0);
    assert!(!field.reveal_tile(0, 0));
    assert_eq!(discovered(&field), vec![(0, 0)]);
    for cell in [(1, 0), (0, 1), (1, 1)] {
        assert!(field.tile(cell.0, cell.1).is_mine);
        assert!(!field.tile(cell.0, cell.1).is_discovered);
    }
}

#[test]
fn fill_does_not_pass_through_uncovered_tiles() {
    // A row of five open tiles; the middle one is uncovered already, so a
    // fill from the left end stops before it.
    let mut field = Minefield::new(5, 1);
    let t = field.tile(2, 0);
    field.set_tile(2, 0, Tile { is_discovered: true, ..t });
    let visited = field.flood_fill(0, 0);
    assert_eq!(visited, vec![(0, 0), (1, 0)]);
    let mut seen = discovered(&field);
    seen.sort();
    assert_eq!(seen, vec![(0, 0), (1, 0), (2, 0)]);
}

#[test]
fn fill_uncovers_flagged_tiles_of_the_region() {
    let mut field = board(1, 3, &[], (0, 0));
    field.toggle_flag(0, 2);
    assert!(!field.reveal_tile(0, 0));
    let t = field.tile(0, 2);
    assert!(t.is_discovered);
    assert!(t.is_flagged);
    assert_eq!(t.get_repr(), 'F');
}

#[test]
fn fill_from_a_numbered_tile_uncovers_it_alone() {
    let mut field = board(3, 3, &[(2, 2)], (0, 0));
    propegate_zeros_through_minefield(&mut field, 1, 1);
    assert_eq!(discovered(&field), vec![(1, 1)]);
}

#[test]
fn fill_from_a_mine_uncovers_nothing() {
    let mut field = board(3, 3, &[(2, 2)], (0, 0));
    propegate_zeros_through_minefield(&mut field, 2, 2);
    assert!(discovered(&field).is_empty());
    let visited = field.flood_fill(2, 2);
    assert!(visited.is_empty());
}

#[test]
fn propegate_uncovers_region_and_border() {
    let mut field = board(3, 3, &[(2, 2)], (0, 0));
    propegate_zeros_through_minefield(&mut field, 0, 2);
    assert_eq!(discovered(&field).len(), 8);
    assert!(!field.tile(2, 2).is_discovered);
}

#[test]
fn fill_twice_changes_nothing_more() {
    let mut field = board(4, 4, &[(3, 3), (0, 3)], (0, 0));
    propegate_zeros_through_minefield(&mut field, 0, 0);
    let first = discovered(&field);
    propegate_zeros_through_minefield(&mut field, 0, 0);
    assert_eq!(discovered(&field), first);
}

#[test]
fn reveal_all_uncovers_every_tile() {
    let mut field = board(3, 3, &[(2, 2), (1, 0)], (0, 0));
    field.toggle_flag(1, 0);
    field.reveal_all();
    assert_eq!(discovered(&field).len(), 9);
    assert!(field.tile(1, 0).is_flagged);
    assert!(field.tile(1, 0).is_mine);
    assert!(field.tile(2, 2).is_mine);
    assert_eq!(field.tile(1, 1).number, 2);
}

#[test]
fn revealing_a_mine_and_then_all() {
    let mut field = board(3, 3, &[(2, 2)], (0, 0));
    assert!(field.reveal_tile(2, 2));
    field.reveal_all();
    for x in 0..3 {
        for y in 0..3 {
            assert!(field.tile(x, y).is_discovered);
        }
    }
}

#[test]
fn all_safe_discovered_ignores_mines() {
    let mut field = board(2, 2, &[(1, 1)], (0, 0));
    assert!(!field.all_safe_discovered());
    field.reveal_tile(1, 0);
    assert!(!field.all_safe_discovered());
    field.reveal_tile(0, 1);
    assert!(!field.all_safe_discovered());
    field.reveal_tile(0, 0);
    assert!(field.all_safe_discovered());
    assert!(!field.tile(1, 1).is_discovered);
}

#[test]
fn render_draws_column_by_column_and_closes_with_a_colon() {
    let mut field = board(3, 2, &[(2, 1)], (0, 0));
    field.toggle_flag(2, 1);
    field.reveal_tile(1, 1);
    let screen = render(&field);
    assert_eq!(screen.len(), 7);
    let cells: Vec<(usize, usize)> = screen.iter().map(|g| (g.column, g.row)).collect();
    assert_eq!(cells, vec![(0, 0), (0, 1), (1, 0), (1, 1), (2, 0), (2, 1), (0, 2)]);
    let symbols: Vec<char> = screen.iter().map(|g| g.symbol).collect();
    assert_eq!(symbols, vec!['*', '*', '*', '1', '*', 'F', ':']);
    let colors: Vec<Option<i16>> = screen.iter().map(|g| g.color).collect();
    assert_eq!(colors, vec![None, None, None, Some(PRESET_ONE), None, Some(PRESET_FLAG), None]);
}

#[test]
fn render_of_a_filled_board() {
    let mut field = board(3, 3, &[(2, 2)], (0, 0));
    field.reveal_tile(0, 0);
    let screen = render(&field);
    let symbols: String = screen.iter().map(|g| g.symbol).collect();
    assert_eq!(symbols, "    11 1*:");
}
