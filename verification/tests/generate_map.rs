use minesweeper::generate_map::{
    count_mines_around, draw_mines, generate, generate_minefield, get_minefield_number,
    is_mine_roll, MINE_DENSITY,
};
use minesweeper::minefield::Minefield;

fn layout(width: usize, height: usize, mines: &[(usize, usize)], safe: (usize, usize)) -> Minefield {
    let mut mask = vec![false; width * height];
    for &(x, y) in mines {
        mask[x * height + y] = true;
    }
    generate_minefield(width, height, &mask, safe.0, safe.1)
}

/// The mines around `(x, y)`, counted the plain way.
fn mines_near(field: &Minefield, x: usize, y: usize) -> i8 {
    let mut n = 0;
    for dx in -1i64..=1 {
        for dy in -1i64..=1 {
            if dx == 0 && dy == 0 {
                continue;
            }
            let nx = x as i64 + dx;
            let ny = y as i64 + dy;
            if nx < 0 || ny < 0 || nx >= field.width() as i64 || ny >= field.height() as i64 {
                continue;
            }
            if field.tile(nx as usize, ny as usize).is_mine {
                n += 1;
            }
        }
    }
    n
}

fn check_fresh(field: &Minefield, safe: (usize, usize)) {
    let safe_tile = field.tile(safe.0, safe.1);
    assert!(!safe_tile.is_mine);
    assert_eq!(safe_tile.number, 0);
    for x in 0..field.width() {
        for y in 0..field.height() {
            let t = field.tile(x, y);
            assert!(!t.is_discovered);
            assert!(!t.is_flagged);
            if t.is_mine {
                assert_eq!(t.number, 0);
            } else if (x, y) != safe {
                assert_eq!(t.number, mines_near(field, x, y), "at ({}, {})", x, y);
            }
        }
    }
}

#[test]
fn density_of_the_game_is_one_in_five() {
    assert_eq!(MINE_DENSITY, 20);
}

#[test]
fn mine_roll_compares_with_density() {
    assert!(is_mine_roll(0, 20));
    assert!(is_mine_roll(19, 20));
    assert!(!is_mine_roll(20, 20));
    assert!(!is_mine_roll(99, 20));
    assert!(!is_mine_roll(0, 0));
    assert!(is_mine_roll(99, 100));
}

#[test]
fn minefield_number_is_one_on_a_mine_and_zero_elsewhere() {
    let field = layout(3, 3, &[(2, 2), (0, 1)], (0, 0));
    assert_eq!(get_minefield_number(&field, 2, 2), 1);
    assert_eq!(get_minefield_number(&field, 0, 1), 1);
    assert_eq!(get_minefield_number(&field, 1, 1), 0);
    assert_eq!(get_minefield_number(&field, 0, 0), 0);
}

#[test]
fn minefield_number_is_zero_off_the_board() {
    let field = layout(3, 3, &[(2, 2)], (0, 0));
    assert_eq!(get_minefield_number(&field, 3, 2), 0);
    assert_eq!(get_minefield_number(&field, 2, 3), 0);
    assert_eq!(get_minefield_number(&field, 3, 3), 0);
    assert_eq!(get_minefield_number(&field, usize::MAX, 0), 0);
}

#[test]
fn count_in_the_middle_sees_all_eight_neighbours() {
    let all = [(0, 0), (0, 1), (0, 2), (1, 0), (1, 2), (2, 0), (2, 1), (2, 2)];
    let field = layout(3, 3, &all, (1, 1));
    assert_eq!(count_mines_around(&field, 1, 1), 8);
    for k in 0..all.len() {
        let field = layout(3, 3, &all[..k], (1, 1));
        assert_eq!(count_mines_around(&field, 1, 1), k as i8);
    }
}

#[test]
fn count_does_not_count_the_tile_itself() {
    let field = layout(3, 3, &[(1, 1)], (0, 0));
    assert_eq!(count_mines_around(&field, 1, 1), 0);
    assert_eq!(count_mines_around(&field, 0, 0), 1);
}

#[test]
fn count_on_corners_and_edges_stays_on_the_board() {
    // Mines down the right column: nothing wraps round to the left one.
    let field = layout(3, 3, &[(2, 0), (2, 1), (2, 2)], (0, 0));
    assert_eq!(count_mines_around(&field, 0, 0), 0);
    assert_eq!(count_mines_around(&field, 0, 1), 0);
    assert_eq!(count_mines_around(&field, 0, 2), 0);
    assert_eq!(count_mines_around(&field, 1, 0), 2);
    assert_eq!(count_mines_around(&field, 1, 1), 3);
    assert_eq!(count_mines_around(&field, 1, 2), 2);
    assert_eq!(count_mines_around(&field, 2, 0), 1);
    assert_eq!(count_mines_around(&field, 2, 1), 2);
    assert_eq!(count_mines_around(&field, 2, 2), 1);
}

#[test]
fn count_on_a_single_tile_board_is_zero() {
    let field = layout(1, 1, &[], (0, 0));
    assert_eq!(count_mines_around(&field, 0, 0), 0);
}

#[test]
fn generated_numbers_count_the_mines_around() {
    let field = layout(4, 3, &[(0, 0), (3, 2), (1, 1)], (3, 0));
    let expected = [[0, 2, 1], [2, 0, 1], [1, 2, 2], [0, 1, 0]];
    for x in 0..4 {
        for y in 0..3 {
            assert_eq!(field.tile(x, y).number, expected[x][y], "at ({}, {})", x, y);
        }
    }
    assert!(field.tile(0, 0).is_mine && field.tile(3, 2).is_mine && field.tile(1, 1).is_mine);
    check_fresh(&field, (3, 0));
}

#[test]
fn first_move_is_never_a_mine() {
    let field = generate_minefield(2, 2, &vec![true, true, true, true], 1, 0);
    assert!(!field.tile(1, 0).is_mine);
    assert!(field.tile(0, 0).is_mine);
    assert!(field.tile(0, 1).is_mine);
    assert!(field.tile(1, 1).is_mine);
}

#[test]
fn first_move_carries_zero_among_mines() {
    let field = generate_minefield(2, 2, &vec![true, true, true, true], 1, 0);
    assert_eq!(field.tile(1, 0).number, 0);
    assert_eq!(mines_near(&field, 1, 0), 3);
}

#[test]
fn mines_carry_zero() {
    let field = layout(3, 1, &[(0, 0), (1, 0)], (2, 0));
    assert_eq!(field.tile(0, 0).number, 0);
    assert_eq!(field.tile(1, 0).number, 0);
    assert_eq!(field.tile(2, 0).number, 0);
    let field = layout(3, 1, &[(0, 0), (1, 0)], (2, 0));
    assert_eq!(mines_near(&field, 2, 0), 1);
}

#[test]
fn short_and_long_masks() {
    let field = generate_minefield(2, 2, &vec![true], 1, 1);
    assert!(field.tile(0, 0).is_mine);
    assert!(!field.tile(0, 1).is_mine);
    assert!(!field.tile(1, 0).is_mine);
    assert_eq!(field.tile(0, 1).number, 1);
    let field = generate_minefield(1, 2, &vec![false, true, true, true], 0, 0);
    assert!(field.tile(0, 1).is_mine);
    assert_eq!(field.width(), 1);
    assert_eq!(field.height(), 2);
    let field = generate_minefield(2, 2, &Vec::new(), 0, 0);
    check_fresh(&field, (0, 0));
    assert!(field.all_safe_discovered() == false);
}

#[test]
fn draw_has_one_entry_for_each_tile() {
    assert_eq!(draw_mines(0, 20).len(), 0);
    assert_eq!(draw_mines(17, 20).len(), 17);
}

#[test]
fn draw_at_density_zero_has_no_mines() {
    assert!(draw_mines(500, 0).iter().all(|m| !m));
}

#[test]
fn draw_at_density_hundred_has_only_mines() {
    assert!(draw_mines(500, 100).iter().all(|m| *m));
    assert!(draw_mines(500, 250).iter().all(|m| *m));
}

#[test]
fn draw_at_density_twenty_has_both() {
    let mines = draw_mines(1800, 20);
    let count = mines.iter().filter(|m| **m).count();
    assert!(count > 0);
    assert!(count < 1800);
    // One in five on average: 360 of 1800, and far from a half.
    assert!(count > 180 && count < 720, "{} mines", count);
}

#[test]
fn generate_keeps_the_first_move_safe() {
    for round in 0..40 {
        let safe = (round % 6, round % 4);
        let field = generate(safe.0, safe.1, 6, 4, 60);
        assert_eq!(field.width(), 6);
        assert_eq!(field.height(), 4);
        check_fresh(&field, safe);
    }
}

#[test]
fn generate_on_the_board_of_the_game() {
    let field = generate(0, 5, 60, 30, MINE_DENSITY);
    check_fresh(&field, (0, 5));
    let mut mines = 0;
    for x in 0..60 {
        for y in 0..30 {
            if field.tile(x, y).is_mine {
                mines += 1;
            }
        }
    }
    assert!(mines > 180 && mines < 720, "{} mines", mines);
}

#[test]
fn generate_at_density_zero_has_no_mines() {
    let field = generate(0, 0, 1, 1, 0);
    assert!(!field.tile(0, 0).is_mine);
    assert_eq!(field.tile(0, 0).number, 0);
    let field = generate(2, 1, 5, 5, 0);
    for x in 0..5 {
        for y in 0..5 {
            assert!(!field.tile(x, y).is_mine);
            assert_eq!(field.tile(x, y).number, 0);
        }
    }
}

#[test]
fn generate_at_density_hundred_mines_all_but_the_first_move() {
    let field = generate(1, 1, 3, 3, 100);
    for x in 0..3 {
        for y in 0..3 {
            assert_eq!(field.tile(x, y).is_mine, (x, y) != (1, 1));
            assert_eq!(field.tile(x, y).number, 0);
        }
    }
}
