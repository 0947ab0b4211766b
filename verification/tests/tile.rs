use minesweeper::tile::{
    Tile, PRESET_FIVE, PRESET_FLAG, PRESET_FOUR, PRESET_ONE, PRESET_SIX, PRESET_THREE, PRESET_TWO,
};

fn shown(number: i8) -> Tile {
    Tile { is_discovered: true, number, is_mine: false, is_flagged: false }
}

#[test]
fn new_tile_is_hidden_unflagged_and_safe() {
    let t = Tile::new(0);
    assert!(!t.is_discovered);
    assert!(!t.is_flagged);
    assert!(!t.is_mine);
    assert_eq!(t.number, 0);
    let t = Tile::new(3);
    assert_eq!(t.number, 3);
    assert!(!t.is_discovered && !t.is_flagged && !t.is_mine);
}

#[test]
fn default_tile_is_new_zero() {
    let t = Tile::default();
    assert!(!t.is_discovered && !t.is_flagged && !t.is_mine);
    assert_eq!(t.number, 0);
}

#[test]
fn repr_of_hidden_tile_is_star() {
    assert_eq!(Tile::new(0).get_repr(), '*');
    assert_eq!(Tile::new(4).get_repr(), '*');
    let hidden_mine = Tile { is_discovered: false, number: 0, is_mine: true, is_flagged: false };
    assert_eq!(hidden_mine.get_repr(), '*');
}

#[test]
fn repr_of_flag_wins_over_everything() {
    let mut t = Tile::new(2);
    t.is_flagged = true;
    assert_eq!(t.get_repr(), 'F');
    t.is_discovered = true;
    assert_eq!(t.get_repr(), 'F');
    t.is_mine = true;
    assert_eq!(t.get_repr(), 'F');
}

#[test]
fn repr_of_discovered_mine_is_b() {
    let t = Tile { is_discovered: true, number: 0, is_mine: true, is_flagged: false };
    assert_eq!(t.get_repr(), 'B');
    let t = Tile { is_discovered: true, number: 3, is_mine: true, is_flagged: false };
    assert_eq!(t.get_repr(), 'B');
}

#[test]
fn repr_of_discovered_zero_is_blank() {
    assert_eq!(shown(0).get_repr(), ' ');
}

#[test]
fn repr_of_discovered_count_is_its_digit() {
    let digits = ['1', '2', '3', '4', '5', '6', '7', '8'];
    for n in 1..=8i8 {
        assert_eq!(shown(n).get_repr(), digits[(n - 1) as usize]);
    }
}

#[test]
fn repr_agrees_with_first_character_of_the_number() {
    for n in i8::MIN..=i8::MAX {
        if n == 0 {
            continue;
        }
        let expected = format!("{}", n).chars().next().unwrap();
        assert_eq!(shown(n).get_repr(), expected, "number {}", n);
    }
}

#[test]
fn color_of_flag_is_flag_pair() {
    let mut t = Tile::new(0);
    t.is_flagged = true;
    assert_eq!(t.get_color(), Some(PRESET_FLAG));
    t.is_discovered = true;
    t.number = 3;
    assert_eq!(t.get_color(), Some(PRESET_FLAG));
}

#[test]
fn color_of_hidden_tile_is_none() {
    assert_eq!(Tile::new(0).get_color(), None);
    assert_eq!(Tile::new(3).get_color(), None);
}

#[test]
fn color_of_counts_one_to_six() {
    assert_eq!(shown(1).get_color(), Some(PRESET_ONE));
    assert_eq!(shown(2).get_color(), Some(PRESET_TWO));
    assert_eq!(shown(3).get_color(), Some(PRESET_THREE));
    assert_eq!(shown(4).get_color(), Some(PRESET_FOUR));
    assert_eq!(shown(5).get_color(), Some(PRESET_FIVE));
    assert_eq!(shown(6).get_color(), Some(PRESET_SIX));
}

#[test]
fn color_pairs_are_distinct() {
    let pairs = [
        PRESET_FLAG,
        PRESET_ONE,
        PRESET_TWO,
        PRESET_THREE,
        PRESET_FOUR,
        PRESET_FIVE,
        PRESET_SIX,
    ];
    assert_eq!(pairs, [1, 2, 3, 4, 5, 6, 7]);
}

#[test]
fn color_of_zero_seven_eight_and_mine_is_none() {
    assert_eq!(shown(0).get_color(), None);
    assert_eq!(shown(7).get_color(), None);
    assert_eq!(shown(8).get_color(), None);
    let mine = Tile { is_discovered: true, number: 2, is_mine: true, is_flagged: false };
    assert_eq!(mine.get_color(), None);
}
