use iomrascalai::board::Board;
use iomrascalai::color::Color::{Black, Empty, White};
use iomrascalai::coord::Coord;
use iomrascalai::gomove::IllegalMove;
use iomrascalai::gomove::Move::Play;
use iomrascalai::ruleset::Ruleset;
use iomrascalai::score::Komi;

fn board_19() -> Board {
    Board::new(19, Komi::from_half_points(13), Ruleset::kgs_chinese())
}

#[test]
fn getting_a_valid_coord_returns_a_color() {
    let b = board_19();

    assert_eq!(b.get(10, 10), Empty);
}

#[test]
fn getting_invalid_coordinates_fails() {
    let b = board_19();

    assert!(!Coord::new(14, 21).is_inside(b.size()));
    assert!(!Coord::new(21, 14).is_inside(b.size()));
    assert!(matches!(b.play(Play(Black, 14, 21)), Err(IllegalMove::PlayOutOfBoard)));
    assert!(matches!(b.play(Play(Black, 21, 14)), Err(IllegalMove::PlayOutOfBoard)));
}

#[test]
fn _19_19_is_a_valid_coordinate() {
    let b = board_19();

    assert_eq!(b.get(19, 19), Empty);
}

#[test]
fn _0_0_is_not_a_valid_coordinate() {
    let b = board_19();

    assert!(!Coord::new(0, 0).is_inside(b.size()));
    assert!(matches!(b.play(Play(Black, 0, 0)), Err(IllegalMove::PlayOutOfBoard)));
}

#[test]
fn get_komi() {
    let b = board_19();

    assert_eq!(b.komi(), Komi::from_half_points(13));
    assert_eq!(b.komi().half_points(), 13);
}

#[test]
fn play_adds_a_stone_to_the_correct_position() {
    let mut b = board_19();

    b = b.play(Play(White, 14, 14)).unwrap();

    assert!(b.get(14, 14) == White);

    for i in 1u8..20 {
        for j in 1u8..20 {
            assert!(b.get(i, j) == Empty || (i == 14 && j == 14));
        }
    }
}

#[test]
fn two_way_merging_works() {
    let mut b = board_19();

    b = b.play(Play(White, 10, 10)).unwrap();
    b = b.play(Play(White, 10, 12)).unwrap();

    assert_eq!(b.chains().len(), 3);

    b = b.play(Play(White, 10, 11)).unwrap();
    let c_id = b.get_chain(Coord::new(10, 10)).id;

    assert_eq!(b.get_chain(Coord::new(10, 11)).id, c_id);
    assert_eq!(b.get_chain(Coord::new(10, 12)).id, c_id);
    assert_eq!(b.chains().len(), 2)
}

#[test]
fn three_way_merging_works() {
    let mut b = board_19();

    b = b.play(Play(White, 10, 10)).unwrap();
    b = b.play(Play(White, 11, 11)).unwrap();
    b = b.play(Play(White, 10, 12)).unwrap();

    assert_eq!(b.chains().len(), 4);

    b = b.play(Play(White, 10, 11)).unwrap();
    let c_id = b.get_chain(Coord::new(10, 10)).id;

    assert_eq!(b.get_chain(Coord::new(10, 11)).id, c_id);
    assert_eq!(b.get_chain(Coord::new(11, 11)).id, c_id);
    assert_eq!(b.get_chain(Coord::new(10, 12)).id, c_id);
    assert_eq!(b.chains().len(), 2)
}

#[test]
fn four_way_merging_works() {
    let mut b = board_19();

    b = b.play(Play(White, 10, 10)).unwrap();
    b = b.play(Play(White, 9, 11)).unwrap();
    b = b.play(Play(White, 11, 11)).unwrap();
    b = b.play(Play(White, 10, 12)).unwrap();

    assert_eq!(b.chains().len(), 5);

    b = b.play(Play(White, 10, 11)).unwrap();
    let c_id = b.get_chain(Coord::new(10, 10)).id;

    assert_eq!(b.get_chain(Coord::new(10, 11)).id, c_id);
    assert_eq!(b.get_chain(Coord::new(9, 11)).id, c_id);
    assert_eq!(b.get_chain(Coord::new(11, 11)).id, c_id);
    assert_eq!(b.get_chain(Coord::new(10, 12)).id, c_id);
    assert_eq!(b.chains().len(), 2)
}

#[test]
fn playing_on_all_libs_in_corner_should_capture() {
    let mut b = board_19();

    b = b.play(Play(Black, 1, 1)).unwrap();
    b = b.play(Play(White, 1, 2)).unwrap();
    b = b.play(Play(White, 2, 1)).unwrap();

    assert_eq!(b.get(1, 1), Empty);
    assert_eq!(b.get(1, 2), White);
    assert_eq!(b.get(2, 1), White);
}

#[test]
fn playing_on_all_libs_on_side_should_capture() {
    let mut b = board_19();

    b = b.play(Play(Black, 1, 3)).unwrap();
    b = b.play(Play(White, 1, 2)).unwrap();
    b = b.play(Play(White, 1, 4)).unwrap();
    b = b.play(Play(White, 2, 3)).unwrap();

    assert_eq!(b.get(1, 3), Empty);
    assert_eq!(b.get(1, 2), White);
    assert_eq!(b.get(1, 4), White);
    assert_eq!(b.get(2, 3), White);
}

#[test]
fn playing_on_all_libs_should_capture() {
    let mut b = board_19();

    b = b.play(Play(Black, 4, 4)).unwrap();

    b = b.play(Play(White, 4, 3)).unwrap();
    b = b.play(Play(White, 4, 5)).unwrap();
    b = b.play(Play(White, 3, 4)).unwrap();
    b = b.play(Play(White, 5, 4)).unwrap();

    assert_eq!(b.get(4, 4), Empty);

    assert_eq!(b.get(4, 3), White);
    assert_eq!(b.get(4, 5), White);
    assert_eq!(b.get(3, 4), White);
    assert_eq!(b.get(5, 4), White);
}

#[test]
fn playing_on_all_libs_of_a_chain_should_capture() {
    let mut b = board_19();

    b = b.play(Play(Black, 4, 4)).unwrap();
    b = b.play(Play(Black, 4, 5)).unwrap();

    b = b.play(Play(White, 4, 3)).unwrap();
    b = b.play(Play(White, 3, 4)).unwrap();
    b = b.play(Play(White, 5, 4)).unwrap();
    b = b.play(Play(White, 3, 5)).unwrap();
    b = b.play(Play(White, 5, 5)).unwrap();
    b = b.play(Play(White, 4, 6)).unwrap();

    assert_eq!(b.get(4, 4), Empty);
    assert_eq!(b.get(4, 5), Empty);

    assert_eq!(b.get(4, 3), White);
    assert_eq!(b.get(3, 4), White);
    assert_eq!(b.get(5, 4), White);
    assert_eq!(b.get(3, 5), White);
    assert_eq!(b.get(5, 5), White);
    assert_eq!(b.get(4, 6), White);
}

#[test]
fn playing_on_all_libs_of_a_bent_chain_should_capture() {
    let mut b = board_19();

    b = b.play(Play(Black, 4, 4)).unwrap();
    b = b.play(Play(Black, 4, 5)).unwrap();
    b = b.play(Play(Black, 3, 4)).unwrap();

    b = b.play(Play(White, 3, 3)).unwrap();
    b = b.play(Play(White, 4, 3)).unwrap();
    b = b.play(Play(White, 2, 4)).unwrap();
    b = b.play(Play(White, 5, 4)).unwrap();
    b = b.play(Play(White, 3, 5)).unwrap();
    b = b.play(Play(White, 5, 5)).unwrap();
    b = b.play(Play(White, 4, 6)).unwrap();

    assert_eq!(b.get(4, 4), Empty);
    assert_eq!(b.get(4, 5), Empty);
    assert_eq!(b.get(3, 4), Empty);

    assert_eq!(b.get(3, 3), White);
    assert_eq!(b.get(4, 3), White);
    assert_eq!(b.get(2, 4), White);
    assert_eq!(b.get(5, 4), White);
    assert_eq!(b.get(3, 5), White);
    assert_eq!(b.get(5, 5), White);
    assert_eq!(b.get(4, 6), White);
}
