use iomrascalai::color::Color::{Black, Empty, White};
use iomrascalai::coord::Coord;
use iomrascalai::game::Game;
use iomrascalai::gomove::IllegalMove;
use iomrascalai::gomove::Move;
use iomrascalai::gomove::Move::{Pass, Play};
use iomrascalai::ruleset::Ruleset;
use iomrascalai::score::Komi;

fn komi() -> Komi {
    Komi::from_half_points(13)
}

fn play_all(mut g: Game, moves: &[Move]) -> Game {
    for m in moves {
        g = g.play(*m).unwrap();
    }
    g
}

fn ko_position() -> Game {
    let g = Game::new(5, komi(), Ruleset::kgs_chinese());
    play_all(
        g,
        &[
            Play(Black, 2, 1),
            Play(White, 3, 1),
            Play(Black, 1, 2),
            Play(White, 4, 2),
            Play(Black, 2, 3),
            Play(White, 3, 3),
            Play(Black, 5, 5),
            Play(White, 2, 2),
        ],
    )
}

#[test]
fn a_new_game_starts_empty_with_its_settings() {
    let g = Game::new(9, komi(), Ruleset::kgs_chinese());

    assert_eq!(g.size(), 9);
    assert_eq!(g.board_size(), 9);
    assert_eq!(g.komi(), komi());
    assert_eq!(g.move_number(), 0);
    assert_eq!(g.main_time(), 0);
    assert_eq!(g.byo_time(), 30);
    assert_eq!(g.byo_stones(), 1);
    assert_eq!(g.next_player(), Black);
    assert_eq!(g.ruleset(), Ruleset::kgs_chinese());
    assert!(!g.is_over());
    for col in 1u8..10 {
        for row in 1u8..10 {
            assert_eq!(g.get(col, row), Empty);
        }
    }
}

#[test]
fn playing_counts_the_moves_and_changes_the_turn() {
    let g = Game::new(9, komi(), Ruleset::kgs_chinese());
    let g = g.play(Play(Black, 3, 3)).unwrap();

    assert_eq!(g.move_number(), 1);
    assert_eq!(g.get(3, 3), Black);
    assert_eq!(g.next_player(), White);

    let g = g.play(Pass(White)).unwrap();

    assert_eq!(g.move_number(), 2);
    assert_eq!(g.next_player(), Black);
}

#[test]
fn a_failed_move_leaves_the_game_as_it_was() {
    let g = Game::new(9, komi(), Ruleset::kgs_chinese());
    let g = g.play(Play(Black, 3, 3)).unwrap();

    assert!(matches!(g.play(Play(White, 3, 3)), Err(IllegalMove::IntersectionNotEmpty)));
    assert!(matches!(g.play(Play(White, 10, 3)), Err(IllegalMove::PlayOutOfBoard)));
    assert_eq!(g.move_number(), 1);
    assert_eq!(g.get(3, 3), Black);
    assert!(g.play(Play(White, 4, 3)).is_ok());
}

#[test]
fn retaking_a_ko_at_once_breaks_the_superko_rule() {
    let g = ko_position();
    let g = g.play(Play(Black, 3, 2)).unwrap();

    assert_eq!(g.get(2, 2), Empty);
    assert_eq!(g.get(3, 2), Black);
    assert!(matches!(g.play(Play(White, 2, 2)), Err(IllegalMove::SuperKoRuleBroken)));
}

#[test]
fn another_move_than_the_ko_is_accepted() {
    let g = ko_position();
    let g = g.play(Play(Black, 3, 2)).unwrap();
    let g = g.play(Play(White, 5, 1)).unwrap();

    assert_eq!(g.get(5, 1), White);
    assert_eq!(g.get(3, 2), Black);
    assert_eq!(g.move_number(), 10);
}

#[test]
fn the_ko_may_be_retaken_after_moves_elsewhere() {
    let g = ko_position();
    let g = g.play(Play(Black, 3, 2)).unwrap();
    let g = g.play(Play(White, 5, 1)).unwrap();
    let g = g.play(Play(Black, 1, 5)).unwrap();
    let g = g.play(Play(White, 2, 2)).unwrap();

    assert_eq!(g.get(2, 2), White);
    assert_eq!(g.get(3, 2), Empty);
}

#[test]
fn a_single_stone_suicide_repeats_the_position() {
    let g = Game::new(5, komi(), Ruleset::any_size_tromp_taylor());
    let g = play_all(g, &[Play(White, 1, 2), Play(White, 2, 1)]);

    assert!(matches!(g.play(Play(Black, 1, 1)), Err(IllegalMove::SuperKoRuleBroken)));
}

#[test]
fn two_passes_end_the_game() {
    let g = Game::new(9, komi(), Ruleset::kgs_chinese());
    let g = g.play(Pass(Black)).unwrap();

    assert!(!g.is_over());

    let g = g.play(Pass(White)).unwrap();

    assert!(g.is_over());
    assert!(matches!(g.play(Play(Black, 1, 1)), Err(IllegalMove::GameAlreadyOver)));
    assert!(matches!(g.play(Pass(Black)), Err(IllegalMove::GameAlreadyOver)));
}

#[test]
fn a_stone_between_two_passes_keeps_the_game_going() {
    let g = Game::new(9, komi(), Ruleset::kgs_chinese());
    let g = play_all(g, &[Pass(Black), Play(White, 2, 2), Pass(Black)]);

    assert!(!g.is_over());
}

#[test]
fn passes_do_not_count_as_positions() {
    let g = Game::new(9, komi(), Ruleset::kgs_chinese());
    let g = play_all(g, &[Play(Black, 2, 2), Pass(White), Play(Black, 3, 3)]);

    assert_eq!(g.move_number(), 3);
    assert_eq!(g.get(2, 2), Black);
    assert_eq!(g.get(3, 3), Black);
}

#[test]
fn the_count_of_moves_goes_round_after_255() {
    let mut g = Game::new(19, komi(), Ruleset::kgs_chinese());
    let mut n = 0u32;
    for row in 1u8..20 {
        for col in 1u8..20 {
            if n < 255 {
                g = g.play(Play(Black, col, row)).unwrap();
                n += 1;
            }
        }
    }
    assert_eq!(g.move_number(), 255);
    let g = g.play(Play(Black, 19, 19)).unwrap();
    assert_eq!(g.move_number(), 0);
    let g = g.play(Play(Black, 18, 19)).unwrap();
    assert_eq!(g.move_number(), 1);
}

#[test]
fn the_byo_yomi_period_starts_anew_when_its_stones_are_played() {
    let mut g = Game::new(9, komi(), Ruleset::kgs_chinese());
    g.set_byo_stones(3);
    let g = play_all(g, &[Play(Black, 1, 1), Play(White, 2, 2), Play(Black, 3, 3), Play(White, 4, 4)]);
    assert_eq!(g.byo_stones(), 3);
    assert_eq!(g.move_number(), 4);
}

#[test]
fn setting_the_byo_yomi_stones_clamps_to_one() {
    let mut g = Game::new(9, komi(), Ruleset::kgs_chinese());

    g.set_byo_stones(0);
    assert_eq!(g.byo_stones(), 1);
    g.set_byo_stones(-5);
    assert_eq!(g.byo_stones(), 1);
    g.set_byo_stones(25);
    assert_eq!(g.byo_stones(), 25);
}

#[test]
fn settings_do_not_touch_the_position() {
    let g = Game::new(9, komi(), Ruleset::kgs_chinese());
    let mut g = g.play(Play(Black, 3, 3)).unwrap();

    g.set_komi(Komi::from_half_points(1));
    g.set_main_time(600_000);
    g.set_byo_time(10_000);
    g.set_byo_stones(5);

    assert_eq!(g.komi(), Komi::from_half_points(1));
    assert_eq!(g.main_time(), 600_000);
    assert_eq!(g.byo_time(), 10_000);
    assert_eq!(g.byo_stones(), 5);
    assert_eq!(g.move_number(), 1);
    assert_eq!(g.get(3, 3), Black);
}

#[test]
fn the_board_of_a_game_is_a_copy() {
    let g = Game::new(9, komi(), Ruleset::kgs_chinese());
    let g = g.play(Play(Black, 3, 3)).unwrap();
    let b = g.board();
    let b = b.play(Play(White, 4, 4)).unwrap();

    assert_eq!(b.get(4, 4), White);
    assert_eq!(g.get(4, 4), Empty);
    assert_eq!(b.color(&Coord::new(3, 3)), Black);
}

#[test]
fn legal_moves_of_a_game_are_those_of_its_board() {
    let g = Game::new(3, komi(), Ruleset::kgs_chinese());
    let g = g.play(Play(Black, 2, 2)).unwrap();
    let moves = g.legal_moves();

    assert_eq!(moves.len(), 9);
    assert_eq!(moves[0], Play(White, 1, 1));
    assert_eq!(moves[8], Pass(White));
    assert_eq!(moves, g.board().legal_moves());
}

#[test]
fn score_and_winner_of_a_game() {
    let g = Game::new(3, komi(), Ruleset::kgs_chinese());

    assert_eq!(g.winner(), White);

    let g = g.play(Play(Black, 2, 2)).unwrap();
    let s = g.score();

    assert_eq!(s.black, 9);
    assert_eq!(s.white, 0);
    assert_eq!(g.winner(), Black);
}
