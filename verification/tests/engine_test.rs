use iomrascalai::board::Board;
use iomrascalai::color::Color::{Black, Empty, White};
use iomrascalai::engine::{evaluate, sample, select, Engine, McEngine, MoveStats, PLAYOUTS};
use iomrascalai::game::Game;
use iomrascalai::gomove::Move;
use iomrascalai::gomove::Move::{Pass, Play};
use iomrascalai::playout::{advance, Playout};
use iomrascalai::ruleset::Ruleset;
use iomrascalai::score::Komi;

fn stats(wins: usize, plays: usize) -> MoveStats {
    MoveStats { wins, plays }
}

#[test]
fn move_stats_count_wins_and_plays() {
    let mut s = MoveStats::new();
    assert_eq!(s.wins, 0);
    assert_eq!(s.plays, 0);
    assert!(s.all_wins());
    assert!(s.all_loses());
    s.won();
    assert_eq!(s, stats(1, 1));
    assert!(s.all_wins());
    assert!(!s.all_loses());
    s.lost();
    assert_eq!(s, stats(1, 2));
    assert!(!s.all_wins());
    assert!(!s.all_loses());
    let mut l = MoveStats::new();
    l.lost();
    assert!(l.all_loses());
    assert!(!l.all_wins());
}

#[test]
fn shares_of_wins_compare_as_fractions() {
    assert!(stats(1, 3).ratio_less(&stats(1, 2)));
    assert!(!stats(1, 2).ratio_less(&stats(1, 3)));
    assert!(!stats(1, 2).ratio_less(&stats(2, 4)));
    assert!(!stats(2, 4).ratio_less(&stats(1, 2)));
    assert!(stats(0, 0).ratio_less(&stats(1, 1000)));
    assert!(!stats(0, 0).ratio_less(&stats(0, 5)));
    assert!(stats(333, 1000).ratio_less(&stats(334, 1000)));
    assert!(stats(usize::MAX - 1, usize::MAX).ratio_less(&stats(usize::MAX, usize::MAX)));
}

#[test]
fn a_resolved_position_is_passed() {
    let moves = vec![Play(Black, 1, 1), Play(Black, 2, 1), Pass(Black)];
    assert_eq!(select(Black, &moves, &vec![stats(10, 10), stats(10, 10), stats(10, 10)]), Pass(Black));
    assert_eq!(select(Black, &moves, &vec![stats(0, 10), stats(0, 10), stats(0, 10)]), Pass(Black));
    assert_eq!(select(White, &moves, &vec![stats(0, 10), stats(10, 10), stats(0, 0)]), Pass(White));
    assert_eq!(select(White, &Vec::new(), &Vec::new()), Pass(White));
}

#[test]
fn the_best_share_of_wins_is_chosen() {
    let moves = vec![Play(Black, 1, 1), Play(Black, 2, 1), Pass(Black)];
    assert_eq!(select(Black, &moves, &vec![stats(3, 10), stats(7, 10), stats(5, 10)]), Play(Black, 2, 1));
    assert_eq!(select(Black, &moves, &vec![stats(3, 10), stats(4, 10), stats(5, 10)]), Pass(Black));
    assert_eq!(select(Black, &moves, &vec![stats(10, 10), stats(4, 10), stats(0, 10)]), Play(Black, 1, 1));
}

#[test]
fn equal_shares_go_to_the_first_move() {
    let moves = vec![Play(Black, 1, 1), Play(Black, 2, 1), Play(Black, 1, 2), Pass(Black)];
    assert_eq!(
        select(Black, &moves, &vec![stats(1, 10), stats(7, 10), stats(14, 20), stats(7, 10)]),
        Play(Black, 2, 1)
    );
}

#[test]
fn advancing_plays_the_chosen_legal_move() {
    let b = Board::new(3, Komi::from_half_points(13), Ruleset::kgs_chinese());
    let moves = b.legal_moves();
    let next = advance(&b, &moves, 4);
    assert_eq!(moves[4], Play(Black, 2, 2));
    assert_eq!(next.get(2, 2), Black);
    assert_eq!(next.next_player(), White);
    let passed = advance(&b, &moves, 9);
    assert_eq!(passed.next_player(), White);
    assert_eq!(passed.get(2, 2), Empty);
}

#[test]
fn a_playout_on_one_point_goes_to_komi() {
    let b = Board::new(1, Komi::from_half_points(13), Ruleset::kgs_chinese());
    assert_eq!(Playout::new(b).run(), White);
    let b = Board::new(1, Komi::from_half_points(-13), Ruleset::kgs_chinese());
    assert_eq!(Playout::new(b).run(), Black);
    let b = Board::new(1, Komi::from_half_points(0), Ruleset::kgs_chinese());
    assert_eq!(Playout::new(b).run(), Empty);
}

#[test]
fn playouts_end_and_leave_their_board() {
    let b = Board::new(5, Komi::from_half_points(13), Ruleset::kgs_chinese());
    let b = b.play(Play(Black, 3, 3)).unwrap();
    let playout = Playout::new(b.clone());
    for _ in 0..20 {
        let winner = playout.run();
        assert!(winner == Black || winner == White || winner == Empty);
    }
    assert_eq!(b.get(3, 3), Black);
    assert_eq!(b.legal_moves().len(), 25);
}

#[test]
fn a_playout_of_a_finished_game_counts_it() {
    let b = Board::new(5, Komi::from_half_points(13), Ruleset::kgs_chinese());
    let b = b.play(Play(Black, 3, 3)).unwrap();
    let b = b.play(Pass(White)).unwrap();
    let b = b.play(Pass(Black)).unwrap();
    for _ in 0..5 {
        assert_eq!(Playout::new(b.clone()).run(), Black);
    }
}

#[test]
fn sampling_runs_the_playouts_asked_for() {
    let b = Board::new(1, Komi::from_half_points(13), Ruleset::kgs_chinese());
    assert_eq!(sample(White, b.clone(), 7), stats(7, 7));
    assert_eq!(sample(Black, b.clone(), 7), stats(0, 7));
    assert_eq!(sample(Black, b, 0), stats(0, 0));
}

#[test]
fn every_accepted_legal_move_is_evaluated() {
    let g = Game::new(2, Komi::from_half_points(13), Ruleset::kgs_chinese());
    let (moves, records) = evaluate(Black, &g, 5);
    assert_eq!(moves, g.legal_moves());
    assert_eq!(records.len(), moves.len());
    for r in &records {
        assert_eq!(r.plays, 5);
        assert!(r.wins <= 5);
    }
}

#[test]
fn moves_that_the_game_refuses_are_no_candidates() {
    let g = Game::new(2, Komi::from_half_points(13), Ruleset::kgs_chinese());
    let g = g.play(Pass(Black)).unwrap();
    let g = g.play(Pass(White)).unwrap();
    let (moves, records) = evaluate(Black, &g, 5);
    assert_eq!(moves.len(), 0);
    assert_eq!(records.len(), 0);
    assert_eq!(McEngine::new().gen_move(Black, &g), Pass(Black));
}

#[test]
fn the_engine_passes_where_nothing_can_be_played() {
    let g = Game::new(1, Komi::from_half_points(13), Ruleset::kgs_chinese());
    let engine = McEngine::new();
    assert_eq!(engine.gen_move(Black, &g), Pass(Black));
    assert_eq!(engine.gen_move(White, &g), Pass(White));
    assert_eq!(PLAYOUTS, 1000);
}

#[test]
fn the_engine_answers_with_a_legal_move_or_a_pass() {
    let g = Game::new(2, Komi::from_half_points(13), Ruleset::kgs_chinese());
    let g = g.play(Play(Black, 1, 1)).unwrap();
    let m: Move = McEngine::new().gen_move(White, &g);
    assert!(m == Pass(White) || g.legal_moves().contains(&m));
    assert!(g.play(m).is_ok());
}

#[test]
fn a_komi_above_the_board_decides_every_playout() {
    let b = Board::new(3, Komi::from_half_points(200), Ruleset::kgs_chinese());
    let b = b.play(Play(Black, 2, 2)).unwrap();
    assert_eq!(sample(Black, b.clone(), 25), stats(0, 25));
    assert_eq!(sample(White, b.clone(), 25), stats(25, 25));
    let b = Board::new(3, Komi::from_half_points(-200), Ruleset::kgs_chinese());
    assert_eq!(sample(Black, b.clone(), 25), stats(25, 25));
    assert_eq!(sample(White, b, 25), stats(0, 25));
}

#[test]
fn the_records_are_the_tallies_of_the_playouts() {
    let g = Game::new(2, Komi::from_half_points(200), Ruleset::kgs_chinese());
    let (moves, records) = evaluate(Black, &g, 10);
    assert_eq!(moves.len(), 5);
    for r in &records {
        assert_eq!(*r, stats(0, 10));
    }
    let (_, records) = evaluate(White, &g, 10);
    for r in &records {
        assert_eq!(*r, stats(10, 10));
    }
}

#[test]
fn the_engine_passes_where_the_komi_decides() {
    let g = Game::new(2, Komi::from_half_points(200), Ruleset::kgs_chinese());
    assert_eq!(McEngine::new().gen_move(Black, &g), Pass(Black));
    assert_eq!(McEngine::new().gen_move(White, &g), Pass(White));
}
