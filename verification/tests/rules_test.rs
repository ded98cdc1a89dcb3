use iomrascalai::board::Board;
use iomrascalai::chain::Chain;
use iomrascalai::color::Color;
use iomrascalai::color::Color::{Black, Empty, White};
use iomrascalai::coord::Coord;
use iomrascalai::gomove::IllegalMove;
use iomrascalai::gomove::Move;
use iomrascalai::gomove::Move::{Pass, Play};
use iomrascalai::hash::ZobristHashTable;
use iomrascalai::ruleset::{Ruleset, Scoring};
use iomrascalai::score::{Komi, Score};

fn board(size: u8, ruleset: Ruleset) -> Board {
    Board::new(size, Komi::from_half_points(13), ruleset)
}

fn play_all(mut b: Board, moves: &[Move]) -> Board {
    for m in moves {
        b = b.play(*m).unwrap();
    }
    b
}

fn neighbours_on(b: &Board, c: Coord) -> Vec<Coord> {
    c.neighbours(b.size())
}

fn liberties_of(b: &Board, chain: &Chain) -> usize {
    let mut seen: Vec<Coord> = Vec::new();
    for stone in chain.coords() {
        for n in neighbours_on(b, *stone) {
            if b.color(&n) == Empty && !seen.contains(&n) {
                seen.push(n);
            }
        }
    }
    seen.len()
}

fn assert_consistent(b: &Board) {
    let size = b.size();
    let chains = b.chains();
    assert_eq!(chains[0].coords().len(), 0);
    let mut stones = 0usize;
    for col in 1..=size {
        for row in 1..=size {
            let c = Coord::new(col, row);
            let chain = b.get_chain(c);
            if b.color(&c) == Empty {
                assert_eq!(chain.id, 0);
            } else {
                stones += 1;
                assert!(chain.id >= 1);
                assert_eq!(chain.color, b.color(&c));
                assert_eq!(chain.coords().iter().filter(|s| **s == c).count(), 1);
                for n in neighbours_on(b, c) {
                    if b.color(&n) == b.color(&c) {
                        assert_eq!(b.get_chain(n).id, chain.id);
                    }
                }
            }
        }
    }
    let mut members = 0usize;
    for (i, chain) in chains.iter().enumerate() {
        assert_eq!(chain.id, i);
        if i >= 1 {
            assert!(chain.coords().len() >= 1);
            assert!(chain.libs >= 1);
            assert_eq!(chain.libs, liberties_of(b, chain));
            for stone in chain.coords() {
                assert_eq!(b.get_chain(*stone).id, i);
            }
        }
        members += chain.coords().len();
    }
    assert_eq!(members, stones);
}

#[test]
fn the_opposite_of_a_color() {
    assert_eq!(Black.opposite(), White);
    assert_eq!(White.opposite(), Black);
    assert_eq!(Empty.opposite(), Empty);
    assert!(Black.is_player());
    assert!(!Empty.is_player());
}

#[test]
fn coordinates_know_the_board() {
    assert!(Coord::new(1, 1).is_inside(19));
    assert!(Coord::new(19, 19).is_inside(19));
    assert!(!Coord::new(0, 1).is_inside(19));
    assert!(!Coord::new(1, 20).is_inside(19));
    assert!(Coord::new(255, 255).is_inside(255));
    assert_eq!(Coord::new(1, 1).to_index(19), 0);
    assert_eq!(Coord::new(19, 1).to_index(19), 18);
    assert_eq!(Coord::new(1, 2).to_index(19), 19);
    assert_eq!(Coord::new(19, 19).to_index(19), 360);
    assert_eq!(Coord::from_index(360, 19), Coord::new(19, 19));
    assert_eq!(Coord::from_index(19, 19), Coord::new(1, 2));
    assert!(Coord::new(1, 2) < Coord::new(2, 1));
}

#[test]
fn neighbours_stay_on_the_board() {
    assert_eq!(Coord::new(1, 1).neighbours(19), vec![Coord::new(2, 1), Coord::new(1, 2)]);
    assert_eq!(
        Coord::new(3, 3).neighbours(19),
        vec![Coord::new(3, 2), Coord::new(2, 3), Coord::new(4, 3), Coord::new(3, 4)]
    );
    assert_eq!(Coord::new(19, 19).neighbours(19), vec![Coord::new(19, 18), Coord::new(18, 19)]);
    assert_eq!(Coord::new(1, 1).neighbours(1), vec![]);
    assert_eq!(Coord::new(255, 255).neighbours(255).len(), 2);
}

#[test]
fn moves_know_their_parts() {
    let m = Play(Black, 3, 4);
    assert!(!m.is_pass());
    assert_eq!(*m.color(), Black);
    assert_eq!(m.coords(), Coord::new(3, 4));
    let p = Pass(White);
    assert!(p.is_pass());
    assert_eq!(*p.color(), White);
}

#[test]
fn chains_collect_stones_in_order() {
    let mut a = Chain::new(1, Black);
    assert_eq!(a.id, 1);
    assert_eq!(a.color, Black);
    assert_eq!(a.libs, 1);
    assert_eq!(a.coords().len(), 0);
    a.add_stone(Coord::new(1, 1));
    a.add_stone(Coord::new(1, 2));
    let mut b = Chain::new(2, Black);
    b.add_stone(Coord::new(2, 2));
    a.merge(&b);
    assert_eq!(a.coords(), &vec![Coord::new(1, 1), Coord::new(1, 2), Coord::new(2, 2)]);
    assert_eq!(b.coords(), &vec![Coord::new(2, 2)]);
    assert_eq!(a.id, 1);
    let c = a.clone();
    assert_eq!(c, a);
}

#[test]
fn rulesets_are_plain_values() {
    let tt = Ruleset::any_size_tromp_taylor();
    assert!(tt.suicide_allowed());
    assert!(tt.allows_size(1) && tt.allows_size(255));
    assert_eq!(tt.scoring, Scoring::Area);
    let kgs = Ruleset::kgs_chinese();
    assert!(!kgs.suicide_allowed());
    assert_eq!(kgs.default_komi, Komi::from_half_points(13));
    let min = Ruleset::minimal();
    assert!(min.allows_size(19));
    assert!(!min.allows_size(9));
    assert!(!min.suicide_allowed());
}

#[test]
fn scores_compare_totals_with_komi() {
    let s = Score { black: 10, white: 4, komi: Komi::from_half_points(13) };
    assert_eq!(s.black_total(), 20);
    assert_eq!(s.white_total(), 21);
    assert_eq!(s.color(), White);
    let s = Score { black: 11, white: 4, komi: Komi::from_half_points(13) };
    assert_eq!(s.color(), Black);
    let s = Score { black: 7, white: 4, komi: Komi::from_half_points(6) };
    assert_eq!(s.color(), Empty);
    let s = Score { black: 0, white: 0, komi: Komi::from_half_points(-1) };
    assert_eq!(s.color(), Black);
}

#[test]
fn a_new_board_is_empty() {
    let b = board(9, Ruleset::kgs_chinese());
    assert_eq!(b.size(), 9);
    assert_eq!(b.komi(), Komi::from_half_points(13));
    assert_eq!(b.ruleset(), Ruleset::kgs_chinese());
    assert_eq!(b.chains().len(), 1);
    assert_eq!(b.next_player(), Black);
    assert!(!b.is_game_over());
    assert_eq!(b.adv_stones_removed().len(), 0);
    assert_eq!(b.friend_stones_removed().len(), 0);
    assert_consistent(&b);
}

#[test]
fn play_leaves_the_board_it_was_called_on() {
    let b = board(9, Ruleset::kgs_chinese());
    let after = b.play(Play(Black, 5, 5)).unwrap();
    assert_eq!(b.get(5, 5), Empty);
    assert_eq!(after.get(5, 5), Black);
    assert_eq!(b.chains().len(), 1);
    assert_eq!(after.chains().len(), 2);
}

#[test]
fn a_stone_on_a_stone_is_refused() {
    let b = play_all(board(9, Ruleset::kgs_chinese()), &[Play(Black, 5, 5)]);
    assert!(matches!(b.play(Play(White, 5, 5)), Err(IllegalMove::IntersectionNotEmpty)));
    assert!(matches!(b.play(Play(Black, 5, 5)), Err(IllegalMove::IntersectionNotEmpty)));
}

#[test]
fn a_stone_off_the_board_is_refused() {
    let b = board(9, Ruleset::kgs_chinese());
    assert!(matches!(b.play(Play(Black, 10, 1)), Err(IllegalMove::PlayOutOfBoard)));
    assert!(matches!(b.play(Play(Black, 1, 10)), Err(IllegalMove::PlayOutOfBoard)));
    assert!(matches!(b.play(Play(Black, 0, 5)), Err(IllegalMove::PlayOutOfBoard)));
}

#[test]
fn suicide_is_refused_where_the_rules_forbid_it() {
    let b = play_all(board(9, Ruleset::kgs_chinese()), &[Play(White, 1, 2), Play(White, 2, 1)]);
    assert!(matches!(b.play(Play(Black, 1, 1)), Err(IllegalMove::SuicidePlay)));
    assert_eq!(b.get(1, 1), Empty);
    assert!(b.play(Play(White, 1, 1)).is_ok());
}

#[test]
fn suicide_of_a_chain_is_refused_where_the_rules_forbid_it() {
    let b = play_all(
        board(9, Ruleset::kgs_chinese()),
        &[Play(White, 1, 3), Play(White, 2, 2), Play(White, 3, 1), Play(Black, 1, 2), Play(Black, 2, 1)],
    );
    assert!(matches!(b.play(Play(Black, 1, 1)), Err(IllegalMove::SuicidePlay)));
}

#[test]
fn suicide_takes_the_own_chain_where_the_rules_allow_it() {
    let b = play_all(
        board(9, Ruleset::any_size_tromp_taylor()),
        &[Play(White, 1, 3), Play(White, 2, 2), Play(White, 3, 1), Play(Black, 1, 2), Play(Black, 2, 1)],
    );
    let hash = b.hash();
    let after = b.play(Play(Black, 1, 1)).unwrap();
    assert_eq!(after.get(1, 1), Empty);
    assert_eq!(after.get(1, 2), Empty);
    assert_eq!(after.get(2, 1), Empty);
    assert_eq!(after.get(2, 2), White);
    assert_eq!(after.adv_stones_removed().len(), 0);
    let mut lost = after.friend_stones_removed().clone();
    lost.sort();
    assert_eq!(lost, vec![Coord::new(1, 1), Coord::new(1, 2), Coord::new(2, 1)]);
    assert_eq!(after.chains().len(), 4);
    assert!(after.hash() != hash);
    assert_consistent(&after);
}

#[test]
fn a_stone_that_captures_is_no_suicide() {
    let b = play_all(
        board(9, Ruleset::kgs_chinese()),
        &[Play(Black, 1, 2), Play(Black, 2, 1), Play(White, 2, 2), Play(White, 1, 3), Play(White, 3, 1)],
    );
    let after = b.play(Play(White, 1, 1)).unwrap();
    assert_eq!(after.get(1, 1), White);
    assert_eq!(after.get(1, 2), Empty);
    assert_eq!(after.get(2, 1), Empty);
    let mut taken = after.adv_stones_removed().clone();
    taken.sort();
    assert_eq!(taken, vec![Coord::new(1, 2), Coord::new(2, 1)]);
    assert_eq!(after.friend_stones_removed().len(), 0);
    assert_eq!(after.get_chain(Coord::new(1, 1)).libs, 2);
    assert_consistent(&after);
}

#[test]
fn liberties_are_counted_once_each() {
    let b = play_all(board(9, Ruleset::kgs_chinese()), &[Play(Black, 2, 2), Play(Black, 3, 3)]);
    assert_eq!(b.get_chain(Coord::new(2, 2)).libs, 4);
    let b = play_all(b, &[Play(Black, 2, 3)]);
    let chain = b.get_chain(Coord::new(2, 2));
    assert_eq!(chain.coords().len(), 3);
    assert_eq!(chain.libs, 7);
    let b = play_all(b, &[Play(White, 3, 2)]);
    assert_eq!(b.get_chain(Coord::new(2, 2)).libs, 6);
    assert_eq!(b.get_chain(Coord::new(3, 2)).libs, 2);
    assert_consistent(&b);
}

#[test]
fn the_capturing_chain_gains_the_freed_points() {
    let b = play_all(
        board(19, Ruleset::kgs_chinese()),
        &[Play(Black, 4, 4), Play(White, 4, 3), Play(White, 4, 5), Play(White, 3, 4)],
    );
    assert_eq!(b.get_chain(Coord::new(4, 4)).libs, 1);
    assert_eq!(b.get_chain(Coord::new(4, 3)).libs, 3);
    let b = play_all(b, &[Play(White, 5, 4)]);
    assert_eq!(b.get(4, 4), Empty);
    assert_eq!(b.adv_stones_removed(), &vec![Coord::new(4, 4)]);
    assert_eq!(b.get_chain(Coord::new(5, 4)).libs, 4);
    assert_eq!(b.get_chain(Coord::new(4, 3)).libs, 4);
    assert_eq!(b.chains().len(), 5);
    assert_consistent(&b);
}

#[test]
fn boards_stay_consistent_through_a_game() {
    let mut b = board(5, Ruleset::any_size_tromp_taylor());
    let mut color = Black;
    let mut n = 0u32;
    for round in 0u8..6 {
        for col in 1u8..6 {
            for row in 1u8..6 {
                let c = ((col as u32) * 7 + (row as u32) * 3 + (round as u32) * 5) % 4;
                if c != 0 {
                    continue;
                }
                if let Ok(next) = b.play(Play(color, col, row)) {
                    b = next;
                    color = color.opposite();
                    n += 1;
                    assert_consistent(&b);
                }
            }
        }
    }
    assert!(n > 10);
}

#[test]
fn passes_are_counted_by_the_board() {
    let b = board(9, Ruleset::kgs_chinese());
    let hash = b.hash();
    let b = b.play(Pass(Black)).unwrap();
    assert!(!b.is_game_over());
    assert_eq!(b.next_player(), White);
    assert_eq!(b.hash(), hash);
    let b = b.play(Pass(White)).unwrap();
    assert!(b.is_game_over());
    let b = b.play(Pass(Black)).unwrap();
    assert!(b.is_game_over());
    let b = b.play(Play(White, 1, 1)).unwrap();
    assert!(!b.is_game_over());
}

#[test]
fn the_same_colour_may_play_twice_on_a_board() {
    let b = play_all(board(9, Ruleset::kgs_chinese()), &[Play(White, 1, 1), Play(White, 2, 2)]);
    assert_eq!(b.get(1, 1), White);
    assert_eq!(b.get(2, 2), White);
    assert_eq!(b.next_player(), Black);
}

#[test]
fn legal_moves_come_row_after_row_with_the_pass_last() {
    let b = board(2, Ruleset::kgs_chinese());
    assert_eq!(
        b.legal_moves(),
        vec![Play(Black, 1, 1), Play(Black, 2, 1), Play(Black, 1, 2), Play(Black, 2, 2), Pass(Black)]
    );
    let b = play_all(b, &[Play(Black, 2, 1)]);
    assert_eq!(b.legal_moves(), vec![Play(White, 1, 1), Play(White, 1, 2), Play(White, 2, 2), Pass(White)]);
}

#[test]
fn legal_moves_leave_out_forbidden_suicide() {
    let b = play_all(board(3, Ruleset::kgs_chinese()), &[Play(White, 1, 2), Play(White, 2, 1), Pass(White)]);
    let moves = b.legal_moves();
    assert_eq!(b.next_player(), Black);
    assert!(!moves.contains(&Play(Black, 1, 1)));
    assert!(moves.contains(&Play(Black, 3, 3)));
    assert_eq!(moves.len(), 7);
    for m in &moves {
        assert!(b.play(*m).is_ok());
    }
    let b = play_all(board(3, Ruleset::any_size_tromp_taylor()), &[Play(White, 1, 2), Play(White, 2, 1), Pass(White)]);
    assert!(b.legal_moves().contains(&Play(Black, 1, 1)));
}

#[test]
fn only_the_pass_is_legal_on_a_board_of_one_point() {
    let b = board(1, Ruleset::kgs_chinese());
    assert_eq!(b.legal_moves(), vec![Pass(Black)]);
}

#[test]
fn the_hash_follows_the_stones() {
    let b = board(9, Ruleset::kgs_chinese());
    let empty = b.hash();
    let one = play_all(b.clone(), &[Play(Black, 3, 3)]);
    let two = play_all(one.clone(), &[Play(White, 4, 4)]);
    let other = play_all(b.clone(), &[Play(White, 4, 4), Play(Black, 3, 3)]);
    assert!(one.hash() != empty);
    assert!(two.hash() != one.hash());
    assert_eq!(two.hash(), other.hash());
}

#[test]
fn the_hash_forgets_captured_stones() {
    let b = board(9, Ruleset::kgs_chinese());
    let with = play_all(b.clone(), &[Play(Black, 1, 1), Play(White, 1, 2), Play(White, 2, 1)]);
    let without = play_all(b.clone(), &[Play(White, 1, 2), Play(White, 2, 1)]);
    assert_eq!(with.get(1, 1), Empty);
    assert_eq!(with.hash(), without.hash());
}

#[test]
fn the_hash_table_adds_and_removes_in_one_step() {
    let t = ZobristHashTable::new(9);
    let h = t.init_hash();
    let m = Play(Black, 3, 3);
    let with = t.add_stone_to_hash(h, &m);
    assert!(with != h);
    assert_eq!(t.remove_stone_from_hash(with, &m), h);
    assert!(t.add_stone_to_hash(h, &Play(White, 3, 3)) != with);
    assert_eq!(t.size(), 9);
}

#[test]
fn an_empty_board_goes_to_white_by_komi() {
    let b = board(5, Ruleset::kgs_chinese());
    let s = b.score();
    assert_eq!(s.black, 0);
    assert_eq!(s.white, 0);
    assert_eq!(s.komi, Komi::from_half_points(13));
    assert_eq!(b.winner(), White);
    let b = Board::new(5, Komi::from_half_points(0), Ruleset::kgs_chinese());
    assert_eq!(b.winner(), Empty);
}

#[test]
fn a_region_that_touches_one_colour_belongs_to_it() {
    let b = play_all(board(5, Ruleset::kgs_chinese()), &[Play(Black, 3, 3)]);
    let s = b.score();
    assert_eq!(s.black, 25);
    assert_eq!(s.white, 0);
    assert_eq!(b.winner(), Black);
}

#[test]
fn a_region_that_touches_both_colours_belongs_to_none() {
    let b = play_all(board(5, Ruleset::kgs_chinese()), &[Play(Black, 2, 2), Play(White, 4, 4)]);
    let s = b.score();
    assert_eq!(s.black, 1);
    assert_eq!(s.white, 1);
    assert_eq!(b.winner(), White);
}

#[test]
fn walled_regions_are_counted_apart() {
    let b = play_all(
        board(5, Ruleset::kgs_chinese()),
        &[
            Play(Black, 2, 1),
            Play(Black, 2, 2),
            Play(Black, 2, 3),
            Play(Black, 2, 4),
            Play(Black, 2, 5),
            Play(White, 4, 1),
            Play(White, 4, 2),
            Play(White, 4, 3),
            Play(White, 4, 4),
            Play(White, 4, 5),
        ],
    );
    let s = b.score();
    assert_eq!(s.black, 10);
    assert_eq!(s.white, 10);
    assert_eq!(s.black_total(), 20);
    assert_eq!(s.white_total(), 33);
    assert_eq!(b.winner(), White);
    let mut b = b;
    b.set_komi(Komi::from_half_points(-1));
    assert_eq!(b.winner(), Black);
    assert_eq!(b.komi(), Komi::from_half_points(-1));
}

#[test]
fn colours_compare() {
    let c: Color = Black;
    assert!(c == Black);
    assert!(c != White);
}
