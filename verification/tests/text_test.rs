use iomrascalai::chain::Chain;
use iomrascalai::cli::read_move;
use iomrascalai::color::Color;
use iomrascalai::color::Color::{Black, Empty, White};
use iomrascalai::coord::Coord;
use iomrascalai::engine::McEngine;
use iomrascalai::game::Game;
use iomrascalai::gomove::Move;
use iomrascalai::gomove::Move::{Pass, Play};
use iomrascalai::gtp::{
    generate_known_commands, knows, parse, preprocess, split, Command, GTPInterpreter, Request,
};
use iomrascalai::board::Board;
use iomrascalai::ruleset::Ruleset;
use iomrascalai::score::{parse_komi, Komi, Score};
use iomrascalai::sgf::{tokenize, value_of_first, Parser};
use iomrascalai::text::{
    find, is_white, is_word, lower_text, only_digits, parse_bounded, parse_u8, push_decimal,
    push_padded, slice, to_chars, to_string, trim,
};

fn chars(s: &str) -> Vec<char> {
    s.chars().collect()
}

fn text(v: &Vec<char>) -> String {
    v.iter().collect()
}

#[test]
fn strings_and_characters_go_both_ways() {
    assert_eq!(to_chars("a b\tc"), vec!['a', ' ', 'b', '\t', 'c']);
    assert_eq!(to_string(&vec!['x', 'y']), "xy");
    assert_eq!(to_chars(""), Vec::<char>::new());
    assert!(is_word(&chars("name"), "name"));
    assert!(!is_word(&chars("name"), "names"));
    assert!(!is_word(&chars("nave"), "name"));
    assert_eq!(slice(&chars("hello"), 1, 3), chars("el"));
    assert_eq!(lower_text(&chars("PaSs Q16 é")), chars("pass q16 é"));
}

#[test]
fn numbers_are_written_in_decimal() {
    let mut out = Vec::new();
    push_decimal(&mut out, 0);
    out.push(' ');
    push_decimal(&mut out, 7);
    out.push(' ');
    push_decimal(&mut out, 1203);
    assert_eq!(text(&out), "0 7 1203");
    let mut out = Vec::new();
    push_padded(&mut out, 5, 3, true);
    out.push('|');
    push_padded(&mut out, 5, 3, false);
    out.push('|');
    push_padded(&mut out, 1234, 3, false);
    assert_eq!(text(&out), "5  |  5|1234");
}

#[test]
fn small_numbers_are_read_from_decimal() {
    assert_eq!(parse_u8(&chars("19")), Some(19));
    assert_eq!(parse_u8(&chars("0")), Some(0));
    assert_eq!(parse_u8(&chars("255")), Some(255));
    assert_eq!(parse_u8(&chars("+9")), Some(9));
    assert_eq!(parse_u8(&chars("007")), Some(7));
    assert_eq!(parse_u8(&chars("256")), None);
    assert_eq!(parse_u8(&chars("1000")), None);
    assert_eq!(parse_u8(&chars("")), None);
    assert_eq!(parse_u8(&chars("+")), None);
    assert_eq!(parse_u8(&chars("-1")), None);
    assert_eq!(parse_u8(&chars("1a")), None);
    assert_eq!(parse_u8(&chars(" 1")), None);
    for n in 0u16..=255 {
        assert_eq!(parse_u8(&chars(&n.to_string())), "7".parse::<u8>().ok().map(|_| n as u8));
        assert_eq!(parse_u8(&chars(&n.to_string())), n.to_string().parse::<u8>().ok());
    }
    assert_eq!(parse_bounded(&chars("1000000000"), 1000000000), Some(1000000000));
    assert_eq!(parse_bounded(&chars("1000000001"), 1000000000), None);
    assert_eq!(parse_bounded(&chars("99999999999999999999999"), 1000000000), None);
    assert!(only_digits(&chars("0123456789")));
    assert!(only_digits(&chars("")));
    assert!(!only_digits(&chars("12.5")));
}

#[test]
fn komi_is_read_in_half_points() {
    assert_eq!(parse_komi(&chars("6.5")), Some(Komi::from_half_points(13)));
    assert_eq!(parse_komi(&chars("7")), Some(Komi::from_half_points(14)));
    assert_eq!(parse_komi(&chars("7.0")), Some(Komi::from_half_points(14)));
    assert_eq!(parse_komi(&chars("0.5")), Some(Komi::from_half_points(1)));
    assert_eq!(parse_komi(&chars("-0.5")), Some(Komi::from_half_points(-1)));
    assert_eq!(parse_komi(&chars("+5.50")), Some(Komi::from_half_points(11)));
    assert_eq!(parse_komi(&chars("5.49")), Some(Komi::from_half_points(10)));
    assert_eq!(parse_komi(&chars("5.")), Some(Komi::from_half_points(10)));
    assert_eq!(parse_komi(&chars("1000000000.5")), Some(Komi::from_half_points(2000000001)));
    assert_eq!(parse_komi(&chars("1000000001")), None);
    assert_eq!(parse_komi(&chars(".5")), None);
    assert_eq!(parse_komi(&chars("")), None);
    assert_eq!(parse_komi(&chars("six")), None);
    assert_eq!(parse_komi(&chars("6.5.1")), None);
    assert_eq!(parse_komi(&chars("6,5")), None);
}

#[test]
fn komi_and_scores_are_written_in_points() {
    assert_eq!(Komi::from_half_points(13).text(), "6.5");
    assert_eq!(Komi::from_half_points(14).text(), "7");
    assert_eq!(Komi::from_half_points(0).text(), "0");
    assert_eq!(Komi::from_half_points(-1).text(), "-0.5");
    assert_eq!(Komi::from_half_points(i32::MIN).text(), "-1073741824");
    assert_eq!(Score { black: 10, white: 4, komi: Komi::from_half_points(13) }.text(), "W+0.5");
    assert_eq!(Score { black: 20, white: 4, komi: Komi::from_half_points(13) }.text(), "B+9.5");
    assert_eq!(Score { black: 7, white: 4, komi: Komi::from_half_points(6) }.text(), "0");
    assert_eq!(Score { black: 0, white: 0, komi: Komi::from_half_points(14) }.text(), "W+7");
}

#[test]
fn white_space_is_trimmed_at_both_ends() {
    assert_eq!(trim(&chars("  a b \n")), chars("a b"));
    assert_eq!(trim(&chars("\u{a0}x\u{3000}")), chars("x"));
    assert_eq!(trim(&chars("   ")), chars(""));
    assert_eq!(trim(&chars("")), chars(""));
    assert_eq!(trim(&chars("x")), chars("x"));
    for u in 0u32..0x3100 {
        if let Some(c) = char::from_u32(u) {
            assert_eq!(is_white(c), c.is_whitespace());
        }
    }
    assert_eq!(find(&chars("a#b#"), '#', 0), 1);
    assert_eq!(find(&chars("a#b#"), '#', 2), 3);
    assert_eq!(find(&chars("ab"), '#', 0), 2);
}

#[test]
fn colours_and_moves_have_protocol_names() {
    assert_eq!(Color::from_gtp("w"), Some(White));
    assert_eq!(Color::from_gtp("WHITE"), Some(White));
    assert_eq!(Color::from_gtp("b"), Some(Black));
    assert_eq!(Color::from_gtp("Black"), Some(Black));
    assert_eq!(Color::from_gtp("blue"), None);
    assert_eq!(Color::from_gtp(""), None);
    assert_eq!(Black.name(), "Black");
    assert_eq!(White.name(), "White");
    assert_eq!(Empty.name(), "Empty");
    assert_eq!(Black.sign(), 'X');
    assert_eq!(White.sign(), 'O');
    assert_eq!(Empty.sign(), '.');
    assert_eq!(Play(Black, 1, 1).to_gtp(), "A1");
    assert_eq!(Play(Black, 8, 19).to_gtp(), "H19");
    assert_eq!(Play(Black, 9, 3).to_gtp(), "J3");
    assert_eq!(Play(White, 16, 16).to_gtp(), "Q16");
    assert_eq!(Play(White, 25, 25).to_gtp(), "Z25");
    assert_eq!(Play(White, 26, 1).to_gtp(), "?1");
    assert_eq!(Pass(White).to_gtp(), "pass");
    assert_eq!(Move::from_gtp("b", "A1"), Some(Play(Black, 1, 1)));
    assert_eq!(Move::from_gtp("white", "q16"), Some(Play(White, 16, 16)));
    assert_eq!(Move::from_gtp("W", "J3"), Some(Play(White, 9, 3)));
    assert_eq!(Move::from_gtp("W", "h8"), Some(Play(White, 8, 8)));
    assert_eq!(Move::from_gtp("B", "z25"), Some(Play(Black, 25, 25)));
    assert_eq!(Move::from_gtp("B", "PASS"), Some(Pass(Black)));
    assert_eq!(Move::from_gtp("B", "i5"), None);
    assert_eq!(Move::from_gtp("B", "a"), None);
    assert_eq!(Move::from_gtp("B", "a300"), None);
    assert_eq!(Move::from_gtp("B", "5a"), None);
    assert_eq!(Move::from_gtp("x", "a1"), None);
    for col in 1u8..=25 {
        let m = Play(Black, col, 7);
        assert_eq!(Move::from_gtp("b", &m.to_gtp()), Some(m));
    }
}

#[test]
fn a_chain_is_shown_on_one_line() {
    let mut c = Chain::new(3, Black);
    c.libs = 4;
    c.add_stone(Coord::new(3, 3));
    c.add_stone(Coord::new(10, 12));
    assert_eq!(c.show(), "3  | Black, libs:  4, stones:  3,3 | 10,12 |");
    let e = Chain::new(0, Empty);
    assert_eq!(e.show(), "0  | Empty, libs:  1, stones: ");
}

#[test]
fn boards_and_games_are_drawn() {
    let b = Board::new(3, Komi::from_half_points(13), Ruleset::kgs_chinese());
    let b = b.play(Play(Black, 1, 1)).unwrap();
    let b = b.play(Play(White, 3, 2)).unwrap();
    assert_eq!(b.as_string(), " 3 . . . \n 2 . . O \n 1 X . . \n");
    let g = Game::new(2, Komi::from_half_points(13), Ruleset::kgs_chinese());
    let g = g.play(Play(Black, 2, 2)).unwrap();
    assert_eq!(g.text(), "komi: 6.5\n 2 . X \n 1 . . \n   1 2 \n");
}

#[test]
fn lines_are_made_ready() {
    assert_eq!(preprocess("  play b a1  "), chars("play b a1"));
    assert_eq!(preprocess("play\tb\ta1\n"), chars("play b a1"));
    assert_eq!(preprocess("name # the name"), chars("name"));
    assert_eq!(preprocess("# only a comment"), chars(""));
    assert_eq!(preprocess("na\u{7}me\r\u{7f}"), chars("name"));
    assert_eq!(preprocess(""), chars(""));
    assert_eq!(preprocess("komi 6.5é"), chars("komi 6.5é"));
}

#[test]
fn lines_are_parted_at_single_spaces() {
    assert_eq!(split(&chars("play b a1")), vec![chars("play"), chars("b"), chars("a1")]);
    assert_eq!(split(&chars("a  b")), vec![chars("a"), chars(""), chars("b")]);
    assert_eq!(split(&chars("")), vec![chars("")]);
    assert_eq!(split(&chars(" ")), vec![chars(""), chars("")]);
}

#[test]
fn the_known_commands_are_listed() {
    let known = generate_known_commands();
    assert_eq!(known.len(), 13);
    assert_eq!(known[0], "play");
    assert_eq!(known[12], "final_score");
    assert!(knows(&known, &chars("genmove")));
    assert!(!knows(&known, &chars("undo")));
}

#[test]
fn lines_are_read_as_requests() {
    assert_eq!(parse(""), Request::Empty);
    assert_eq!(parse("   # nothing"), Request::Empty);
    assert_eq!(parse("name"), Request::Name);
    assert_eq!(parse("version"), Request::Version);
    assert_eq!(parse("protocol_version"), Request::ProtocolVersion);
    assert_eq!(parse("list_commands"), Request::ListCommands);
    assert_eq!(parse("known_command play"), Request::KnownCommand(true));
    assert_eq!(parse("known_command undo"), Request::KnownCommand(false));
    assert_eq!(parse("known_command"), Request::Error);
    assert_eq!(parse("boardsize 9"), Request::BoardSize(9));
    assert_eq!(parse("boardsize nine"), Request::Error);
    assert_eq!(parse("boardsize 300"), Request::Error);
    assert_eq!(parse("boardsize"), Request::Error);
    assert_eq!(parse("clear_board"), Request::ClearBoard);
    assert_eq!(parse("komi 7.5"), Request::Komi(Komi::from_half_points(15)));
    assert_eq!(parse("komi much"), Request::Error);
    assert_eq!(parse("genmove b"), Request::GenMove(Black));
    assert_eq!(parse("genmove WHITE"), Request::GenMove(White));
    assert_eq!(parse("genmove green"), Request::Error);
    assert_eq!(parse("play b q16"), Request::Play(Play(Black, 16, 16)));
    assert_eq!(parse("play\tw\tpass"), Request::Play(Pass(White)));
    assert_eq!(parse("play b"), Request::Error);
    assert_eq!(parse("play b i9"), Request::Error);
    assert_eq!(parse("showboard"), Request::ShowBoard);
    assert_eq!(parse("quit"), Request::Quit);
    assert_eq!(parse("final_score"), Request::FinalScore);
    assert_eq!(parse("undo"), Request::Error);
    assert_eq!(parse("NAME"), Request::Error);
}

#[test]
fn the_interpreter_starts_on_nineteen_lines() {
    let i = GTPInterpreter::new(McEngine::new());
    assert_eq!(i.boardsize(), 19);
    assert_eq!(i.komi(), Komi::from_half_points(13));
    assert_eq!(i.game().move_number(), 0);
}

#[test]
fn the_interpreter_answers_what_it_is_asked() {
    let mut i = GTPInterpreter::new(McEngine::new());
    assert!(matches!(i.read("name"), Command::Name));
    assert!(matches!(i.read("version"), Command::Version));
    assert!(matches!(i.read("protocol_version"), Command::ProtocolVersion));
    assert!(matches!(i.read(""), Command::Empty));
    assert!(matches!(i.read("nonsense"), Command::Error));
    assert!(matches!(i.read("quit"), Command::Quit));
    assert!(matches!(i.read("known_command komi"), Command::KnownCommand(true)));
    assert!(matches!(i.read("known_command omi"), Command::KnownCommand(false)));
    match i.read("list_commands") {
        Command::ListCommands(list) => {
            assert_eq!(
                list,
                "play\ngenmove\nprotocol_version\nname\nversion\nknown_command\nlist_commands\nquit\nboardsize\nclear_board\nkomi\nshowboard\nfinal_score"
            );
        }
        other => panic!("{:?}", other),
    }
}

#[test]
fn the_interpreter_sets_up_the_game() {
    let mut i = GTPInterpreter::new(McEngine::new());
    assert!(matches!(i.read("boardsize 5"), Command::BoardSize));
    assert_eq!(i.boardsize(), 5);
    assert_eq!(i.komi(), Komi::from_half_points(13));
    assert!(matches!(i.read("komi 0.5"), Command::Komi));
    assert_eq!(i.komi(), Komi::from_half_points(1));
    assert!(matches!(i.read("play b a1"), Command::Play));
    assert_eq!(i.game().get(1, 1), Black);
    assert_eq!(i.game().move_number(), 1);
    assert!(matches!(i.read("play w a1"), Command::PlayError(Play(White, 1, 1))));
    assert!(matches!(i.read("play w k1"), Command::PlayError(Play(White, 10, 1))));
    assert_eq!(i.game().move_number(), 1);
    assert!(matches!(i.read("clear_board"), Command::ClearBoard));
    assert_eq!(i.boardsize(), 5);
    assert_eq!(i.komi(), Komi::from_half_points(1));
    assert_eq!(i.game().get(1, 1), Empty);
    assert_eq!(i.game().move_number(), 0);
    assert!(matches!(i.read("boardsize x"), Command::Error));
    assert_eq!(i.boardsize(), 5);
}

#[test]
fn the_interpreter_draws_and_counts() {
    let mut i = GTPInterpreter::new(McEngine::new());
    i.read("boardsize 2");
    i.read("play b b2");
    match i.read("showboard") {
        Command::ShowBoard(s) => assert_eq!(s, "\nkomi: 6.5\n 2 . X \n 1 . . \n   1 2 \n"),
        other => panic!("{:?}", other),
    }
    match i.read("final_score") {
        Command::FinalScore(s) => assert_eq!(s, "W+2.5"),
        other => panic!("{:?}", other),
    }
    i.read("komi 0.5");
    match i.read("final_score") {
        Command::FinalScore(s) => assert_eq!(s, "B+3.5"),
        other => panic!("{:?}", other),
    }
}

#[test]
fn the_interpreter_lets_the_engine_move() {
    let mut i = GTPInterpreter::new(McEngine::new());
    i.read("boardsize 1");
    match i.read("genmove b") {
        Command::GenMove(vertex) => assert_eq!(vertex, "pass"),
        other => panic!("{:?}", other),
    }
    assert_eq!(i.game().move_number(), 1);
    match i.read("genmove w") {
        Command::GenMove(vertex) => assert_eq!(vertex, "pass"),
        other => panic!("{:?}", other),
    }
    assert!(i.game().is_over());
    assert!(matches!(i.read("genmove b"), Command::GenMoveError(Pass(Black))));
    assert!(matches!(i.read("play b pass"), Command::PlayError(Pass(Black))));
}

#[test]
fn the_properties_of_a_record_are_found() {
    let props = tokenize(&chars("(;GM[1]SZ[19]KM[6.5];B[pd];W[dp]AB[aa][bb])"));
    let seen: Vec<(String, String)> = props.iter().map(|p| (text(&p.name), text(&p.val))).collect();
    let expect: Vec<(String, String)> = vec![
        ("GM", "1"),
        ("SZ", "19"),
        ("KM", "6.5"),
        ("KM", "pd"),
        ("KM", "dp"),
        ("AB", "aa"),
        ("AB", "bb"),
    ]
    .into_iter()
    .map(|(a, b)| (a.to_string(), b.to_string()))
    .collect();
    assert_eq!(seen, expect);
    assert_eq!(value_of_first(&props, "SZ"), Some(chars("19")));
    assert_eq!(value_of_first(&props, "AB"), Some(chars("aa")));
    assert_eq!(value_of_first(&props, "RU"), None);
}

#[test]
fn values_need_a_closing_bracket_and_a_character() {
    assert_eq!(tokenize(&chars("SZ[]")).len(), 0);
    assert_eq!(tokenize(&chars("SZ[19")).len(), 0);
    assert_eq!(tokenize(&chars("SZ 19")).len(), 0);
    let props = tokenize(&chars("ABC[x]"));
    assert_eq!(props.len(), 1);
    assert_eq!(text(&props[0].name), "BC");
    let props = tokenize(&chars("SZ[[9]"));
    assert_eq!(text(&props[0].val), "[9");
    let props = tokenize(&chars("SZ[]9]"));
    assert_eq!(props.len(), 0);
    let props = tokenize(&chars("sz[9]"));
    assert_eq!(text(&props[0].name), "");
    assert_eq!(text(&props[0].val), "9");
}

#[test]
fn a_record_gives_its_board() {
    let p = Parser::new(String::from("(;GM[1]FF[4]SZ[9]KM[5.5];B[ee])"));
    assert_eq!(p.size(), Some(9));
    assert_eq!(p.komi(), Some(Komi::from_half_points(11)));
    let b = p.board().unwrap();
    assert_eq!(b.size(), 9);
    assert_eq!(b.komi(), Komi::from_half_points(11));
    assert_eq!(b.get(5, 5), Empty);
    assert_eq!(b.chains().len(), 1);
    assert_eq!(p.tokenize().len(), 5);
}

#[test]
fn a_record_without_size_or_komi_gives_no_board() {
    assert!(Parser::new(String::from("(;GM[1]KM[5.5])")).board().is_none());
    assert!(Parser::new(String::from("(;GM[1]SZ[9])")).board().is_none());
    assert!(Parser::new(String::from("(;SZ[300]KM[5.5])")).board().is_none());
    assert!(Parser::new(String::from("(;SZ[9]KM[much])")).board().is_none());
    assert!(Parser::new(String::from("")).board().is_none());
    assert_eq!(Parser::new(String::from("SZ[x]SZ[9]KM[0]")).size(), None);
}

#[test]
fn a_typed_line_is_read_as_a_move() {
    assert_eq!(read_move("p\n", Black), Some(Pass(Black)));
    assert_eq!(read_move("3 4\n", White), Some(Play(White, 3, 4)));
    assert_eq!(read_move("3 4", White), Some(Play(White, 3, 4)));
    assert_eq!(read_move("\n\n19 1\n\n", Black), Some(Play(Black, 19, 1)));
    assert_eq!(read_move("3 4 5\n", Black), Some(Play(Black, 3, 4)));
    assert_eq!(read_move("3\n", Black), None);
    assert_eq!(read_move("3  4\n", Black), None);
    assert_eq!(read_move("3 x\n", Black), None);
    assert_eq!(read_move("3 4 x\n", Black), None);
    assert_eq!(read_move("300 4\n", Black), None);
    assert_eq!(read_move("p", Black), None);
    assert_eq!(read_move("", Black), None);
    assert_eq!(read_move("\n", Black), None);
}
