//! Reading the moves of a game that is played on the terminal.

use vstd::prelude::*;
use crate::color::Color;
use crate::gomove::Move;
use crate::gtp::{fields, split, texts};
use crate::text::{is_word, parse_u8, slice, spec_parse_u8, to_chars};

verus! {

/// The place of the first character that is no line feed, the length of the
/// text where there is none.
pub open spec fn first_said(s: Seq<char>, from: int) -> int
    decreases s.len() - from,
{
    if from >= s.len() {
        s.len() as int
    } else if s[from] != '\n' {
        from
    } else {
        first_said(s, from + 1)
    }
}

/// The place after the last character that is no line feed, looking
/// backwards from `to` and not further than `from`.
pub open spec fn last_said(s: Seq<char>, from: int, to: int) -> int
    decreases to,
{
    if to <= from || to <= 0 {
        from
    } else if s[to - 1] != '\n' {
        to
    } else {
        last_said(s, from, to - 1)
    }
}

/// A line without the line feeds at its two ends.
pub open spec fn unlined(s: Seq<char>) -> Seq<char> {
    let from = first_said(s, 0);
    s.subrange(from, last_said(s, from, s.len() as int))
}

/// Every one of the first `n` pieces writes a number below 256.
pub open spec fn all_numbers(f: Seq<Seq<char>>, n: int) -> bool {
    forall|i: int| 0 <= i < n ==> spec_parse_u8(#[trigger] f[i]) is Some
}

/// The move that a line of the player names: the line `p` is a pass; else
/// the line holds numbers parted by single spaces, of which the first is the
/// column and the second the row of a stone. No move where a piece of the
/// line is no number below 256, or where there are not two numbers.
pub open spec fn spec_read_move(line: Seq<char>, player: Color) -> Option<Move> {
    let f = fields(unlined(line));
    if line == "p\n"@ {
        Some(Move::Pass(player))
    } else if f.len() >= 2 && all_numbers(f, f.len() as int) {
        Some(Move::Play(player, spec_parse_u8(f[0]).unwrap(), spec_parse_u8(f[1]).unwrap()))
    } else {
        None
    }
}

/// Reads the line that a player typed as a move.
pub fn read_move(line: &str, player: Color) -> (m: Option<Move>)
    ensures
        m == spec_read_move(line@, player),
{
    let text: Vec<char> = to_chars(line);
    if is_word(&text, "p\n") {
        return Some(Move::Pass(player));
    }
    let mut from: usize = 0;
    while from < text.len() && text[from] == '\n'
        invariant
            from <= text@.len(),
            first_said(text@, 0) == first_said(text@, from as int),
        decreases text@.len() - from,
    {
        from += 1;
    }
    let mut to: usize = text.len();
    while to > from && text[to - 1] == '\n'
        invariant
            from <= to <= text@.len(),
            last_said(text@, from as int, text@.len() as int) == last_said(
                text@,
                from as int,
                to as int,
            ),
        decreases to,
    {
        to -= 1;
    }
    let said: Vec<char> = slice(&text, from, to);
    let pieces: Vec<Vec<char>> = split(&said);
    let ghost f = fields(unlined(line@));
    let mut numbers: Vec<u8> = Vec::new();
    let mut i: usize = 0;
    while i < pieces.len()
        invariant
            i <= pieces@.len(),
            texts(pieces@) == f,
            f == fields(unlined(line@)),
            line@ != "p\n"@,
            numbers@.len() == i,
            forall|j: int| 0 <= j < i ==> spec_parse_u8(#[trigger] f[j]) == Some(numbers@[j]),
        decreases pieces@.len() - i,
    {
        assert(f[i as int] == pieces@[i as int]@);
        match parse_u8(&pieces[i]) {
            Some(n) => {
                numbers.push(n);
            },
            None => {
                return None;
            },
        }
        i += 1;
    }
    if numbers.len() >= 2 {
        Some(Move::Play(player, numbers[0], numbers[1]))
    } else {
        None
    }
}

} // verus!
