//! Moves and the reasons for which a move is refused.

use vstd::prelude::*;
use crate::color::Color;
use crate::coord::Coord;
use crate::text::{
    decimal, is_word, lower_text, lowered, parse_u8, push_decimal, push_word, slice,
    spec_parse_u8, to_chars, to_string,
};

verus! {

/// A move: a stone of a colour on the point with the given column and row, or a pass.
#[derive(Clone, Copy, Debug, PartialEq, Eq, Hash, Structural)]
pub enum Move {
    Play(Color, u8, u8),
    Pass(Color),
}

/// Why a move was refused. Each member names one broken rule.
#[derive(Clone, Copy, Debug, PartialEq, Eq, Hash, Structural)]
pub enum IllegalMove {
    PlayOutOfBoard,
    IntersectionNotEmpty,
    SuicidePlay,
    SamePlayerPlayedTwice,
    GameAlreadyOver,
    SuperKoRuleBroken,
}

impl Move {
    pub open spec fn spec_is_pass(&self) -> bool {
        self is Pass
    }

    #[verifier::when_used_as_spec(spec_is_pass)]
    pub fn is_pass(&self) -> (b: bool)
        ensures
            b == self.spec_is_pass(),
    {
        match self {
            Move::Pass(_) => true,
            Move::Play(_, _, _) => false,
        }
    }

    /// The colour that moves.
    pub open spec fn spec_color(&self) -> Color {
        match *self {
            Move::Play(c, _, _) => c,
            Move::Pass(c) => c,
        }
    }

    pub fn color(&self) -> (c: &Color)
        ensures
            *c == self.spec_color(),
    {
        match self {
            Move::Play(c, _, _) => c,
            Move::Pass(c) => c,
        }
    }

    /// The point on which a stone is played.
    pub open spec fn spec_coords(&self) -> Coord
        recommends
            self is Play,
    {
        Coord { col: self->Play_1, row: self->Play_2 }
    }

    /// The point of a move that plays a stone. A pass has no point.
    pub fn coords(&self) -> (c: Coord)
        requires
            self is Play,
        ensures
            c == self.spec_coords(),
    {
        match self {
            Move::Play(_, col, row) => Coord { col: *col, row: *row },
            Move::Pass(_) => Coord { col: 0, row: 0 },
        }
    }

    /// The letter of a column: A for the first, and so on without the letter
    /// I, up to Z for column 25; a question mark for any other column.
    pub open spec fn spec_column_letter(col: u8) -> char {
        if 1 <= col <= 8 {
            (64 + col) as char
        } else if 9 <= col <= 25 {
            (65 + col) as char
        } else {
            '?'
        }
    }

    /// The column that a small letter names: a to h are the columns 1 to 8,
    /// j to z the columns 9 to 25; no other character names a column.
    pub open spec fn spec_letter_column(c: char) -> Option<u8> {
        if 'a' <= c <= 'h' {
            Some(((c as u32) - 96) as u8)
        } else if 'j' <= c <= 'z' {
            Some(((c as u32) - 97) as u8)
        } else {
            None
        }
    }

    /// The move as the text protocol writes it: `pass`, or the letter of
    /// the column and the number of the row.
    pub open spec fn spec_to_gtp(&self) -> Seq<char> {
        match *self {
            Move::Pass(_) => "pass"@,
            Move::Play(_, col, row) => seq![Move::spec_column_letter(col)] + decimal(row as nat),
        }
    }

    pub fn to_gtp(&self) -> (s: String)
        ensures
            s@ == self.spec_to_gtp(),
    {
        let mut out: Vec<char> = Vec::new();
        match self {
            Move::Pass(_) => {
                push_word(&mut out, "pass");
            },
            Move::Play(_, col, row) => {
                let col: u8 = *col;
                let letter: char = if 1 <= col && col <= 8 {
                    (64 + col) as char
                } else if 9 <= col && col <= 25 {
                    (65 + col) as char
                } else {
                    '?'
                };
                out.push(letter);
                push_decimal(&mut out, *row as usize);
            },
        }
        to_string(&out)
    }

    /// The move that a colour word and a vertex name: the vertex is `pass`,
    /// or the letter of a column followed by the number of a row, in small or
    /// capital letters. No move where the colour or the vertex is not of that form.
    pub open spec fn spec_from_gtp(color: Seq<char>, vertex: Seq<char>) -> Option<Move> {
        let v = lowered(vertex);
        match Color::spec_from_gtp(color) {
            None => None,
            Some(c) => if v == "pass"@ {
                Some(Move::Pass(c))
            } else if v.len() < 2 {
                None
            } else {
                match (
                    Move::spec_letter_column(v[0]),
                    spec_parse_u8(v.subrange(1, v.len() as int)),
                ) {
                    (Some(col), Some(row)) => Some(Move::Play(c, col, row)),
                    _ => None,
                }
            },
        }
    }

    pub fn from_gtp(color: &str, vertex: &str) -> (m: Option<Move>)
        ensures
            m == Move::spec_from_gtp(color@, vertex@),
    {
        let color_text: Vec<char> = to_chars(color);
        let vertex_text: Vec<char> = to_chars(vertex);
        Move::from_gtp_text(&color_text, &vertex_text)
    }

    /// As `from_gtp`, for words given by their characters.
    pub fn from_gtp_text(color: &Vec<char>, vertex: &Vec<char>) -> (m: Option<Move>)
        ensures
            m == Move::spec_from_gtp(color@, vertex@),
    {
        let c: Color = match Color::from_gtp_text(color) {
            Some(c) => c,
            None => {
                return None;
            },
        };
        let v: Vec<char> = lower_text(vertex);
        if is_word(&v, "pass") {
            return Some(Move::Pass(c));
        }
        if v.len() < 2 {
            return None;
        }
        let letter: char = v[0];
        let col: u8 = if 'a' <= letter && letter <= 'h' {
            (letter as u8) - 96
        } else if 'j' <= letter && letter <= 'z' {
            (letter as u8) - 97
        } else {
            return None;
        };
        let rest: Vec<char> = slice(&v, 1, v.len());
        match parse_u8(&rest) {
            Some(row) => Some(Move::Play(c, col, row)),
            None => None,
        }
    }
}

} // verus!
