//! The three states of a point of the board.

use vstd::prelude::*;
use crate::text::{is_word, lower_text, lowered, push_word, to_chars, to_string};

verus! {

/// What a point of the board holds. `Empty` is a state of a point, never a player.
#[derive(Clone, Copy, Debug, PartialEq, Eq, Hash, Structural)]
pub enum Color {
    Black,
    White,
    Empty,
}

impl Color {
    /// The other player; `Empty` has no opponent and is its own opposite.
    pub open spec fn spec_opposite(self) -> Color {
        match self {
            Color::Black => Color::White,
            Color::White => Color::Black,
            Color::Empty => Color::Empty,
        }
    }

    #[verifier::when_used_as_spec(spec_opposite)]
    pub fn opposite(self) -> (other: Color)
        ensures
            other == self.spec_opposite(),
    {
        match self {
            Color::Black => Color::White,
            Color::White => Color::Black,
            Color::Empty => Color::Empty,
        }
    }

    /// Whether the colour is one of the two players.
    pub open spec fn spec_is_player(self) -> bool {
        self != Color::Empty
    }

    #[verifier::when_used_as_spec(spec_is_player)]
    pub fn is_player(self) -> (b: bool)
        ensures
            b == self.spec_is_player(),
    {
        match self {
            Color::Empty => false,
            _ => true,
        }
    }
}

impl Color {
    /// The name of the colour.
    pub open spec fn spec_name(&self) -> Seq<char> {
        match *self {
            Color::Black => "Black"@,
            Color::White => "White"@,
            Color::Empty => "Empty"@,
        }
    }

    pub fn name(&self) -> (s: String)
        ensures
            s@ == self.spec_name(),
    {
        let mut out: Vec<char> = Vec::new();
        match self {
            Color::Black => push_word(&mut out, "Black"),
            Color::White => push_word(&mut out, "White"),
            Color::Empty => push_word(&mut out, "Empty"),
        }
        to_string(&out)
    }

    /// The colour that a word names: `w` or `white` for White, `b` or
    /// `black` for Black, in small or capital letters; no colour for another word.
    pub open spec fn spec_from_gtp(word: Seq<char>) -> Option<Color> {
        let l = lowered(word);
        if l == "w"@ || l == "white"@ {
            Some(Color::White)
        } else if l == "b"@ || l == "black"@ {
            Some(Color::Black)
        } else {
            None
        }
    }

    pub fn from_gtp(word: &str) -> (c: Option<Color>)
        ensures
            c == Color::spec_from_gtp(word@),
    {
        let chars: Vec<char> = to_chars(word);
        Color::from_gtp_text(&chars)
    }

    /// As `from_gtp`, for a word given by its characters.
    pub fn from_gtp_text(word: &Vec<char>) -> (c: Option<Color>)
        ensures
            c == Color::spec_from_gtp(word@),
    {
        let l: Vec<char> = lower_text(word);
        if is_word(&l, "w") || is_word(&l, "white") {
            Some(Color::White)
        } else if is_word(&l, "b") || is_word(&l, "black") {
            Some(Color::Black)
        } else {
            None
        }
    }

    /// The sign of the colour on a drawn board.
    pub open spec fn spec_sign(&self) -> char {
        match *self {
            Color::Black => 'X',
            Color::White => 'O',
            Color::Empty => '.',
        }
    }

    pub fn sign(&self) -> (c: char)
        ensures
            c == self.spec_sign(),
    {
        match self {
            Color::Black => 'X',
            Color::White => 'O',
            Color::Empty => '.',
        }
    }
}

/// The opposite of a player's opponent is the player again.
pub proof fn lemma_opposite_involutive(c: Color)
    ensures
        c.opposite().opposite() == c,
        c.is_player() ==> c.opposite() != c && c.opposite().is_player(),
{
}

} // verus!
