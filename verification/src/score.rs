//! Komi and the result of counting a position.

use vstd::prelude::*;
use crate::color::Color;
use crate::text::{
    all_digits, decimal, digit_value, find, only_digits, parse_bounded, push_decimal_wide,
    push_word, slice, spec_digit_value, spec_find, spec_parse_bounded, to_string,
};

verus! {

/// The bonus added to White's total, counted in half points: a komi of 6.5
/// is 13 half points.
#[derive(Clone, Copy, Debug, PartialEq, Eq, Hash, Structural)]
pub struct Komi {
    pub half_points: i32,
}

impl Komi {
    pub fn from_half_points(half_points: i32) -> (k: Komi)
        ensures
            k.half_points == half_points,
    {
        Komi { half_points }
    }

    pub fn half_points(&self) -> (h: i32)
        ensures
            h == self.half_points,
    {
        self.half_points
    }

    /// The komi in points, as text: 13 half points read `6.5`, 14 read `7`.
    pub open spec fn spec_text(&self) -> Seq<char> {
        if self.half_points < 0 {
            "-"@ + halves_text((-self.half_points) as nat)
        } else {
            halves_text(self.half_points as nat)
        }
    }

    pub fn text(&self) -> (s: String)
        ensures
            s@ == self.spec_text(),
    {
        let mut out: Vec<char> = Vec::new();
        let h: i64 = self.half_points as i64;
        if h < 0 {
            push_word(&mut out, "-");
            push_halves(&mut out, (-h) as u128);
        } else {
            push_halves(&mut out, h as u128);
        }
        to_string(&out)
    }
}

/// The komi that a text writes in points: an optional sign, whole points in
/// decimal digits up to 1000000000, and optionally a point and more digits.
/// Of the digits after the point only the first counts: from 5 on it adds
/// half a point. No komi where the text is not of that form.
pub open spec fn spec_parse_komi(s: Seq<char>) -> Option<Komi> {
    let signed = s.len() > 0 && (s[0] == '-' || s[0] == '+');
    let from: int = if signed {
        1
    } else {
        0
    };
    let dot = spec_find(s, '.', from);
    let whole = spec_parse_bounded(s.subrange(from, dot), 1000000000);
    let rest = if dot < s.len() {
        s.subrange(dot + 1, s.len() as int)
    } else {
        Seq::<char>::empty()
    };
    match whole {
        Some(w) => if all_digits(rest) {
            let half: int = if rest.len() > 0 && spec_digit_value(rest[0]).unwrap() >= 5 {
                1
            } else {
                0
            };
            let halves = 2 * w + half;
            Some(
                Komi {
                    half_points: if s.len() > 0 && s[0] == '-' {
                        (-halves) as i32
                    } else {
                        halves as i32
                    },
                },
            )
        } else {
            None
        },
        None => None,
    }
}

pub fn parse_komi(text: &Vec<char>) -> (k: Option<Komi>)
    ensures
        k == spec_parse_komi(text@),
{
    let negative: bool = text.len() > 0 && text[0] == '-';
    let from: usize = if text.len() > 0 && (text[0] == '-' || text[0] == '+') {
        1
    } else {
        0
    };
    let dot: usize = find(text, '.', from);
    let whole_text: Vec<char> = slice(text, from, dot);
    let rest: Vec<char> = if dot < text.len() {
        slice(text, dot + 1, text.len())
    } else {
        Vec::new()
    };
    match parse_bounded(&whole_text, 1000000000) {
        None => None,
        Some(w) => {
            if !only_digits(&rest) {
                return None;
            }
            let half: i32 = if rest.len() > 0 {
                match digit_value(rest[0]) {
                    Some(d) => if d >= 5 {
                        1
                    } else {
                        0
                    },
                    None => 0,
                }
            } else {
                0
            };
            let halves: i32 = 2 * (w as i32) + half;
            Some(Komi { half_points: if negative {
                -halves
            } else {
                halves
            } })
        },
    }
}

/// A number of half points written in points: the whole points, and `.5`
/// for an odd half.
pub open spec fn halves_text(halves: nat) -> Seq<char> {
    if halves % 2 == 1 {
        decimal(halves / 2) + ".5"@
    } else {
        decimal(halves / 2)
    }
}

/// Writes a number of half points in points at the end of a text.
pub fn push_halves(out: &mut Vec<char>, halves: u128)
    ensures
        final(out)@ == old(out)@ + halves_text(halves as nat),
{
    push_decimal_wide(out, halves / 2);
    if halves % 2 == 1 {
        push_word(out, ".5");
    }
}

/// The result of counting a position by area: for each colour its stones and
/// the empty points that it alone surrounds; komi is added to White's total
/// when the totals are compared.
#[derive(Clone, Copy, Debug, PartialEq, Eq, Structural)]
pub struct Score {
    pub black: usize,
    pub white: usize,
    pub komi: Komi,
}

impl Score {
    /// Black's total, in half points.
    pub open spec fn spec_black_total(&self) -> int {
        2 * self.black
    }

    /// White's total with komi, in half points.
    pub open spec fn spec_white_total(&self) -> int {
        2 * self.white + self.komi.half_points
    }

    /// The colour with the strictly higher total; `Empty` when the totals are
    /// equal, which is a draw.
    pub open spec fn spec_color(&self) -> Color {
        if self.spec_black_total() > self.spec_white_total() {
            Color::Black
        } else if self.spec_white_total() > self.spec_black_total() {
            Color::White
        } else {
            Color::Empty
        }
    }

    pub fn black_total(&self) -> (t: i128)
        ensures
            t == self.spec_black_total(),
    {
        2 * (self.black as i128)
    }

    pub fn white_total(&self) -> (t: i128)
        ensures
            t == self.spec_white_total(),
    {
        2 * (self.white as i128) + (self.komi.half_points as i128)
    }

    /// The winner of the count, or `Empty` for a draw.
    pub fn color(&self) -> (winner: Color)
        ensures
            winner == self.spec_color(),
    {
        let b: i128 = self.black_total();
        let w: i128 = self.white_total();
        if b > w {
            Color::Black
        } else if w > b {
            Color::White
        } else {
            Color::Empty
        }
    }

    /// The result as text: the letter of the winner, a plus sign and the
    /// margin in points, as in `W+6.5`; `0` for a draw.
    pub open spec fn spec_text(&self) -> Seq<char> {
        let d = self.spec_black_total() - self.spec_white_total();
        if d > 0 {
            "B+"@ + halves_text(d as nat)
        } else if d < 0 {
            "W+"@ + halves_text((-d) as nat)
        } else {
            "0"@
        }
    }

    pub fn text(&self) -> (s: String)
        ensures
            s@ == self.spec_text(),
    {
        let mut out: Vec<char> = Vec::new();
        let d: i128 = self.black_total() - self.white_total();
        if d > 0 {
            push_word(&mut out, "B+");
            push_halves(&mut out, d as u128);
        } else if d < 0 {
            push_word(&mut out, "W+");
            push_halves(&mut out, (-d) as u128);
        } else {
            push_word(&mut out, "0");
        }
        to_string(&out)
    }
}

} // verus!
