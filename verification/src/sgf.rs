//! Reading the size and the komi of a game record: the properties of the
//! record are found by scanning its text.

use vstd::prelude::*;
use crate::board::Board;
use crate::color::Color;
use crate::coord::Coord;
use crate::ruleset::Ruleset;
use crate::score::{parse_komi, spec_parse_komi, Komi};
use crate::text::{find, is_word, parse_u8, slice, spec_find, spec_parse_u8, to_chars};

verus! {

/// A property of a record: its name and one value.
pub struct Property {
    pub name: Vec<char>,
    pub val: Vec<char>,
}

impl View for Property {
    type V = (Seq<char>, Seq<char>);

    open spec fn view(&self) -> (Seq<char>, Seq<char>) {
        (self.name@, self.val@)
    }
}

/// A capital letter of the alphabet from A to Z.
pub open spec fn is_upper(c: char) -> bool {
    'A' <= c <= 'Z'
}

/// The property value that begins at the place `i` of the text, if one
/// does: two capital letters may come first and are its name; then come an
/// opening square bracket, one character at least that is no closing square
/// bracket, and a closing square bracket. The answer tells whether there is a
/// name, where the value begins and where it ends.
pub open spec fn token_at(s: Seq<char>, i: int) -> Option<(bool, int, int)> {
    if i + 2 < s.len() && is_upper(s[i]) && is_upper(s[i + 1]) && s[i + 2] == '[' && i + 3
        < spec_find(s, ']', i + 3) < s.len() {
        Some((true, i + 3, spec_find(s, ']', i + 3)))
    } else if i < s.len() && s[i] == '[' && i + 1 < spec_find(s, ']', i + 1) < s.len() {
        Some((false, i + 1, spec_find(s, ']', i + 1)))
    } else {
        None
    }
}

/// The properties found from the place `i` on, reading from left to right:
/// where a value begins it is taken, and the reading goes on after it; a
/// value without a name has the name that was read last, `prev`.
pub open spec fn properties_from(s: Seq<char>, i: int, prev: Seq<char>) -> Seq<
    (Seq<char>, Seq<char>),
>
    decreases s.len() - i,
{
    if i >= s.len() || i < 0 {
        Seq::empty()
    } else {
        match token_at(s, i) {
            Some((named, from, to)) => {
                if to < i {
                    Seq::empty()
                } else {
                    let name = if named {
                        s.subrange(i, i + 2)
                    } else {
                        prev
                    };
                    seq![(name, s.subrange(from, to))] + properties_from(s, to + 1, name)
                }
            },
            None => properties_from(s, i + 1, prev),
        }
    }
}

/// The properties of a record.
pub open spec fn properties(s: Seq<char>) -> Seq<(Seq<char>, Seq<char>)> {
    properties_from(s, 0, Seq::empty())
}

/// The value of the first of the first `n` properties that has the given
/// name.
pub open spec fn first_value(props: Seq<(Seq<char>, Seq<char>)>, name: Seq<char>, from: int) -> Option<
    Seq<char>,
>
    decreases props.len() - from,
{
    if from >= props.len() || from < 0 {
        None
    } else if props[from].0 == name {
        Some(props[from].1)
    } else {
        first_value(props, name, from + 1)
    }
}

/// The views of the properties of a list.
pub open spec fn views(props: Seq<Property>) -> Seq<(Seq<char>, Seq<char>)> {
    Seq::new(props.len(), |k: int| props[k]@)
}

/// Finds the properties of a text.
pub fn tokenize(text: &Vec<char>) -> (props: Vec<Property>)
    ensures
        views(props@) == properties(text@),
{
    let mut props: Vec<Property> = Vec::new();
    let mut prev: Vec<char> = Vec::new();
    let mut i: usize = 0;
    while i < text.len()
        invariant
            i <= text@.len(),
            properties(text@) == views(props@) + properties_from(text@, i as int, prev@),
        decreases text@.len() - i,
    {
        let ghost before = views(props@);
        let named: bool = text.len() - i > 2 && 'A' <= text[i] && text[i] <= 'Z' && 'A' <= text[i
            + 1] && text[i + 1] <= 'Z' && text[i + 2] == '[';
        let from: usize = if named {
            i + 3
        } else {
            i + 1
        };
        let opened: bool = named || text[i] == '[';
        if opened {
            let to: usize = find(text, ']', from);
            if from < to && to < text.len() {
                let name: Vec<char> = if named {
                    slice(text, i, i + 2)
                } else {
                    prev
                };
                let val: Vec<char> = slice(text, from, to);
                proof {
                    assert(views(props@.push(Property { name, val })) =~= before + seq![
                        (name@, val@),
                    ]);
                }
                prev = name.clone();
                props.push(Property { name, val });
                i = to + 1;
                continue ;
            }
        }
        i += 1;
    }
    props
}

/// The value of the first property with the given name.
pub fn value_of_first(props: &Vec<Property>, name: &str) -> (val: Option<Vec<char>>)
    ensures
        match val {
            Some(v) => first_value(views(props@), name@, 0) == Some(v@),
            None => first_value(views(props@), name@, 0) is None,
        },
{
    let mut i: usize = 0;
    while i < props.len()
        invariant
            i <= props@.len(),
            first_value(views(props@), name@, 0) == first_value(views(props@), name@, i as int),
        decreases props@.len() - i,
    {
        if is_word(&props[i].name, name) {
            let v: Vec<char> = props[i].val.clone();
            return Some(v);
        }
        i += 1;
    }
    None
}

/// A game record as text.
pub struct Parser {
    sgf: String,
}

impl Parser {
    pub closed spec fn spec_sgf(&self) -> Seq<char> {
        self.sgf@
    }

    pub fn new(sgf: String) -> (p: Parser)
        ensures
            p.spec_sgf() == sgf@,
    {
        Parser { sgf: sgf }
    }

    /// The size that the record gives: the number below 256 that the first
    /// value of its property `SZ` writes.
    pub open spec fn spec_size(&self) -> Option<u8> {
        match first_value(properties(self.spec_sgf()), "SZ"@, 0) {
            Some(v) => spec_parse_u8(v),
            None => None,
        }
    }

    /// The komi that the record gives: what the first value of its property
    /// `KM` writes.
    pub open spec fn spec_komi(&self) -> Option<Komi> {
        match first_value(properties(self.spec_sgf()), "KM"@, 0) {
            Some(v) => spec_parse_komi(v),
            None => None,
        }
    }

    pub fn size(&self) -> (size: Option<u8>)
        ensures
            size == self.spec_size(),
    {
        let props: Vec<Property> = self.tokenize();
        match value_of_first(&props, "SZ") {
            Some(v) => parse_u8(&v),
            None => None,
        }
    }

    pub fn komi(&self) -> (komi: Option<Komi>)
        ensures
            komi == self.spec_komi(),
    {
        let props: Vec<Property> = self.tokenize();
        match value_of_first(&props, "KM") {
            Some(v) => parse_komi(&v),
            None => None,
        }
    }

    /// The properties of the record.
    pub fn tokenize(&self) -> (props: Vec<Property>)
        ensures
            views(props@) == properties(self.spec_sgf()),
    {
        let text: Vec<char> = to_chars(self.sgf.as_str());
        tokenize(&text)
    }

    /// The empty board of the size and with the komi that the record gives,
    /// under the rules with any board size and no suicide; no board where
    /// the record lacks one of the two.
    pub fn board(&self) -> (b: Option<Board>)
        ensures
            b is Some <==> self.spec_size() is Some && self.spec_komi() is Some,
            b matches Some(board) ==> {
                &&& board.wf()
                &&& Some(board@.size) == self.spec_size()
                &&& Some(board.spec_komi()) == self.spec_komi()
                &&& board.spec_ruleset() == Ruleset::spec_kgs_chinese()
                &&& board@.chains@.len() == 1
                &&& forall|c: Coord| c.inside(board@.size) ==> board@.color_at(c) == Color::Empty
            },
    {
        match self.size() {
            Some(size) => match self.komi() {
                Some(komi) => Some(Board::new(size, komi, Ruleset::kgs_chinese())),
                None => None,
            },
            None => None,
        }
    }
}

} // verus!
