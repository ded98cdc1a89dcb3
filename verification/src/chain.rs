//! A chain: stones of one colour that hang together and share their liberties.

use vstd::prelude::*;
use crate::color::Color;
use crate::coord::Coord;
use crate::text::{decimal, pad_left, pad_right, push_decimal, push_padded, push_word, to_string};

verus! {

/// A group of stones of one colour, with the number of its liberties. The
/// stones are kept in the order in which they joined the chain.
#[derive(Debug, PartialEq, Eq)]
pub struct Chain {
    pub id: usize,
    pub color: Color,
    pub libs: usize,
    pub coords: Vec<Coord>,
}

impl View for Chain {
    type V = Seq<Coord>;

    /// The stones of the chain.
    open spec fn view(&self) -> Seq<Coord> {
        self.coords@
    }
}

impl Clone for Chain {
    fn clone(&self) -> (c: Chain)
        ensures
            c@ == self@,
            c.id == self.id,
            c.color == self.color,
            c.libs == self.libs,
    {
        let c = Chain { id: self.id, color: self.color, libs: self.libs, coords: self.coords.clone() };
        c
    }
}

impl Chain {
    /// The set of the chain's stones.
    pub open spec fn members(&self) -> Set<Coord> {
        self@.to_set()
    }

    /// A chain without stones yet, counted with one liberty.
    pub fn new(id: usize, color: Color) -> (c: Chain)
        ensures
            c.id == id,
            c.color == color,
            c.libs == 1,
            c@ == Seq::<Coord>::empty(),
    {
        Chain { coords: Vec::new(), color: color, id: id, libs: 1 }
    }

    /// Adds one stone at the end.
    pub fn add_stone(&mut self, coord: Coord)
        ensures
            final(self)@ == old(self)@.push(coord),
            final(self).id == old(self).id,
            final(self).color == old(self).color,
            final(self).libs == old(self).libs,
    {
        self.coords.push(coord);
    }

    /// Adds the stones of another chain at the end, in their order.
    pub fn merge(&mut self, c: &Chain)
        ensures
            final(self)@ == old(self)@ + c@,
            final(self).id == old(self).id,
            final(self).color == old(self).color,
            final(self).libs == old(self).libs,
    {
        let mut i: usize = 0;
        while i < c.coords.len()
            invariant
                i <= c.coords.len(),
                self.coords@ == old(self).coords@ + c.coords@.subrange(0, i as int),
                self.id == old(self).id,
                self.color == old(self).color,
                self.libs == old(self).libs,
            decreases c.coords.len() - i,
        {
            self.coords.push(c.coords[i]);
            i += 1;
        }
    }

    pub fn coords(&self) -> (v: &Vec<Coord>)
        ensures
            v@ == self@,
    {
        &self.coords
    }

    /// The first `n` stones written out, each as its column and row.
    pub open spec fn spec_stones_text(&self, n: nat) -> Seq<char>
        decreases n,
    {
        if n == 0 {
            Seq::empty()
        } else {
            self.spec_stones_text((n - 1) as nat) + " "@ + decimal(self@[n - 1].col as nat) + ","@
                + decimal(self@[n - 1].row as nat) + " |"@
        }
    }

    /// The chain written out on one line.
    pub open spec fn spec_show(&self) -> Seq<char> {
        pad_right(decimal(self.id as nat), 3) + "| "@ + self.color.spec_name() + ", libs: "@
            + pad_left(decimal(self.libs as nat), 2) + ", stones: "@ + self.spec_stones_text(
            self@.len(),
        )
    }

    /// One line of text for the chain: its identifier, its colour, its
    /// liberties and its stones.
    pub fn show(&self) -> (s: String)
        ensures
            s@ == self.spec_show(),
    {
        let mut out: Vec<char> = Vec::new();
        push_padded(&mut out, self.id, 3, true);
        push_word(&mut out, "| ");
        let name: String = self.color.name();
        push_word(&mut out, name.as_str());
        push_word(&mut out, ", libs: ");
        push_padded(&mut out, self.libs, 2, false);
        push_word(&mut out, ", stones: ");
        let ghost head = out@;
        let mut i: usize = 0;
        while i < self.coords.len()
            invariant
                i <= self@.len(),
                out@ == head + self.spec_stones_text(i as nat),
            decreases self@.len() - i,
        {
            let c: Coord = self.coords[i];
            push_word(&mut out, " ");
            push_decimal(&mut out, c.col as usize);
            push_word(&mut out, ",");
            push_decimal(&mut out, c.row as usize);
            push_word(&mut out, " |");
            i += 1;
        }
        to_string(&out)
    }
}

} // verus!
