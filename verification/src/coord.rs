//! Coordinates of the points of a square board, counted from 1.

use vstd::prelude::*;

verus! {

/// A point given by its column and row, both counted from 1.
#[derive(Clone, Copy, Debug, PartialEq, Eq, PartialOrd, Ord, Hash, Structural)]
pub struct Coord {
    pub col: u8,
    pub row: u8,
}

/// Two points are adjacent when they differ by one step along a column or a row.
pub open spec fn adjacent(a: Coord, b: Coord) -> bool {
    ||| a.col == b.col && (a.row + 1 == b.row || b.row + 1 == a.row)
    ||| a.row == b.row && (a.col + 1 == b.col || b.col + 1 == a.col)
}

/// The number of points of a board of the given size.
pub open spec fn area(size: u8) -> int {
    size * size
}

impl Coord {
    pub fn new(col: u8, row: u8) -> (c: Coord)
        ensures
            c.col == col,
            c.row == row,
    {
        Coord { col, row }
    }

    /// Whether the point lies on a board of the given size.
    pub open spec fn inside(self, size: u8) -> bool {
        1 <= self.col <= size && 1 <= self.row <= size
    }

    pub fn is_inside(&self, size: u8) -> (b: bool)
        ensures
            b == self.inside(size),
    {
        1 <= self.col && self.col <= size && 1 <= self.row && self.row <= size
    }

    /// The place of the point when the board is laid out row after row.
    pub open spec fn index(self, size: u8) -> int {
        (self.row - 1) * size + (self.col - 1)
    }

    /// The point found at a place of the row-after-row layout.
    pub open spec fn at_index(i: int, size: u8) -> Coord {
        Coord { col: (i % (size as int) + 1) as u8, row: (i / (size as int) + 1) as u8 }
    }

    pub fn to_index(&self, size: u8) -> (i: usize)
        requires
            self.inside(size),
        ensures
            i == self.index(size),
            i < area(size),
    {
        proof {
            lemma_index_bounds(*self, size);
        }
        let r: usize = (self.row - 1) as usize;
        let c: usize = (self.col - 1) as usize;
        assert(r * (size as usize) <= 254 * 255) by (nonlinear_arith)
            requires
                r <= 254,
                size <= 255,
        ;
        r * (size as usize) + c
    }

    pub fn from_index(i: usize, size: u8) -> (c: Coord)
        requires
            i < area(size),
        ensures
            c == Coord::at_index(i as int, size),
            c.inside(size),
            c.index(size) == i,
    {
        proof {
            lemma_at_index(i as int, size);
        }
        let n: usize = size as usize;
        Coord { col: (i % n + 1) as u8, row: (i / n + 1) as u8 }
    }

    /// The points of the board that are adjacent to this one: the step to the
    /// lower row first, then to the lower column, the higher column and the higher row.
    pub open spec fn spec_neighbours(self, size: u8) -> Seq<Coord> {
        let down = if self.row > 1 {
            seq![Coord { col: self.col, row: (self.row - 1) as u8 }]
        } else {
            Seq::<Coord>::empty()
        };
        let left = if self.col > 1 {
            seq![Coord { col: (self.col - 1) as u8, row: self.row }]
        } else {
            Seq::<Coord>::empty()
        };
        let right = if self.col < size {
            seq![Coord { col: (self.col + 1) as u8, row: self.row }]
        } else {
            Seq::<Coord>::empty()
        };
        let up = if self.row < size {
            seq![Coord { col: self.col, row: (self.row + 1) as u8 }]
        } else {
            Seq::<Coord>::empty()
        };
        down + left + right + up
    }

    pub fn neighbours(&self, size: u8) -> (ns: Vec<Coord>)
        requires
            self.inside(size),
        ensures
            ns@ == self.spec_neighbours(size),
            ns@.len() <= 4,
            forall|c: Coord| ns@.contains(c) <==> c.inside(size) && adjacent(*self, c),
            ns@.no_duplicates(),
    {
        let mut ns: Vec<Coord> = Vec::new();
        if self.row > 1 {
            ns.push(Coord { col: self.col, row: self.row - 1 });
        }
        if self.col > 1 {
            ns.push(Coord { col: self.col - 1, row: self.row });
        }
        if self.col < size {
            ns.push(Coord { col: self.col + 1, row: self.row });
        }
        if self.row < size {
            ns.push(Coord { col: self.col, row: self.row + 1 });
        }
        proof {
            lemma_neighbours(*self, size);
        }
        ns
    }
}

/// The neighbours of a point of the board are exactly the points of the board
/// adjacent to it, each listed once.
pub proof fn lemma_neighbours(p: Coord, size: u8)
    requires
        p.inside(size),
    ensures
        p.spec_neighbours(size).len() <= 4,
        p.spec_neighbours(size).no_duplicates(),
        forall|c: Coord|
            p.spec_neighbours(size).contains(c) <==> c.inside(size) && adjacent(p, c),
{
    let ns = p.spec_neighbours(size);
    let down = Coord { col: p.col, row: (p.row - 1) as u8 };
    let left = Coord { col: (p.col - 1) as u8, row: p.row };
    let right = Coord { col: (p.col + 1) as u8, row: p.row };
    let up = Coord { col: p.col, row: (p.row + 1) as u8 };
    assert forall|c: Coord| ns.contains(c) implies c.inside(size) && adjacent(p, c) by {
        let i = choose|i: int| 0 <= i < ns.len() && ns[i] == c;
        assert(c == down && p.row > 1 || c == left && p.col > 1 || c == right && p.col < size
            || c == up && p.row < size);
    }
    assert forall|c: Coord| c.inside(size) && adjacent(p, c) implies ns.contains(c) by {
        let d: Seq<Coord> = if p.row > 1 { seq![down] } else { Seq::<Coord>::empty() };
        let l: Seq<Coord> = if p.col > 1 { seq![left] } else { Seq::<Coord>::empty() };
        let r: Seq<Coord> = if p.col < size { seq![right] } else { Seq::<Coord>::empty() };
        if c == down {
            assert(ns[0] == c);
        } else if c == left {
            assert(ns[d.len() as int] == c);
        } else if c == right {
            assert(ns[(d.len() + l.len()) as int] == c);
        } else {
            assert(ns[(d.len() + l.len() + r.len()) as int] == c);
        }
    }
    assert forall|i: int, j: int| 0 <= i < ns.len() && 0 <= j < ns.len() && i != j implies ns[i]
        != ns[j] by {}
}

/// No board has more than 255 times 255 points.
pub proof fn lemma_area_bound(size: u8)
    ensures
        0 <= area(size) <= 65025,
{
    assert(0 <= size * size <= 65025) by (nonlinear_arith)
        requires
            0 <= size <= 255,
    ;
}

/// The place of a point of the board lies below the board's area.
pub proof fn lemma_index_bounds(c: Coord, size: u8)
    requires
        c.inside(size),
    ensures
        0 <= c.index(size) < area(size),
        Coord::at_index(c.index(size), size) == c,
{
    let r = c.row - 1;
    let k = c.col - 1;
    let n = size as int;
    assert(0 <= r * n && r * n + n <= n * n) by (nonlinear_arith)
        requires
            0 <= r < n,
    ;
    assert((r * n + k) / n == r && (r * n + k) % n == k) by (nonlinear_arith)
        requires
            0 <= k < n,
            0 <= r,
    ;
}

/// Every place below the board's area is that of one point of the board.
pub proof fn lemma_at_index(i: int, size: u8)
    requires
        0 <= i < area(size),
    ensures
        Coord::at_index(i, size).inside(size),
        Coord::at_index(i, size).index(size) == i,
        0 <= i % (size as int) < size,
        0 <= i / (size as int) < size,
{
    let n = size as int;
    assert(n > 0) by (nonlinear_arith)
        requires
            0 <= n,
            0 <= i < n * n,
    ;
    assert(0 <= i % n < n && 0 <= i / n < n && (i / n) * n + i % n == i) by (nonlinear_arith)
        requires
            0 <= i < n * n,
            n > 0,
    ;
}

/// Two points of the board with the same place are the same point.
pub proof fn lemma_index_injective(a: Coord, b: Coord, size: u8)
    requires
        a.inside(size),
        b.inside(size),
        a.index(size) == b.index(size),
    ensures
        a == b,
{
    lemma_index_bounds(a, size);
    lemma_index_bounds(b, size);
}

} // verus!
