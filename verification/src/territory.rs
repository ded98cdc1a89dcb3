//! Counting a position by area: stones, and the empty regions that touch
//! stones of one colour only.

use vstd::prelude::*;
use crate::color::Color;
use crate::coord::{
    adjacent, area, lemma_area_bound, lemma_at_index, lemma_index_bounds, lemma_index_injective,
    Coord,
};
use crate::goban::{lemma_coord_set_bound, lemma_marked_insert, marked, Goban};
use crate::group::{is_path, joined, lemma_joined_chain, lemma_joined_self, lemma_joined_step};

verus! {

/// The empty points of the grid.
pub open spec fn empties(g: Goban) -> Set<Coord> {
    Set::new(|c: Coord| c.inside(g.size) && g.color_at(c) == Color::Empty)
}

/// The point has a neighbour of the given colour on the board.
pub open spec fn borders(g: Goban, e: Coord, color: Color) -> bool {
    exists|n: Coord| n.inside(g.size) && #[trigger] adjacent(e, n) && g.color_at(n) == color
}

/// The empty region of the point `q` touches a stone of the given colour:
/// some point joined to `q` through empty points has such a neighbour.
pub open spec fn reaches(g: Goban, q: Coord, color: Color) -> bool {
    exists|e: Coord| #[trigger] joined(empties(g), q, e) && borders(g, e, color)
}

/// The colour that the empty region of `q` belongs to: the one colour whose
/// stones it touches; `Empty` where it touches both colours or none.
pub open spec fn owner(g: Goban, q: Coord) -> Color {
    if reaches(g, q, Color::Black) && !reaches(g, q, Color::White) {
        Color::Black
    } else if reaches(g, q, Color::White) && !reaches(g, q, Color::Black) {
        Color::White
    } else {
        Color::Empty
    }
}

/// The point counts for the colour: it holds a stone of the colour, or it is
/// empty and its region belongs to the colour.
pub open spec fn counts_for(g: Goban, q: Coord, color: Color) -> bool {
    g.color_at(q) == color || (g.color_at(q) == Color::Empty && owner(g, q) == color)
}

/// The number of points that count for a colour among the first `n` points,
/// the board being laid out row after row.
pub open spec fn points_upto(g: Goban, color: Color, n: nat) -> nat
    decreases n,
{
    if n == 0 {
        0
    } else {
        points_upto(g, color, (n - 1) as nat) + if counts_for(
            g,
            Coord::at_index(n - 1, g.size),
            color,
        ) {
            1nat
        } else {
            0nat
        }
    }
}

/// No more points count for a colour than there are points.
pub proof fn lemma_points_bound(g: Goban, color: Color, n: nat)
    ensures
        points_upto(g, color, n) <= n,
    decreases n,
{
    if n > 0 {
        lemma_points_bound(g, color, (n - 1) as nat);
    }
}

/// The area of a colour: its stones and the empty points of its regions.
pub open spec fn points(g: Goban, color: Color) -> nat {
    points_upto(g, color, area(g.size) as nat)
}

/// The neighbours of a filled point are dealt with: the empty ones carry the
/// label, and the colours of the others are noted.
pub open spec fn looked_around(
    g: Goban,
    marks: Seq<usize>,
    label: usize,
    black: bool,
    white: bool,
    c: Coord,
) -> bool {
    forall|n: Coord|
        n.inside(g.size) && #[trigger] adjacent(c, n) ==> {
            &&& g.color_at(n) == Color::Empty ==> marks[n.index(g.size)] == label
            &&& g.color_at(n) == Color::Black ==> black
            &&& g.color_at(n) == Color::White ==> white
        }
}

/// A walk read backwards joins its end to its beginning.
pub proof fn lemma_joined_back(s: Set<Coord>, a: Coord, b: Coord)
    requires
        joined(s, a, b),
    ensures
        joined(s, b, a),
{
    let path = choose|path: Seq<Coord>| #[trigger]
        is_path(path, s) && path[0] == a && path.last() == b;
    let back = Seq::new(path.len(), |i: int| path[path.len() - 1 - i]);
    assert forall|i: int| 0 <= i < back.len() - 1 implies adjacent(
        #[trigger] back[i],
        back[i + 1],
    ) by {}
    assert(is_path(back, s));
}

/// Two points joined through empty points have regions that touch the same colours.
pub proof fn lemma_same_region(g: Goban, a: Coord, b: Coord)
    requires
        joined(empties(g), a, b),
    ensures
        forall|color: Color| #[trigger] reaches(g, a, color) == reaches(g, b, color),
        owner(g, a) == owner(g, b),
{
    let s = empties(g);
    lemma_joined_back(s, a, b);
    assert forall|color: Color| #[trigger] reaches(g, a, color) == reaches(g, b, color) by {
        if reaches(g, a, color) {
            let e = choose|e: Coord| #[trigger] joined(s, a, e) && borders(g, e, color);
            lemma_joined_chain(s, b, a, e);
        }
        if reaches(g, b, color) {
            let e = choose|e: Coord| #[trigger] joined(s, b, e) && borders(g, e, color);
            lemma_joined_chain(s, a, b, e);
        }
    }
}

/// Where every labelled point has its empty neighbours labelled, every point
/// of a walk through empty points that starts on a labelled point is labelled.
pub proof fn lemma_walk_labelled(
    g: Goban,
    marks: Seq<usize>,
    label: usize,
    path: Seq<Coord>,
    i: int,
)
    requires
        is_path(path, empties(g)),
        marks[path[0].index(g.size)] == label,
        forall|c: Coord, n: Coord|
            c.inside(g.size) && marks[c.index(g.size)] == label && n.inside(g.size)
                && #[trigger] adjacent(c, n) && g.color_at(n) == Color::Empty
                ==> marks[n.index(g.size)] == label,
        0 <= i < path.len(),
    ensures
        marks[path[i].index(g.size)] == label,
    decreases i,
{
    if i > 0 {
        lemma_walk_labelled(g, marks, label, path, i - 1);
        assert(empties(g).contains(path[i - 1]));
        assert(empties(g).contains(path[i]));
        assert(adjacent(path[i - 1], path[i]));
    }
}

/// What holds of the labels all through the filling of a region: the seed is
/// labelled, every labelled point is an empty point joined to the seed, no
/// other mark has changed, and a colour is noted only if the region touches it.
pub open spec fn fill_base(
    g: Goban,
    seed: Coord,
    label: usize,
    orig: Seq<usize>,
    marks: Seq<usize>,
    black: bool,
    white: bool,
) -> bool {
    &&& seed.inside(g.size)
    &&& marks.len() == area(g.size)
    &&& orig.len() == area(g.size)
    &&& forall|k: int| 0 <= k < orig.len() ==> orig[k] < label
    &&& marked(marks, g.size, label).finite()
    &&& marks[seed.index(g.size)] == label
    &&& forall|k: int| 0 <= k < marks.len() && marks[k] != label ==> marks[k] == orig[k]
    &&& forall|c: Coord|
        c.inside(g.size) && #[trigger] marks[c.index(g.size)] == label ==> g.color_at(c)
            == Color::Empty && joined(empties(g), seed, c)
    &&& black ==> reaches(g, seed, Color::Black)
    &&& white ==> reaches(g, seed, Color::White)
}

/// Every labelled point is dealt with, waits on the stack, or is the point
/// `cur` whose neighbours are being looked at; and what waits is labelled.
pub open spec fn fill_front(
    g: Goban,
    label: usize,
    marks: Seq<usize>,
    stack: Seq<Coord>,
    done: Set<Coord>,
    cur: Option<Coord>,
) -> bool {
    &&& forall|c: Coord|
        c.inside(g.size) && #[trigger] marks[c.index(g.size)] == label ==> done.contains(c)
            || stack.contains(c) || cur == Some(c)
    &&& forall|i: int|
        0 <= i < stack.len() ==> (#[trigger] stack[i]).inside(g.size) && marks[stack[i].index(
            g.size,
        )] == label
    &&& cur matches Some(c) ==> c.inside(g.size) && marks[c.index(g.size)] == label
}

/// Every point dealt with is labelled and has its neighbours looked at.
pub open spec fn fill_done(
    g: Goban,
    label: usize,
    marks: Seq<usize>,
    done: Set<Coord>,
    black: bool,
    white: bool,
) -> bool {
    forall|c: Coord| #[trigger]
        done.contains(c) ==> c.inside(g.size) && marks[c.index(g.size)] == label
            && looked_around(g, marks, label, black, white, c)
}

/// What was looked at stays so when more points are labelled and more colours noted.
pub proof fn lemma_looked_kept(
    g: Goban,
    label: usize,
    before: Seq<usize>,
    after: Seq<usize>,
    flags: (bool, bool, bool, bool),
    c: Coord,
)
    requires
        looked_around(g, before, label, flags.0, flags.1, c),
        before.len() == area(g.size),
        after.len() == area(g.size),
        forall|k: int| 0 <= k < before.len() && before[k] == label ==> after[k] == label,
        flags.0 ==> flags.2,
        flags.1 ==> flags.3,
    ensures
        looked_around(g, after, label, flags.2, flags.3, c),
{
    assert forall|n: Coord| n.inside(g.size) && #[trigger] adjacent(c, n) implies {
        &&& g.color_at(n) == Color::Empty ==> after[n.index(g.size)] == label
        &&& g.color_at(n) == Color::Black ==> flags.2
        &&& g.color_at(n) == Color::White ==> flags.3
    } by {
        lemma_index_bounds(n, g.size);
    }
}

/// A point whose neighbours have all been looked at is dealt with.
pub proof fn lemma_point_done(
    g: Goban,
    label: usize,
    marks: Seq<usize>,
    stack: Seq<Coord>,
    done: Set<Coord>,
    flags: (bool, bool),
    c: Coord,
    ns: Seq<Coord>,
)
    requires
        fill_front(g, label, marks, stack, done, Some(c)),
        fill_done(g, label, marks, done, flags.0, flags.1),
        forall|x: Coord| ns.contains(x) <==> x.inside(g.size) && adjacent(c, x),
        forall|u: int|
            0 <= u < ns.len() ==> {
                &&& g.color_at(#[trigger] ns[u]) == Color::Empty ==> marks[ns[u].index(g.size)]
                    == label
                &&& g.color_at(ns[u]) == Color::Black ==> flags.0
                &&& g.color_at(ns[u]) == Color::White ==> flags.1
            },
    ensures
        fill_front(g, label, marks, stack, done.insert(c), None),
        fill_done(g, label, marks, done.insert(c), flags.0, flags.1),
{
    assert(looked_around(g, marks, label, flags.0, flags.1, c)) by {
        assert forall|n: Coord| n.inside(g.size) && #[trigger] adjacent(c, n) implies {
            &&& g.color_at(n) == Color::Empty ==> marks[n.index(g.size)] == label
            &&& g.color_at(n) == Color::Black ==> flags.0
            &&& g.color_at(n) == Color::White ==> flags.1
        } by {
            assert(ns.contains(n));
            let u = choose|u: int| 0 <= u < ns.len() && ns[u] == n;
            assert(g.color_at(ns[u]) == g.color_at(n));
        }
    }
}

/// When nothing waits any more, the labelled points are the region of the
/// seed, and the colours noted are those that the region touches.
pub proof fn lemma_fill_complete(
    g: Goban,
    seed: Coord,
    label: usize,
    orig: Seq<usize>,
    marks: Seq<usize>,
    done: Set<Coord>,
    flags: (bool, bool),
)
    requires
        fill_base(g, seed, label, orig, marks, flags.0, flags.1),
        fill_front(g, label, marks, Seq::<Coord>::empty(), done, None),
        fill_done(g, label, marks, done, flags.0, flags.1),
    ensures
        forall|c: Coord|
            c.inside(g.size) ==> (#[trigger] marks[c.index(g.size)] == label <==> joined(
                empties(g),
                seed,
                c,
            )),
        flags.0 == reaches(g, seed, Color::Black),
        flags.1 == reaches(g, seed, Color::White),
{
    let open = empties(g);
    assert forall|c: Coord, n: Coord|
        c.inside(g.size) && marks[c.index(g.size)] == label && n.inside(g.size)
            && #[trigger] adjacent(c, n) && g.color_at(n) == Color::Empty implies marks[n.index(
        g.size,
    )] == label by {
        assert(done.contains(c));
        assert(looked_around(g, marks, label, flags.0, flags.1, c));
    }
    assert forall|c: Coord| c.inside(g.size) && joined(open, seed, c) implies #[trigger] marks[c.index(
        g.size,
    )] == label by {
        let path = choose|path: Seq<Coord>| #[trigger]
            is_path(path, open) && path[0] == seed && path.last() == c;
        lemma_walk_labelled(g, marks, label, path, path.len() - 1);
    }
    if reaches(g, seed, Color::Black) {
        let e = choose|e: Coord| #[trigger] joined(open, seed, e) && borders(g, e, Color::Black);
        lemma_member_of_walk(open, seed, e);
        let n = choose|n: Coord|
            n.inside(g.size) && #[trigger] adjacent(e, n) && g.color_at(n) == Color::Black;
    }
    if reaches(g, seed, Color::White) {
        let e = choose|e: Coord| #[trigger] joined(open, seed, e) && borders(g, e, Color::White);
        lemma_member_of_walk(open, seed, e);
        assert(marks[e.index(g.size)] == label);
        let n = choose|n: Coord|
            n.inside(g.size) && #[trigger] adjacent(e, n) && g.color_at(n) == Color::White;
    }
}

/// Labelling an empty neighbour of the point at hand and putting it on the
/// stack keeps the filling in order.
pub proof fn lemma_pushed(
    g: Goban,
    seed: Coord,
    label: usize,
    orig: Seq<usize>,
    marks: Seq<usize>,
    stack: Seq<Coord>,
    done: Set<Coord>,
    flags: (bool, bool),
    c: Coord,
    n: Coord,
)
    requires
        fill_base(g, seed, label, orig, marks, flags.0, flags.1),
        fill_front(g, label, marks, stack, done, Some(c)),
        fill_done(g, label, marks, done, flags.0, flags.1),
        n.inside(g.size),
        adjacent(c, n),
        g.color_at(n) == Color::Empty,
        marks[n.index(g.size)] != label,
    ensures
        fill_base(g, seed, label, orig, marks.update(n.index(g.size), label), flags.0, flags.1),
        fill_front(
            g,
            label,
            marks.update(n.index(g.size), label),
            stack.push(n),
            done,
            Some(c),
        ),
        fill_done(g, label, marks.update(n.index(g.size), label), done, flags.0, flags.1),
        marked(marks.update(n.index(g.size), label), g.size, label).len() == marked(
            marks,
            g.size,
            label,
        ).len() + 1,
{
    let size = g.size;
    let open = empties(g);
    let after = marks.update(n.index(size), label);
    let more = stack.push(n);
    lemma_index_bounds(n, size);
    lemma_index_bounds(seed, size);
    lemma_index_bounds(c, size);
    lemma_marked_insert(marks, size, label, n);
    lemma_joined_step(open, c, n);
    lemma_joined_chain(open, seed, c, n);
    assert(more[stack.len() as int] == n);
    assert forall|x: Coord| x.inside(size) && #[trigger] after[x.index(size)] == label implies {
        &&& g.color_at(x) == Color::Empty
        &&& joined(open, seed, x)
        &&& done.contains(x) || more.contains(x) || Some(c) == Some(x)
    } by {
        lemma_index_bounds(x, size);
        if x.index(size) == n.index(size) {
            lemma_index_injective(x, n, size);
        } else {
            if stack.contains(x) {
                let i = choose|i: int| 0 <= i < stack.len() && stack[i] == x;
                assert(more[i] == x);
            }
        }
    }
    assert forall|i: int| 0 <= i < more.len() implies (#[trigger] more[i]).inside(size)
        && after[more[i].index(size)] == label by {
        if i < stack.len() {
            lemma_index_bounds(stack[i], size);
        }
    }
    assert forall|x: Coord| #[trigger] done.contains(x) implies x.inside(size) && after[x.index(
        size,
    )] == label && looked_around(g, after, label, flags.0, flags.1, x) by {
        lemma_index_bounds(x, size);
        lemma_looked_kept(g, label, marks, after, (flags.0, flags.1, flags.0, flags.1), x);
    }
}

/// Noting a colour that a labelled point touches keeps the filling in order.
pub proof fn lemma_noted(
    g: Goban,
    seed: Coord,
    label: usize,
    orig: Seq<usize>,
    marks: Seq<usize>,
    done: Set<Coord>,
    flags: (bool, bool),
    c: Coord,
    n: Coord,
)
    requires
        fill_base(g, seed, label, orig, marks, flags.0, flags.1),
        fill_done(g, label, marks, done, flags.0, flags.1),
        c.inside(g.size),
        marks[c.index(g.size)] == label,
        n.inside(g.size),
        adjacent(c, n),
        g.color_at(n) != Color::Empty,
    ensures
        fill_base(
            g,
            seed,
            label,
            orig,
            marks,
            flags.0 || g.color_at(n) == Color::Black,
            flags.1 || g.color_at(n) == Color::White,
        ),
        fill_done(
            g,
            label,
            marks,
            done,
            flags.0 || g.color_at(n) == Color::Black,
            flags.1 || g.color_at(n) == Color::White,
        ),
{
    let black = flags.0 || g.color_at(n) == Color::Black;
    let white = flags.1 || g.color_at(n) == Color::White;
    assert forall|x: Coord| #[trigger] done.contains(x) implies x.inside(g.size) && marks[x.index(
        g.size,
    )] == label && looked_around(g, marks, label, black, white, x) by {
        lemma_looked_kept(g, label, marks, marks, (flags.0, flags.1, black, white), x);
    }
}

impl Goban {
    /// Looks at the neighbour `n` of the labelled point `c`: an empty point
    /// without the label gets it and goes on the stack; a stone has its
    /// colour noted.
    fn look(
        &self,
        c: Coord,
        n: Coord,
        label: usize,
        marks: &mut Vec<usize>,
        stack: &mut Vec<Coord>,
        touched: &mut (bool, bool),
        Ghost(seed): Ghost<Coord>,
        Ghost(orig): Ghost<Seq<usize>>,
        Ghost(done): Ghost<Set<Coord>>,
    )
        requires
            self.shaped(),
            fill_base(*self, seed, label, orig, old(marks)@, old(touched).0, old(touched).1),
            fill_front(*self, label, old(marks)@, old(stack)@, done, Some(c)),
            fill_done(*self, label, old(marks)@, done, old(touched).0, old(touched).1),
            n.inside(self.size),
            adjacent(c, n),
        ensures
            fill_base(*self, seed, label, orig, final(marks)@, final(touched).0, final(touched).1),
            fill_front(*self, label, final(marks)@, final(stack)@, done, Some(c)),
            fill_done(*self, label, final(marks)@, done, final(touched).0, final(touched).1),
            forall|k: int|
                0 <= k < old(marks)@.len() && old(marks)@[k] == label ==> final(marks)@[k]
                    == label,
            old(touched).0 ==> final(touched).0,
            old(touched).1 ==> final(touched).1,
            self.color_at(n) == Color::Empty ==> final(marks)@[n.index(self.size)] == label,
            self.color_at(n) == Color::Black ==> final(touched).0,
            self.color_at(n) == Color::White ==> final(touched).1,
            marked(final(marks)@, self.size, label).len() - marked(
                old(marks)@,
                self.size,
                label,
            ).len() == final(stack)@.len() - old(stack)@.len(),
            final(stack)@.len() >= old(stack)@.len(),
    {
        let k: usize = n.to_index(self.size);
        match self.colors[k] {
            Color::Empty => {
                if marks[k] != label {
                    proof {
                        lemma_pushed(
                            *self,
                            seed,
                            label,
                            orig,
                            marks@,
                            stack@,
                            done,
                            *touched,
                            c,
                            n,
                        );
                    }
                    marks[k] = label;
                    stack.push(n);
                }
            },
            Color::Black => {
                proof {
                    lemma_noted(*self, seed, label, orig, marks@, done, *touched, c, n);
                }
                touched.0 = true;
            },
            Color::White => {
                proof {
                    lemma_noted(*self, seed, label, orig, marks@, done, *touched, c, n);
                }
                touched.1 = true;
            },
        }
    }

    /// Labels the empty region of `seed`, and tells whether the region
    /// touches a black stone and whether it touches a white one. The marks
    /// must come with smaller labels only.
    pub(crate) fn fill(&self, seed: Coord, label: usize, marks: &mut Vec<usize>) -> (touched: (bool, bool))
        requires
            self.shaped(),
            seed.inside(self.size),
            self.color_at(seed) == Color::Empty,
            old(marks)@.len() == area(self.size),
            forall|k: int| 0 <= k < old(marks)@.len() ==> old(marks)@[k] < label,
        ensures
            final(marks)@.len() == area(self.size),
            forall|c: Coord|
                c.inside(self.size) ==> (#[trigger] final(marks)@[c.index(self.size)] == label
                    <==> joined(empties(*self), seed, c)),
            forall|k: int|
                0 <= k < final(marks)@.len() && final(marks)@[k] != label ==> final(marks)@[k]
                    == old(marks)@[k],
            touched.0 == reaches(*self, seed, Color::Black),
            touched.1 == reaches(*self, seed, Color::White),
    {
        let size: u8 = self.size;
        let ghost g = *self;
        let ghost orig = marks@;
        let mut stack: Vec<Coord> = Vec::new();
        let mut touched: (bool, bool) = (false, false);
        let ghost mut done: Set<Coord> = Set::empty();
        proof {
            lemma_index_bounds(seed, size);
            assert(marked(marks@, size, label) =~= Set::<Coord>::empty()) by {
                assert forall|e: Coord| !marked(marks@, size, label).contains(e) by {
                    if e.inside(size) {
                        lemma_index_bounds(e, size);
                    }
                }
            }
            lemma_marked_insert(marks@, size, label, seed);
            lemma_joined_self(empties(g), seed);
        }
        let k0: usize = seed.to_index(size);
        marks[k0] = label;
        stack.push(seed);
        proof {
            assert(stack@[0] == seed);
            assert forall|c: Coord|
                c.inside(size) && #[trigger] marks@[c.index(size)] == label implies c == seed by {
                lemma_index_bounds(c, size);
                if c.index(size) == seed.index(size) {
                    lemma_index_injective(c, seed, size);
                }
            }
        }
        while stack.len() > 0
            invariant
                size == self.size,
                g == *self,
                self.shaped(),
                fill_base(g, seed, label, orig, marks@, touched.0, touched.1),
                fill_front(g, label, marks@, stack@, done, None),
                fill_done(g, label, marks@, done, touched.0, touched.1),
            decreases 65536 - marked(marks@, size, label).len(), stack@.len(),
        {
            let ghost stack0 = stack@;
            let ghost marks0 = marks@;
            proof {
                lemma_coord_set_bound(marked(marks@, size, label));
            }
            let popped = stack.pop();
            let c: Coord = popped.unwrap();
            proof {
                assert forall|x: Coord|
                    x.inside(g.size) && #[trigger] marks@[x.index(g.size)]
                        == label implies done.contains(x) || stack@.contains(x) || Some(c)
                    == Some(x) by {
                    if stack0.contains(x) && x != c {
                        let i = choose|i: int| 0 <= i < stack0.len() && stack0[i] == x;
                        assert(stack@[i] == x);
                    }
                }
                assert forall|i: int| 0 <= i < stack@.len() implies (#[trigger] stack@[i]).inside(
                    g.size,
                ) && marks@[stack@[i].index(g.size)] == label by {}
            }
            let ns: Vec<Coord> = c.neighbours(size);
            let mut t: usize = 0;
            while t < ns.len()
                invariant
                    t <= ns@.len(),
                    size == self.size,
                    g == *self,
                    self.shaped(),
                    c.inside(size),
                    forall|x: Coord| ns@.contains(x) <==> x.inside(size) && adjacent(c, x),
                    fill_base(g, seed, label, orig, marks@, touched.0, touched.1),
                    fill_front(g, label, marks@, stack@, done, Some(c)),
                    fill_done(g, label, marks@, done, touched.0, touched.1),
                    marks0.len() == area(size),
                    marked(marks0, size, label).finite(),
                    marked(marks@, size, label).len() - marked(marks0, size, label).len()
                        == stack@.len() - (stack0.len() - 1),
                    stack@.len() >= stack0.len() - 1,
                    forall|u: int|
                        0 <= u < t ==> {
                            &&& g.color_at(#[trigger] ns@[u]) == Color::Empty ==> marks@[ns@[u].index(
                                size,
                            )] == label
                            &&& g.color_at(ns@[u]) == Color::Black ==> touched.0
                            &&& g.color_at(ns@[u]) == Color::White ==> touched.1
                        },
                decreases ns@.len() - t,
            {
                let n: Coord = ns[t];
                let ghost marks1 = marks@;
                self.look(
                    c,
                    n,
                    label,
                    marks,
                    &mut stack,
                    &mut touched,
                    Ghost(seed),
                    Ghost(orig),
                    Ghost(done),
                );
                proof {
                    assert forall|u: int| 0 <= u < t + 1 implies {
                        &&& g.color_at(#[trigger] ns@[u]) == Color::Empty ==> marks@[ns@[u].index(
                            size,
                        )] == label
                        &&& g.color_at(ns@[u]) == Color::Black ==> touched.0
                        &&& g.color_at(ns@[u]) == Color::White ==> touched.1
                    } by {
                        lemma_index_bounds(ns@[u], size);
                        if u < t {
                            assert(g.color_at(ns@[u]) == Color::Empty ==> marks1[ns@[u].index(size)]
                                == label);
                        }
                    }
                }
                t += 1;
            }
            proof {
                lemma_point_done(g, label, marks@, stack@, done, touched, c, ns@);
                done = done.insert(c);
                lemma_coord_set_bound(marked(marks@, size, label));
            }
        }
        proof {
            lemma_fill_complete(g, seed, label, orig, marks@, done, touched);
        }
        touched
    }

    /// Counts the position by area: for each colour its stones and the empty
    /// points of the regions that touch its stones only. Black's count comes
    /// first.
    pub fn area_score(&self) -> (totals: (usize, usize))
        requires
            self.shaped(),
        ensures
            totals.0 == points(*self, Color::Black),
            totals.1 == points(*self, Color::White),
    {
        let size: u8 = self.size;
        let ghost g = *self;
        let n: usize = size as usize;
        proof {
            lemma_area_bound(size);
        }
        assert(n * n == area(size)) by (nonlinear_arith)
            requires
                n == size,
        ;
        let total: usize = n * n;
        let mut marks: Vec<usize> = Vec::new();
        let mut k: usize = 0;
        while k < total
            invariant
                k <= total,
                marks@.len() == k,
                forall|x: int| 0 <= x < k ==> marks@[x] == 0,
            decreases total - k,
        {
            marks.push(0);
            k += 1;
        }
        let mut owners: Vec<Color> = Vec::new();
        owners.push(Color::Empty);
        proof {
            assert forall|c: Coord| c.inside(size) implies #[trigger] marks@[c.index(size)]
                == 0 by {
                lemma_index_bounds(c, size);
            }
        }
        k = 0;
        while k < total
            invariant
                k <= total,
                total == area(size),
                size == self.size,
                g == *self,
                self.shaped(),
                marks@.len() == total,
                owners@.len() >= 1,
                forall|j: int| 0 <= j < marks@.len() ==> marks@[j] < owners@.len(),
                forall|c: Coord|
                    c.inside(size) && #[trigger] marks@[c.index(size)] != 0 ==> g.color_at(c)
                        == Color::Empty && owners@[marks@[c.index(size)] as int] == owner(g, c),
                forall|j: int|
                    0 <= j < k && self.colors@[j] == Color::Empty ==> #[trigger] marks@[j] != 0,
            decreases total - k,
        {
            let fresh: bool = match self.colors[k] {
                Color::Empty => marks[k] == 0,
                _ => false,
            };
            if fresh {
                let seed: Coord = Coord::from_index(k, size);
                let label: usize = owners.len();
                let ghost before = marks@;
                let ghost owned = owners@;
                let touched: (bool, bool) = self.fill(seed, label, &mut marks);
                let who: Color = if touched.0 && !touched.1 {
                    Color::Black
                } else if touched.1 && !touched.0 {
                    Color::White
                } else {
                    Color::Empty
                };
                owners.push(who);
                proof {
                    lemma_joined_self(empties(g), seed);
                    assert forall|j: int| 0 <= j < marks@.len() implies marks@[j]
                        < owners@.len() by {}
                    assert forall|c: Coord|
                        c.inside(size) && #[trigger] marks@[c.index(size)] != 0 implies g.color_at(
                        c,
                    ) == Color::Empty && owners@[marks@[c.index(size)] as int] == owner(g, c) by {
                        lemma_index_bounds(c, size);
                        if marks@[c.index(size)] == label {
                            lemma_same_region(g, seed, c);
                            lemma_member_of_walk(empties(g), seed, c);
                        } else {
                            assert(owners@[marks@[c.index(size)] as int]
                                == owned[before[c.index(size)] as int]);
                        }
                    }
                    assert forall|j: int|
                        0 <= j < k + 1 && self.colors@[j]
                            == Color::Empty implies #[trigger] marks@[j] != 0 by {}
                }
            }
            k += 1;
        }
        let mut black: usize = 0;
        let mut white: usize = 0;
        k = 0;
        while k < total
            invariant
                k <= total,
                total == area(size),
                size == self.size,
                g == *self,
                self.shaped(),
                marks@.len() == total,
                forall|j: int| 0 <= j < marks@.len() ==> marks@[j] < owners@.len(),
                forall|c: Coord|
                    c.inside(size) && #[trigger] marks@[c.index(size)] != 0 ==> g.color_at(c)
                        == Color::Empty && owners@[marks@[c.index(size)] as int] == owner(g, c),
                forall|j: int|
                    0 <= j < total && self.colors@[j] == Color::Empty ==> #[trigger] marks@[j]
                        != 0,
                black == points_upto(g, Color::Black, k as nat),
                white == points_upto(g, Color::White, k as nat),
                black <= k,
                white <= k,
            decreases total - k,
        {
            proof {
                lemma_at_index(k as int, size);
            }
            let who: Color = match self.colors[k] {
                Color::Empty => {
                    owners[marks[k]]
                },
                Color::Black => Color::Black,
                Color::White => Color::White,
            };
            match who {
                Color::Black => {
                    black += 1;
                },
                Color::White => {
                    white += 1;
                },
                Color::Empty => {},
            }
            k += 1;
        }
        (black, white)
    }
}

/// The end of a walk within a set is in the set.
pub proof fn lemma_member_of_walk(s: Set<Coord>, a: Coord, b: Coord)
    requires
        joined(s, a, b),
    ensures
        s.contains(a),
        s.contains(b),
{
    let path = choose|path: Seq<Coord>| #[trigger]
        is_path(path, s) && path[0] == a && path.last() == b;
}

} // verus!
