//! What a stone does to a position, stated over the grid and its chains, and
//! the facts that the board's bookkeeping rests on.

use vstd::prelude::*;
use crate::color::Color;
use crate::coord::{adjacent, lemma_neighbours, Coord};
use crate::goban::{touches, Goban};
use crate::group::{connected, is_path, joined};

verus! {

impl Goban {
    /// Adjacent stones of one colour are in one chain, and every chain hangs
    /// together.
    pub open spec fn grouped(&self) -> bool {
        &&& forall|a: Coord, b: Coord|
            #![trigger self.group_at(a), self.group_at(b)]
            a.inside(self.size) && b.inside(self.size) && adjacent(a, b) && self.color_at(a)
                != Color::Empty && self.color_at(a) == self.color_at(b) ==> self.group_at(a)
                == self.group_at(b)
        &&& forall|c: Coord|
            c.inside(self.size) && self.color_at(c) != Color::Empty ==> connected(
                #[trigger] self.group_at(c),
            )
    }

    /// The position is consistent: the chains partition the stones, each is a
    /// maximal set of stones that hang together, and each records its liberties.
    pub open spec fn sound(&self) -> bool {
        &&& self.linked()
        &&& self.grouped()
        &&& self.counted()
    }
}

/// An opposing stone whose chain has the point `p` as its only liberty: a
/// stone of `color` on `p` takes it.
pub open spec fn doomed(g: Goban, p: Coord, color: Color, q: Coord) -> bool {
    &&& q.inside(g.size)
    &&& g.color_at(q) == color.opposite()
    &&& g.liberties(g.group_at(q)) == set![p]
}

/// The chain that a stone of `color` on `p` belongs to once it is placed: the
/// stone and every chain of its colour that touches `p`.
pub open spec fn merged(g: Goban, p: Coord, color: Color) -> Set<Coord> {
    Set::new(
        |x: Coord|
            x == p || (x.inside(g.size) && g.color_at(x) == color && touches(g.group_at(x), p)),
    )
}

/// The colour of a point once the stone is placed and the opposing chains
/// without liberties are taken.
pub open spec fn settled(g: Goban, p: Coord, color: Color, q: Coord) -> Color {
    if q == p {
        color
    } else if doomed(g, p, color, q) {
        Color::Empty
    } else {
        g.color_at(q)
    }
}

/// The stone takes nothing and leaves its own chain without a liberty.
pub open spec fn suicide(g: Goban, p: Coord, color: Color) -> bool {
    &&& forall|q: Coord| !doomed(g, p, color, q)
    &&& forall|e: Coord|
        e.inside(g.size) && settled(g, p, color, e) == Color::Empty ==> !touches(
            merged(g, p, color),
            e,
        )
}

/// The new chain as far as the first `t` neighbours of `p` make it.
pub open spec fn merged_upto(g: Goban, p: Coord, color: Color, t: nat) -> Set<Coord>
    decreases t,
{
    if t == 0 {
        set![p]
    } else {
        let n = p.spec_neighbours(g.size)[t - 1];
        let before = merged_upto(g, p, color, (t - 1) as nat);
        if g.color_at(n) == color {
            before.union(g.group_at(n))
        } else {
            before
        }
    }
}

/// The stones taken as far as the first `t` neighbours of `p` show.
pub open spec fn taken_upto(g: Goban, p: Coord, color: Color, t: nat) -> Set<Coord>
    decreases t,
{
    if t == 0 {
        Set::empty()
    } else {
        let n = p.spec_neighbours(g.size)[t - 1];
        let before = taken_upto(g, p, color, (t - 1) as nat);
        if g.color_at(n) == color.opposite() && g.libs_at(n) == 1 {
            before.union(g.group_at(n))
        } else {
            before
        }
    }
}

/// A stone names a chain of the registry, which has its colour.
pub proof fn lemma_chain_of(g: Goban, c: Coord)
    requires
        g.linked(),
        c.inside(g.size),
        g.color_at(c) != Color::Empty,
    ensures
        1 <= g.id_at(c) < g.chains@.len(),
        g.chains@[g.id_at(c) as int].color == g.color_at(c),
        g.chains@[g.id_at(c) as int].id == g.id_at(c),
        g.group_at(c).contains(c),
{
    assert(g.point_ok(c));
    let i = g.id_at(c) as int;
    assert(g.chain_ok(i));
    let j = choose|j: int| 0 <= j < g.chains@[i]@.len() && g.chains@[i]@[j] == c;
    assert(g.stone_ok(i, j));
}

/// The stones of a point's chain lie on the board, in the chain of that
/// point and with its colour.
pub proof fn lemma_member(g: Goban, y: Coord, x: Coord)
    requires
        g.linked(),
        y.inside(g.size),
        g.group_at(y).contains(x),
    ensures
        x.inside(g.size),
        g.color_at(y) != Color::Empty,
        g.color_at(x) == g.color_at(y),
        g.id_at(x) == g.id_at(y),
        g.group_at(x) == g.group_at(y),
        g.libs_at(x) == g.libs_at(y),
{
    assert(g.point_ok(y));
    let i = g.id_at(y) as int;
    let j = choose|j: int| 0 <= j < g.chains@[i]@.len() && g.chains@[i]@[j] == x;
    if i != 0 {
        assert(g.chain_ok(i));
        assert(g.stone_ok(i, j));
        lemma_chain_of(g, y);
    }
}

/// Two stones with the same chain members are in the same chain.
pub proof fn lemma_same_group(g: Goban, a: Coord, b: Coord)
    requires
        g.linked(),
        a.inside(g.size),
        b.inside(g.size),
        g.color_at(a) != Color::Empty,
        g.group_at(a) == g.group_at(b),
    ensures
        g.id_at(a) == g.id_at(b),
{
    lemma_chain_of(g, a);
    lemma_member(g, b, a);
}

/// The first stone of a chain stands for it.
pub proof fn lemma_first_stone(g: Goban, i: int)
    requires
        g.linked(),
        1 <= i < g.chains@.len(),
    ensures
        g.chains@[i]@[0].inside(g.size),
        g.id_at(g.chains@[i]@[0]) == i,
        g.color_at(g.chains@[i]@[0]) != Color::Empty,
        g.group_at(g.chains@[i]@[0]) == g.chains@[i]@.to_set(),
{
    assert(g.chain_ok(i));
    assert(g.stone_ok(i, 0));
}

/// A set touches `p` exactly when it holds a neighbour of `p`.
pub proof fn lemma_touches_neighbour(g: Goban, s: Set<Coord>, p: Coord)
    requires
        p.inside(g.size),
        forall|x: Coord| s.contains(x) ==> x.inside(g.size),
    ensures
        touches(s, p) <==> exists|u: int|
            0 <= u < p.spec_neighbours(g.size).len() && s.contains(
                #[trigger] p.spec_neighbours(g.size)[u],
            ),
{
    let ns = p.spec_neighbours(g.size);
    lemma_neighbours(p, g.size);
    if touches(s, p) {
        let m = choose|m: Coord| #[trigger] s.contains(m) && adjacent(m, p);
        let u = choose|u: int| 0 <= u < ns.len() && ns[u] == m;
    }
    if exists|u: int| 0 <= u < ns.len() && s.contains(#[trigger] ns[u]) {
    }
}

/// What the new chain holds after the first `t` neighbours: the stone, and
/// the chains of its colour that hold one of those neighbours.
pub proof fn lemma_merged_upto(g: Goban, p: Coord, color: Color, t: nat, x: Coord)
    requires
        g.linked(),
        p.inside(g.size),
        g.color_at(p) == Color::Empty,
        color != Color::Empty,
        t <= p.spec_neighbours(g.size).len(),
    ensures
        merged_upto(g, p, color, t).contains(x) <==> x == p || (x.inside(g.size) && g.color_at(x)
            == color && exists|u: int|
            0 <= u < t && g.group_at(x).contains(#[trigger] p.spec_neighbours(g.size)[u])),
    decreases t,
{
    let ns = p.spec_neighbours(g.size);
    lemma_neighbours(p, g.size);
    if t > 0 {
        lemma_merged_upto(g, p, color, (t - 1) as nat, x);
        let n = ns[t - 1];
        let before = merged_upto(g, p, color, (t - 1) as nat);
        let here = merged_upto(g, p, color, t);
        if here.contains(x) && x != p {
            if before.contains(x) {
                let u = choose|u: int| 0 <= u < t - 1 && g.group_at(x).contains(#[trigger] ns[u]);
            } else {
                lemma_member(g, n, x);
                lemma_chain_of(g, n);
            }
        }
        if x != p && x.inside(g.size) && g.color_at(x) == color && exists|u: int|
            0 <= u < t && g.group_at(x).contains(#[trigger] ns[u]) {
            let u = choose|u: int| 0 <= u < t && g.group_at(x).contains(#[trigger] ns[u]);
            if u >= t - 1 {
                lemma_member(g, x, n);
                lemma_chain_of(g, x);
            }
        }
    }
}

/// The new chain as the neighbours make it is the chain of the definition.
pub proof fn lemma_merged(g: Goban, p: Coord, color: Color)
    requires
        g.linked(),
        p.inside(g.size),
        g.color_at(p) == Color::Empty,
        color != Color::Empty,
    ensures
        merged_upto(g, p, color, p.spec_neighbours(g.size).len()) == merged(g, p, color),
{
    let ns = p.spec_neighbours(g.size);
    let all = merged_upto(g, p, color, ns.len());
    assert forall|x: Coord| all.contains(x) <==> merged(g, p, color).contains(x) by {
        lemma_merged_upto(g, p, color, ns.len(), x);
        if x != p && x.inside(g.size) && g.color_at(x) == color {
            assert forall|m: Coord| g.group_at(x).contains(m) implies m.inside(g.size) by {
                lemma_member(g, x, m);
            }
            lemma_touches_neighbour(g, g.group_at(x), p);
        }
    }
}

/// The stones of the new chain other than the new stone have its colour, and
/// the new chain holds the whole chain of each.
pub proof fn lemma_merged_closed(g: Goban, p: Coord, color: Color, t: nat, x: Coord)
    requires
        g.linked(),
        p.inside(g.size),
        g.color_at(p) == Color::Empty,
        color != Color::Empty,
        t <= p.spec_neighbours(g.size).len(),
        merged_upto(g, p, color, t).contains(x),
        x != p,
    ensures
        x.inside(g.size),
        g.color_at(x) == color,
        g.group_at(x).subset_of(merged_upto(g, p, color, t)),
{
    lemma_merged_upto(g, p, color, t, x);
    assert forall|y: Coord| g.group_at(x).contains(y) implies merged_upto(g, p, color, t).contains(
        y,
    ) by {
        lemma_member(g, x, y);
        lemma_merged_upto(g, p, color, t, y);
    }
}

/// What is taken after the first `t` neighbours: the opposing chains with one
/// liberty that hold one of those neighbours.
pub proof fn lemma_taken_upto(g: Goban, p: Coord, color: Color, t: nat, x: Coord)
    requires
        g.linked(),
        p.inside(g.size),
        g.color_at(p) == Color::Empty,
        color != Color::Empty,
        t <= p.spec_neighbours(g.size).len(),
    ensures
        taken_upto(g, p, color, t).contains(x) <==> x.inside(g.size) && g.color_at(x)
            == color.opposite() && g.libs_at(x) == 1 && exists|u: int|
            0 <= u < t && g.group_at(x).contains(#[trigger] p.spec_neighbours(g.size)[u]),
    decreases t,
{
    let ns = p.spec_neighbours(g.size);
    lemma_neighbours(p, g.size);
    if t > 0 {
        lemma_taken_upto(g, p, color, (t - 1) as nat, x);
        let n = ns[t - 1];
        let before = taken_upto(g, p, color, (t - 1) as nat);
        let here = taken_upto(g, p, color, t);
        if here.contains(x) {
            if before.contains(x) {
                let u = choose|u: int| 0 <= u < t - 1 && g.group_at(x).contains(#[trigger] ns[u]);
            } else {
                lemma_member(g, n, x);
                lemma_chain_of(g, n);
            }
        }
        if x.inside(g.size) && g.color_at(x) == color.opposite() && g.libs_at(x) == 1
            && exists|u: int| 0 <= u < t && g.group_at(x).contains(#[trigger] ns[u]) {
            let u = choose|u: int| 0 <= u < t && g.group_at(x).contains(#[trigger] ns[u]);
            if u >= t - 1 {
                lemma_member(g, x, n);
                lemma_chain_of(g, x);
            }
        }
    }
}

/// What is taken holds the whole chain of each of its stones.
pub proof fn lemma_taken_closed(g: Goban, p: Coord, color: Color, t: nat, x: Coord)
    requires
        g.linked(),
        p.inside(g.size),
        g.color_at(p) == Color::Empty,
        color != Color::Empty,
        t <= p.spec_neighbours(g.size).len(),
        taken_upto(g, p, color, t).contains(x),
    ensures
        x.inside(g.size),
        x != p,
        g.color_at(x) == color.opposite(),
        g.group_at(x).subset_of(taken_upto(g, p, color, t)),
{
    lemma_taken_upto(g, p, color, t, x);
    assert forall|y: Coord| g.group_at(x).contains(y) implies taken_upto(g, p, color, t).contains(
        y,
    ) by {
        lemma_member(g, x, y);
        lemma_taken_upto(g, p, color, t, y);
    }
}

/// A finite set with one member, which is `p`, is the set of `p` alone.
pub proof fn lemma_only_member(s: Set<Coord>, p: Coord)
    requires
        s.finite(),
        s.len() == 1,
        s.contains(p),
    ensures
        s == set![p],
{
    assert(s.remove(p).len() == 0);
    assert forall|x: Coord| s.contains(x) implies x == p by {}
}

/// The liberties of the chain of a stone are as many as its chain records.
pub proof fn lemma_libs_at(g: Goban, c: Coord)
    requires
        g.linked(),
        g.counted(),
        c.inside(g.size),
        g.color_at(c) != Color::Empty,
    ensures
        g.liberties(g.group_at(c)).finite(),
        g.liberties(g.group_at(c)).len() == g.libs_at(c),
        g.libs_at(c) > 0,
{
    lemma_chain_of(g, c);
}

/// What is taken at the end is what the definition says is doomed.
pub proof fn lemma_taken(g: Goban, p: Coord, color: Color, q: Coord)
    requires
        g.linked(),
        g.counted(),
        p.inside(g.size),
        g.color_at(p) == Color::Empty,
        color != Color::Empty,
    ensures
        taken_upto(g, p, color, p.spec_neighbours(g.size).len()).contains(q) <==> doomed(
            g,
            p,
            color,
            q,
        ),
{
    let ns = p.spec_neighbours(g.size);
    lemma_taken_upto(g, p, color, ns.len(), q);
    if q.inside(g.size) && g.color_at(q) == color.opposite() {
        let group = g.group_at(q);
        let libs = g.liberties(group);
        lemma_libs_at(g, q);
        assert forall|m: Coord| group.contains(m) implies m.inside(g.size) by {
            lemma_member(g, q, m);
        }
        lemma_touches_neighbour(g, group, p);
        if touches(group, p) {
            if g.libs_at(q) == 1 {
                lemma_only_member(libs, p);
            }
        } else {
            assert(!libs.contains(p));
        }
    }
}

/// Twins agree point by point, and one is sound when the other is.
pub proof fn lemma_twin(a: Goban, b: Goban)
    requires
        a.twin(b),
        b.linked(),
    ensures
        a.linked(),
        forall|c: Coord| #[trigger] a.color_at(c) == b.color_at(c),
        forall|c: Coord| #[trigger] a.id_at(c) == b.id_at(c),
        forall|c: Coord| c.inside(b.size) ==> #[trigger] a.group_at(c) == b.group_at(c),
        forall|c: Coord| c.inside(b.size) ==> #[trigger] a.libs_at(c) == b.libs_at(c),
        forall|s: Set<Coord>| #[trigger] a.liberties(s) == b.liberties(s),
        b.grouped() ==> a.grouped(),
        b.counted() ==> a.counted(),
{
    crate::goban::lemma_same_shape(b, a);
    assert forall|c: Coord|
        #![trigger a.group_at(c)]
        #![trigger a.libs_at(c)]
        c.inside(b.size) implies a.group_at(c) == b.group_at(c) && a.libs_at(c) == b.libs_at(
        c,
    ) by {
        assert(b.point_ok(c));
    }
    if b.grouped() {
        assert forall|x: Coord, y: Coord|
            #![trigger a.group_at(x), a.group_at(y)]
            x.inside(a.size) && y.inside(a.size) && adjacent(x, y) && a.color_at(x)
                != Color::Empty && a.color_at(x) == a.color_at(y) implies a.group_at(x)
            == a.group_at(y) by {}
        assert forall|c: Coord|
            c.inside(a.size) && a.color_at(c) != Color::Empty implies connected(
            #[trigger] a.group_at(c),
        ) by {}
    }
    if b.counted() {
        assert forall|i: int| 1 <= i < a.chains@.len() implies {
            &&& a.liberties(#[trigger] a.chains@[i]@.to_set()).finite()
            &&& a.chains@[i].libs == a.liberties(a.chains@[i]@.to_set()).len()
            &&& a.chains@[i].libs > 0
        } by {}
    }
}

/// A stone does to a position what it does to its twin.
pub proof fn lemma_twin_rules(a: Goban, b: Goban, p: Coord, color: Color)
    requires
        a.twin(b),
        b.linked(),
    ensures
        forall|q: Coord| #[trigger] doomed(a, p, color, q) == doomed(b, p, color, q),
        merged(a, p, color) == merged(b, p, color),
        suicide(a, p, color) == suicide(b, p, color),
        forall|q: Coord| #[trigger] a.color_after(p, color, q) == b.color_after(p, color, q),
{
    lemma_twin(a, b);
    assert forall|q: Coord| #[trigger] doomed(a, p, color, q) == doomed(b, p, color, q) by {}
    assert forall|x: Coord| merged(a, p, color).contains(x) <==> merged(b, p, color).contains(
        x,
    ) by {}
    assert forall|q: Coord| #[trigger] settled(a, p, color, q) == settled(b, p, color, q) by {}
    assert(suicide(a, p, color) == suicide(b, p, color)) by {
        if suicide(b, p, color) {
            assert forall|q: Coord| !doomed(a, p, color, q) by {}
            assert forall|e: Coord|
                e.inside(a.size) && settled(a, p, color, e) == Color::Empty implies !touches(
                merged(a, p, color),
                e,
            ) by {}
        }
        if suicide(a, p, color) {
            assert forall|q: Coord| !doomed(b, p, color, q) by {
                assert(doomed(a, p, color, q) == doomed(b, p, color, q));
            }
            assert forall|e: Coord|
                e.inside(b.size) && settled(b, p, color, e) == Color::Empty implies !touches(
                merged(b, p, color),
                e,
            ) by {}
        }
    }
    assert forall|q: Coord| #[trigger]
        a.color_after(p, color, q) == b.color_after(p, color, q) by {}
}

/// The points of the board that hold the given colour.
pub open spec fn colored(g: Goban, color: Color) -> Set<Coord> {
    Set::new(|q: Coord| q.inside(g.size) && g.color_at(q) == color)
}

/// The chains of a linked grid are an exact partition of its stones: every
/// stone is in a chain, every chain holds stones of its colour only, each
/// once, and no point is in two chains.
pub proof fn lemma_partition(g: Goban)
    requires
        g.linked(),
    ensures
        forall|c: Coord|
            c.inside(g.size) && g.color_at(c) != Color::Empty ==> 1 <= #[trigger] g.id_at(c)
                < g.chains@.len() && g.chains@[g.id_at(c) as int]@.contains(c),
        forall|i: int, c: Coord|
            1 <= i < g.chains@.len() && #[trigger] g.chains@[i]@.contains(c) ==> c.inside(g.size)
                && g.color_at(c) == g.chains@[i].color && g.color_at(c) != Color::Empty,
        forall|i: int, j: int, c: Coord|
            1 <= i < g.chains@.len() && 1 <= j < g.chains@.len() && #[trigger] g.chains@[i]@.contains(
                c,
            ) && #[trigger] g.chains@[j]@.contains(c) ==> i == j,
        forall|i: int|
            1 <= i < g.chains@.len() ==> (#[trigger] g.chains@[i])@.no_duplicates()
                && g.chains@[i]@.len() > 0,
{
    assert forall|c: Coord| c.inside(g.size) && g.color_at(c) != Color::Empty implies 1
        <= #[trigger] g.id_at(c) < g.chains@.len() && g.chains@[g.id_at(c) as int]@.contains(
        c,
    ) by {
        lemma_chain_of(g, c);
    }
    assert forall|i: int, c: Coord|
        1 <= i < g.chains@.len() && #[trigger] g.chains@[i]@.contains(c) implies c.inside(g.size)
        && g.color_at(c) == g.chains@[i].color && g.color_at(c) != Color::Empty && g.id_at(c)
        == i by {
        assert(g.chain_ok(i));
        let t = choose|t: int| 0 <= t < g.chains@[i]@.len() && g.chains@[i]@[t] == c;
        assert(g.stone_ok(i, t));
    }
    assert forall|i: int| 1 <= i < g.chains@.len() implies (#[trigger] g.chains@[i])@.no_duplicates()
        && g.chains@[i]@.len() > 0 by {
        assert(g.chain_ok(i));
    }
}

/// On a sound grid the chain of a stone is the set of the points that a walk
/// over stones of its colour reaches from it: chains are the maximal sets of
/// stones of one colour that hang together.
pub proof fn lemma_chain_is_group(g: Goban, c: Coord)
    requires
        g.linked(),
        g.grouped(),
        c.inside(g.size),
        g.color_at(c) != Color::Empty,
    ensures
        forall|q: Coord|
            g.group_at(c).contains(q) <==> #[trigger] joined(colored(g, g.color_at(c)), c, q),
{
    let same = colored(g, g.color_at(c));
    let group = g.group_at(c);
    lemma_chain_of(g, c);
    assert(group.subset_of(same)) by {
        assert forall|x: Coord| group.contains(x) implies same.contains(x) by {
            lemma_member(g, c, x);
        }
    }
    assert forall|q: Coord| group.contains(q) <==> #[trigger] joined(same, c, q) by {
        if group.contains(q) {
            crate::group::lemma_joined_grow(group, same, c, q);
        }
        if joined(same, c, q) {
            let path = choose|path: Seq<Coord>| #[trigger]
                is_path(path, same) && path[0] == c && path.last() == q;
            lemma_walk_in_group(g, c, path, path.len() - 1);
        }
    }
}

/// A walk over stones of one colour stays in the chain in which it starts.
pub proof fn lemma_walk_in_group(g: Goban, c: Coord, path: Seq<Coord>, i: int)
    requires
        g.linked(),
        g.grouped(),
        c.inside(g.size),
        g.color_at(c) != Color::Empty,
        is_path(path, colored(g, g.color_at(c))),
        path[0] == c,
        0 <= i < path.len(),
    ensures
        g.group_at(c).contains(path[i]),
    decreases i,
{
    lemma_chain_of(g, c);
    if i > 0 {
        lemma_walk_in_group(g, c, path, i - 1);
        let a = path[i - 1];
        let b = path[i];
        lemma_member(g, c, a);
        lemma_chain_of(g, b);
    }
}

} // verus!
