//! Paths between points and what it means for a set of points to hang together.

use vstd::prelude::*;
use crate::coord::{adjacent, Coord};

verus! {

/// A path within a set: a walk of at least one point, each point in the set
/// and each step between adjacent points.
pub open spec fn is_path(path: Seq<Coord>, within: Set<Coord>) -> bool {
    &&& path.len() > 0
    &&& forall|i: int| 0 <= i < path.len() ==> within.contains(#[trigger] path[i])
    &&& forall|i: int| 0 <= i < path.len() - 1 ==> adjacent(#[trigger] path[i], path[i + 1])
}

/// A path within the set leads from the one point to the other.
pub open spec fn joined(within: Set<Coord>, a: Coord, b: Coord) -> bool {
    exists|path: Seq<Coord>| #[trigger] is_path(path, within) && path[0] == a && path.last() == b
}

/// Every two points of the set are joined within it.
pub open spec fn connected(s: Set<Coord>) -> bool {
    forall|a: Coord, b: Coord| s.contains(a) && s.contains(b) ==> #[trigger] joined(s, a, b)
}

/// A point of a set is joined to itself.
pub proof fn lemma_joined_self(s: Set<Coord>, a: Coord)
    requires
        s.contains(a),
    ensures
        joined(s, a, a),
{
    let path = seq![a];
    assert(is_path(path, s));
}

/// Two adjacent points of a set are joined.
pub proof fn lemma_joined_step(s: Set<Coord>, a: Coord, b: Coord)
    requires
        s.contains(a),
        s.contains(b),
        adjacent(a, b),
    ensures
        joined(s, a, b),
{
    let path = seq![a, b];
    assert(is_path(path, s));
}

/// What is joined within a set is joined within a larger one.
pub proof fn lemma_joined_grow(s: Set<Coord>, t: Set<Coord>, a: Coord, b: Coord)
    requires
        joined(s, a, b),
        s.subset_of(t),
    ensures
        joined(t, a, b),
{
    let path = choose|path: Seq<Coord>| #[trigger]
        is_path(path, s) && path[0] == a && path.last() == b;
    assert(is_path(path, t));
}

/// Being joined carries over from step to step.
pub proof fn lemma_joined_chain(s: Set<Coord>, a: Coord, b: Coord, c: Coord)
    requires
        joined(s, a, b),
        joined(s, b, c),
    ensures
        joined(s, a, c),
{
    let first = choose|path: Seq<Coord>| #[trigger]
        is_path(path, s) && path[0] == a && path.last() == b;
    let second = choose|path: Seq<Coord>| #[trigger]
        is_path(path, s) && path[0] == b && path.last() == c;
    let rest = second.subrange(1, second.len() as int);
    let path = first + rest;
    assert forall|i: int| 0 <= i < path.len() implies s.contains(#[trigger] path[i]) by {}
    assert forall|i: int| 0 <= i < path.len() - 1 implies adjacent(
        #[trigger] path[i],
        path[i + 1],
    ) by {}
    assert(is_path(path, s));
}

/// Two sets that each hang together, and that hold two adjacent points, one
/// each, hang together as one.
pub proof fn lemma_connected_union(s: Set<Coord>, t: Set<Coord>, x: Coord, y: Coord)
    requires
        connected(s),
        connected(t),
        s.contains(x),
        t.contains(y),
        adjacent(x, y),
    ensures
        connected(s.union(t)),
{
    let u = s.union(t);
    assert forall|a: Coord, b: Coord| u.contains(a) && u.contains(b) implies #[trigger] joined(
        u,
        a,
        b,
    ) by {
        lemma_joined_step(u, x, y);
        lemma_joined_step(u, y, x);
        if s.contains(a) {
            lemma_joined_grow(s, u, a, x);
            if s.contains(b) {
                lemma_joined_grow(s, u, a, b);
            } else {
                lemma_joined_grow(t, u, y, b);
                lemma_joined_chain(u, a, x, y);
                lemma_joined_chain(u, a, y, b);
            }
        } else {
            lemma_joined_grow(t, u, a, y);
            if t.contains(b) {
                lemma_joined_grow(t, u, a, b);
            } else {
                lemma_joined_grow(s, u, x, b);
                lemma_joined_chain(u, a, y, x);
                lemma_joined_chain(u, a, x, b);
            }
        }
    }
}

/// A single point hangs together.
pub proof fn lemma_connected_single(p: Coord)
    ensures
        connected(set![p]),
{
    assert forall|a: Coord, b: Coord| set![p].contains(a) && set![p].contains(b) implies #[trigger] joined(
        set![p],
        a,
        b,
    ) by {
        lemma_joined_self(set![p], p);
    }
}

} // verus!
