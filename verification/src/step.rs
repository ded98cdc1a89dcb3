//! A stone on the grid, step by step: the stone goes down as a chain of its
//! own, the chains of its colour around it are joined to it, the opposing
//! chains that it leaves without a liberty are taken, and the liberties are
//! counted anew.

use vstd::prelude::*;
use crate::color::Color;
use crate::coord::{adjacent, lemma_neighbours, Coord};
use crate::goban::{touches, Goban};
use crate::gomove::IllegalMove;
use crate::group::{connected, lemma_connected_single, lemma_connected_union};
use crate::hash::ZobristHashTable;
use crate::rules::{
    doomed, lemma_chain_of, lemma_member, lemma_merged_closed,
    lemma_merged_upto, lemma_same_group, lemma_taken_closed, lemma_taken_upto, merged,
    merged_upto, settled, suicide, taken_upto,
};

verus! {

impl Goban {
    /// The grid holds the new stone, and the chains of its colour that hold
    /// one of the first `t` neighbours of the stone are joined to it.
    pub open spec fn merged_from(&self, g: Goban, p: Coord, color: Color, t: nat) -> bool {
        &&& self.linked()
        &&& self.size == g.size
        &&& forall|q: Coord|
            q.inside(g.size) ==> #[trigger] self.color_at(q) == if q == p {
                color
            } else {
                g.color_at(q)
            }
        &&& forall|x: Coord|
            #![trigger self.group_at(x)]
            #![trigger self.libs_at(x)]
            x.inside(g.size) ==> if merged_upto(g, p, color, t).contains(x) {
                self.group_at(x) == merged_upto(g, p, color, t)
            } else {
                &&& self.group_at(x) == g.group_at(x)
                &&& self.libs_at(x) == g.libs_at(x)
            }
        &&& connected(merged_upto(g, p, color, t))
    }

    /// Beyond `merged_from` for all neighbours, the opposing chains with one
    /// liberty that hold one of the first `t` neighbours are off the board.
    pub open spec fn taken_from(&self, g: Goban, p: Coord, color: Color, t: nat) -> bool {
        let all = merged_upto(g, p, color, p.spec_neighbours(g.size).len());
        let gone = taken_upto(g, p, color, t);
        &&& self.linked()
        &&& self.size == g.size
        &&& forall|q: Coord|
            q.inside(g.size) ==> #[trigger] self.color_at(q) == if q == p {
                color
            } else if gone.contains(q) {
                Color::Empty
            } else {
                g.color_at(q)
            }
        &&& forall|x: Coord|
            #![trigger self.group_at(x)]
            #![trigger self.libs_at(x)]
            x.inside(g.size) && !gone.contains(x) ==> if all.contains(x) {
                self.group_at(x) == all
            } else {
                &&& self.group_at(x) == g.group_at(x)
                &&& self.libs_at(x) == g.libs_at(x)
            }
        &&& connected(all)
    }

    /// Joins to the chain of the new stone on `p` every chain of its colour
    /// that holds a neighbour of `p`.
    pub(crate) fn merge_around(&mut self, p: Coord, color: Color, Ghost(g): Ghost<Goban>)
        requires
            g.linked(),
            g.grouped(),
            p.inside(g.size),
            g.color_at(p) == Color::Empty,
            color != Color::Empty,
            old(self).merged_from(g, p, color, 0),
        ensures
            final(self).merged_from(g, p, color, p.spec_neighbours(g.size).len()),
            final(self).hash == old(self).hash,
            final(self).colors == old(self).colors,
    {
        let ns: Vec<Coord> = p.neighbours(self.size);
        let mut t: usize = 0;
        while t < ns.len()
            invariant
                t <= ns@.len(),
                ns@ == p.spec_neighbours(g.size),
                g.linked(),
                g.grouped(),
                p.inside(g.size),
                g.color_at(p) == Color::Empty,
                color != Color::Empty,
                self.merged_from(g, p, color, t as nat),
                self.hash == old(self).hash,
                self.colors == old(self).colors,
            decreases ns@.len() - t,
        {
            let n: Coord = ns[t];
            let ghost cur = *self;
            proof {
                lemma_neighbours(p, g.size);
            }
            if self.color(n) == color {
                let idn: usize = self.id(n);
                let idp: usize = self.id(p);
                if idn != idp {
                    proof {
                        lemma_chain_of(cur, n);
                        lemma_chain_of(cur, p);
                    }
                    self.join(idn, idp);
                    proof {
                        lemma_merge_joined(cur, *self, g, p, color, t as nat);
                    }
                } else {
                    proof {
                        lemma_merge_same(cur, g, p, color, t as nat);
                    }
                }
            } else {
                assert(merged_upto(g, p, color, (t + 1) as nat) == merged_upto(
                    g,
                    p,
                    color,
                    t as nat,
                ));
            }
            t += 1;
        }
    }

    /// Takes off the board every opposing chain that holds a neighbour of the
    /// new stone on `p` and had `p` as its only liberty. Returns the points
    /// that were emptied.
    pub(crate) fn capture_around(
        &mut self,
        p: Coord,
        color: Color,
        table: &ZobristHashTable,
        Ghost(g): Ghost<Goban>,
    ) -> (removed: Vec<Coord>)
        requires
            g.linked(),
            p.inside(g.size),
            g.color_at(p) == Color::Empty,
            color != Color::Empty,
            old(self).taken_from(g, p, color, 0),
            old(self).hashed(table),
        ensures
            final(self).taken_from(g, p, color, p.spec_neighbours(g.size).len()),
            final(self).hashed(table),
            removed@.to_set() == taken_upto(g, p, color, p.spec_neighbours(g.size).len()),
    {
        let ns: Vec<Coord> = p.neighbours(self.size);
        let mut removed: Vec<Coord> = Vec::new();
        let mut t: usize = 0;
        while t < ns.len()
            invariant
                t <= ns@.len(),
                ns@ == p.spec_neighbours(g.size),
                g.linked(),
                p.inside(g.size),
                g.color_at(p) == Color::Empty,
                color != Color::Empty,
                self.taken_from(g, p, color, t as nat),
                self.hashed(table),
                removed@.to_set() == taken_upto(g, p, color, t as nat),
            decreases ns@.len() - t,
        {
            let n: Coord = ns[t];
            let ghost cur = *self;
            let ghost so_far = removed@;
            proof {
                lemma_neighbours(p, g.size);
            }
            let mut took: bool = false;
            if self.color(n) == color.opposite() {
                let idn: usize = self.id(n);
                proof {
                    lemma_chain_of(cur, n);
                }
                if self.chains[idn].libs == 1 {
                    let mut stones: Vec<Coord> = self.capture(idn, table);
                    proof {
                        lemma_take(cur, *self, g, p, color, t as nat);
                        crate::goban::lemma_concat_to_set(so_far, stones@);
                    }
                    removed.append(&mut stones);
                    took = true;
                }
            }
            proof {
                if !took {
                    lemma_take_none(cur, g, p, color, t as nat);
                }
            }
            t += 1;
        }
        removed
    }

    /// The grid is what `g` becomes when a stone of `color` goes on `p` and
    /// takes what it leaves without a liberty.
    pub open spec fn settled_from(&self, g: Goban, p: Coord, color: Color) -> bool {
        &&& self.linked()
        &&& self.size == g.size
        &&& forall|q: Coord|
            q.inside(g.size) ==> #[trigger] self.color_at(q) == settled(g, p, color, q)
        &&& forall|x: Coord|
            x.inside(g.size) && self.color_at(x) != Color::Empty ==> #[trigger] self.group_at(x)
                == if merged(g, p, color).contains(x) {
                merged(g, p, color)
            } else {
                g.group_at(x)
            }
        &&& connected(merged(g, p, color))
    }

    /// The grid is `g` without the stones of `gone`, which holds whole chains.
    pub open spec fn cleared_from(&self, g: Goban, gone: Set<Coord>) -> bool {
        &&& self.linked()
        &&& self.size == g.size
        &&& forall|q: Coord|
            q.inside(g.size) ==> #[trigger] self.color_at(q) == if gone.contains(q) {
                Color::Empty
            } else {
                g.color_at(q)
            }
        &&& forall|x: Coord|
            x.inside(g.size) && self.color_at(x) != Color::Empty ==> #[trigger] self.group_at(x)
                == g.group_at(x)
    }

    /// The colour of a point after a stone of `color` went on the empty point
    /// `p`: where the stone is a suicide its own chain is gone, and else what
    /// it took.
    pub open spec fn color_after(&self, p: Coord, color: Color, q: Coord) -> Color {
        if suicide(*self, p, color) {
            if merged(*self, p, color).contains(q) {
                Color::Empty
            } else {
                self.color_at(q)
            }
        } else {
            settled(*self, p, color, q)
        }
    }

    /// Plays a stone of `color` on the empty point `p`. On success returns
    /// the opposing stones that were taken and the stones of the player's own
    /// chain that left the board with a suicide. A suicide is refused unless
    /// `suicide_allowed`; the grid is then to be thrown away.
    pub fn put(
        &mut self,
        p: Coord,
        color: Color,
        table: &ZobristHashTable,
        suicide_allowed: bool,
    ) -> (res: Result<(Vec<Coord>, Vec<Coord>), IllegalMove>)
        requires
            old(self).sound(),
            old(self).hashed(table),
            p.inside(old(self).size),
            old(self).color_at(p) == Color::Empty,
            color != Color::Empty,
        ensures
            res is Err <==> suicide(*old(self), p, color) && !suicide_allowed,
            res is Err ==> res == Err::<(Vec<Coord>, Vec<Coord>), IllegalMove>(
                IllegalMove::SuicidePlay,
            ),
            res matches Ok((adv, friend)) ==> {
                &&& final(self).sound()
                &&& final(self).hashed(table)
                &&& final(self).size == old(self).size
                &&& forall|q: Coord|
                    q.inside(old(self).size) ==> #[trigger] final(self).color_at(q) == old(
                        self,
                    ).color_after(p, color, q)
                &&& forall|q: Coord| adv@.contains(q) <==> doomed(*old(self), p, color, q)
                &&& friend@.to_set() == if suicide(*old(self), p, color) {
                    merged(*old(self), p, color)
                } else {
                    Set::<Coord>::empty()
                }
            },
    {
        let ghost g = *self;
        self.place(p, color, table);
        proof {
            lemma_connected_single(p);
        }
        self.merge_around(p, color, Ghost(g));
        let adv: Vec<Coord> = self.capture_around(p, color, table, Ghost(g));
        let ghost taken = *self;
        proof {
            lemma_settled(taken, g, p, color);
            assert forall|q: Coord| adv@.contains(q) <==> doomed(g, p, color, q) by {
                crate::rules::lemma_taken(g, p, color, q);
            }
        }
        self.recount();
        let ghost counted = *self;
        proof {
            lemma_recounted(taken, counted);
            lemma_chain_of(counted, p);
            lemma_own_liberties(counted, g, p, color);
        }
        let idp: usize = self.id(p);
        if self.chains[idp].libs == 0 {
            if !suicide_allowed {
                return Err(IllegalMove::SuicidePlay);
            }
            let friend: Vec<Coord> = self.capture(idp, table);
            let ghost emptied = *self;
            proof {
                lemma_suicide_cleared(counted, emptied, g, p, color);
            }
            self.recount();
            proof {
                lemma_recounted(emptied, *self);
                lemma_cleared_sound(*self, g, p, color);
            }
            Ok((adv, friend))
        } else {
            proof {
                lemma_settled_sound(counted, g, p, color);
            }
            let friend: Vec<Coord> = Vec::new();
            Ok((adv, friend))
        }
    }
}

/// The step of `capture_around` that takes the chain of a neighbour.
pub proof fn lemma_take(cur: Goban, next: Goban, g: Goban, p: Coord, color: Color, t: nat)
    requires
        g.linked(),
        p.inside(g.size),
        g.color_at(p) == Color::Empty,
        color != Color::Empty,
        t < p.spec_neighbours(g.size).len(),
        cur.taken_from(g, p, color, t),
        cur.color_at(p.spec_neighbours(g.size)[t as int]) == color.opposite(),
        cur.libs_at(p.spec_neighbours(g.size)[t as int]) == 1,
        next.linked(),
        next.size == cur.size,
        forall|c: Coord|
            #![trigger next.color_at(c)]
            #![trigger next.group_at(c)]
            #![trigger next.libs_at(c)]
            c.inside(cur.size) ==> if cur.id_at(c) == cur.id_at(
                p.spec_neighbours(g.size)[t as int],
            ) {
                next.color_at(c) == Color::Empty
            } else {
                &&& next.color_at(c) == cur.color_at(c)
                &&& next.group_at(c) == cur.group_at(c)
                &&& next.libs_at(c) == cur.libs_at(c)
            },
    ensures
        next.taken_from(g, p, color, t + 1),
        taken_upto(g, p, color, t + 1) == taken_upto(g, p, color, t).union(
            cur.group_at(p.spec_neighbours(g.size)[t as int]),
        ),
{
    let ns = p.spec_neighbours(g.size);
    let n = ns[t as int];
    let all = merged_upto(g, p, color, ns.len());
    let before = taken_upto(g, p, color, t);
    let after = taken_upto(g, p, color, t + 1);
    lemma_neighbours(p, g.size);
    assert(cur.color_at(n) == if n == p {
        color
    } else if before.contains(n) {
        Color::Empty
    } else {
        g.color_at(n)
    });
    if all.contains(n) {
        lemma_merged_closed(g, p, color, ns.len(), n);
    }
    lemma_chain_of(cur, n);
    assert forall|q: Coord| q.inside(g.size) implies #[trigger] next.color_at(q) == if q == p {
        color
    } else if after.contains(q) {
        Color::Empty
    } else {
        g.color_at(q)
    } by {
        assert(cur.color_at(q) == if q == p {
            color
        } else if before.contains(q) {
            Color::Empty
        } else {
            g.color_at(q)
        });
        if cur.id_at(q) == cur.id_at(n) {
            assert(cur.point_ok(q));
            lemma_member(cur, n, q);
        } else {
            if g.group_at(n).contains(q) {
                lemma_member(cur, n, q);
            }
        }
    }
    assert forall|x: Coord|
        #![trigger next.group_at(x)]
        #![trigger next.libs_at(x)]
        x.inside(g.size) && !after.contains(x) implies if all.contains(x) {
        next.group_at(x) == all
    } else {
        &&& next.group_at(x) == g.group_at(x)
        &&& next.libs_at(x) == g.libs_at(x)
    } by {
        if cur.id_at(x) == cur.id_at(n) {
            assert(cur.point_ok(x));
        }
    }
}

/// The step of `capture_around` at a neighbour whose chain stays.
pub proof fn lemma_take_none(cur: Goban, g: Goban, p: Coord, color: Color, t: nat)
    requires
        g.linked(),
        p.inside(g.size),
        g.color_at(p) == Color::Empty,
        color != Color::Empty,
        t < p.spec_neighbours(g.size).len(),
        cur.taken_from(g, p, color, t),
        !(cur.color_at(p.spec_neighbours(g.size)[t as int]) == color.opposite() && cur.libs_at(
            p.spec_neighbours(g.size)[t as int],
        ) == 1),
    ensures
        cur.taken_from(g, p, color, t + 1),
        taken_upto(g, p, color, t + 1) == taken_upto(g, p, color, t),
{
    let ns = p.spec_neighbours(g.size);
    let n = ns[t as int];
    let all = merged_upto(g, p, color, ns.len());
    let before = taken_upto(g, p, color, t);
    lemma_neighbours(p, g.size);
    assert(cur.color_at(n) == if n == p {
        color
    } else if before.contains(n) {
        Color::Empty
    } else {
        g.color_at(n)
    });
    if g.color_at(n) == color.opposite() && g.libs_at(n) == 1 {
        if before.contains(n) {
            lemma_taken_closed(g, p, color, t, n);
        } else {
            if all.contains(n) {
                lemma_merged_closed(g, p, color, ns.len(), n);
            }
        }
    }
}

/// After every neighbour has been looked at, the grid is settled.
pub proof fn lemma_settled(cur: Goban, g: Goban, p: Coord, color: Color)
    requires
        g.linked(),
        g.counted(),
        p.inside(g.size),
        g.color_at(p) == Color::Empty,
        color != Color::Empty,
        cur.taken_from(g, p, color, p.spec_neighbours(g.size).len()),
    ensures
        cur.settled_from(g, p, color),
{
    let ns = p.spec_neighbours(g.size);
    let gone = taken_upto(g, p, color, ns.len());
    crate::rules::lemma_merged(g, p, color);
    assert forall|q: Coord| q.inside(g.size) implies #[trigger] cur.color_at(q) == settled(
        g,
        p,
        color,
        q,
    ) by {
        crate::rules::lemma_taken(g, p, color, q);
    }
    assert forall|x: Coord|
        x.inside(g.size) && cur.color_at(x) != Color::Empty implies #[trigger] cur.group_at(x)
        == if merged(g, p, color).contains(x) {
        merged(g, p, color)
    } else {
        g.group_at(x)
    } by {
        assert(cur.color_at(x) == if x == p {
            color
        } else if gone.contains(x) {
            Color::Empty
        } else {
            g.color_at(x)
        });
        if gone.contains(x) {
            lemma_taken_closed(g, p, color, ns.len(), x);
        }
    }
}

/// Counting liberties anew changes neither a colour nor a chain's stones.
pub proof fn lemma_recounted(a: Goban, b: Goban)
    requires
        a.linked(),
        b.linked(),
        b.size == a.size,
        b.colors == a.colors,
        b.ids == a.ids,
        b.chains@.len() == a.chains@.len(),
        forall|i: int|
            0 <= i < a.chains@.len() ==> (#[trigger] b.chains@[i])@ == a.chains@[i]@,
    ensures
        forall|q: Coord| #[trigger] b.color_at(q) == a.color_at(q),
        forall|q: Coord| q.inside(a.size) ==> #[trigger] b.group_at(q) == a.group_at(q),
{
    assert forall|q: Coord| q.inside(a.size) implies #[trigger] b.group_at(q) == a.group_at(
        q,
    ) by {
        assert(a.point_ok(q));
    }
}

/// Once the grid is settled and counted, the chain of the new stone records
/// no liberty exactly when the stone is a suicide.
pub proof fn lemma_own_liberties(cur: Goban, g: Goban, p: Coord, color: Color)
    requires
        g.linked(),
        g.counted(),
        p.inside(g.size),
        g.color_at(p) == Color::Empty,
        color != Color::Empty,
        cur.settled_from(g, p, color),
        cur.tallied(),
    ensures
        cur.group_at(p) == merged(g, p, color),
        cur.libs_at(p) == 0 <==> suicide(g, p, color),
{
    let own = merged(g, p, color);
    let libs = cur.liberties(own);
    let ns = p.spec_neighbours(g.size);
    lemma_chain_of(cur, p);
    vstd::set_lib::lemma_set_empty_equivalency_len(libs);
    if exists|q: Coord| doomed(g, p, color, q) {
        // A stone that is taken frees a neighbour of the new stone.
        let q = choose|q: Coord| doomed(g, p, color, q);
        crate::rules::lemma_taken(g, p, color, q);
        lemma_taken_upto(g, p, color, ns.len(), q);
        let u = choose|u: int| 0 <= u < ns.len() && g.group_at(q).contains(#[trigger] ns[u]);
        let n = ns[u];
        lemma_neighbours(p, g.size);
        lemma_member(g, q, n);
        assert(touches(own, n));
    }
    if libs == Set::<Coord>::empty() {
        assert forall|e: Coord|
            e.inside(g.size) && settled(g, p, color, e) == Color::Empty implies !touches(
            own,
            e,
        ) by {
            assert(cur.color_at(e) == settled(g, p, color, e));
            if touches(own, e) {
                assert(libs.contains(e));
            }
        }
    } else {
        let e = choose|e: Coord| libs.contains(e);
        assert(cur.color_at(e) == settled(g, p, color, e));
    }
}

/// A settled grid whose chains are counted, and on which the chain of the new
/// stone has a liberty, is sound.
pub proof fn lemma_settled_sound(cur: Goban, g: Goban, p: Coord, color: Color)
    requires
        g.sound(),
        p.inside(g.size),
        g.color_at(p) == Color::Empty,
        color != Color::Empty,
        cur.settled_from(g, p, color),
        cur.tallied(),
        cur.libs_at(p) != 0,
    ensures
        cur.sound(),
{
    let own = merged(g, p, color);
    assert forall|a: Coord, b: Coord|
        #![trigger cur.group_at(a), cur.group_at(b)]
        a.inside(cur.size) && b.inside(cur.size) && adjacent(a, b) && cur.color_at(a)
            != Color::Empty && cur.color_at(a) == cur.color_at(b) implies cur.group_at(a)
        == cur.group_at(b) by {
        lemma_settled_pair(cur, g, p, color, a, b);
    }
    assert forall|c: Coord|
        c.inside(cur.size) && cur.color_at(c) != Color::Empty implies connected(
        #[trigger] cur.group_at(c),
    ) by {}
    assert forall|i: int| 1 <= i < cur.chains@.len() implies cur.chains@[i].libs > 0 by {
        crate::rules::lemma_first_stone(cur, i);
        let c = cur.chains@[i]@[0];
        if own.contains(c) {
            lemma_same_group(cur, c, p);
        } else {
            lemma_breathes(cur, g, p, color, c);
            let libs = cur.liberties(cur.chains@[i]@.to_set());
            vstd::set_lib::lemma_set_empty_equivalency_len(libs);
        }
    }
}

/// On a settled grid two adjacent stones of one colour are in one chain.
pub proof fn lemma_settled_pair(cur: Goban, g: Goban, p: Coord, color: Color, a: Coord, b: Coord)
    requires
        g.sound(),
        p.inside(g.size),
        g.color_at(p) == Color::Empty,
        color != Color::Empty,
        cur.settled_from(g, p, color),
        a.inside(g.size),
        b.inside(g.size),
        adjacent(a, b),
        cur.color_at(a) != Color::Empty,
        cur.color_at(a) == cur.color_at(b),
    ensures
        cur.group_at(a) == cur.group_at(b),
{
    if a == p {
        lemma_chain_of(g, b);
    } else if b == p {
        lemma_chain_of(g, a);
    }
}

/// On a settled grid a chain other than that of the new stone keeps a liberty.
pub proof fn lemma_breathes(cur: Goban, g: Goban, p: Coord, color: Color, c: Coord)
    requires
        g.sound(),
        p.inside(g.size),
        g.color_at(p) == Color::Empty,
        color != Color::Empty,
        cur.settled_from(g, p, color),
        c.inside(g.size),
        cur.color_at(c) != Color::Empty,
        !merged(g, p, color).contains(c),
    ensures
        exists|e: Coord| cur.liberties(cur.group_at(c)).contains(e),
{
    let group = g.group_at(c);
    let libs = g.liberties(group);
    assert(cur.group_at(c) == group);
    crate::rules::lemma_libs_at(g, c);
    vstd::set_lib::lemma_set_empty_equivalency_len(libs);
    let first = choose|e: Coord| libs.contains(e);
    let e = if first != p {
        first
    } else {
        // `p` is a liberty of the chain: the chain is not of the stone's
        // colour, or it would be joined; and it is not taken, so it has
        // another liberty.
        if forall|x: Coord| libs.contains(x) ==> x == p {
            assert(libs =~= set![p]);
        }
        choose|x: Coord| libs.contains(x) && x != p
    };
    assert(cur.color_at(e) == settled(g, p, color, e));
    assert(cur.liberties(group).contains(e));
}

/// Taking the chain of a suicide stone off a settled grid leaves the grid as
/// it was before the stone, without the chains that the stone had joined.
pub proof fn lemma_suicide_cleared(cur: Goban, next: Goban, g: Goban, p: Coord, color: Color)
    requires
        g.sound(),
        p.inside(g.size),
        g.color_at(p) == Color::Empty,
        color != Color::Empty,
        cur.settled_from(g, p, color),
        suicide(g, p, color),
        next.linked(),
        next.size == cur.size,
        forall|c: Coord|
            #![trigger next.color_at(c)]
            #![trigger next.group_at(c)]
            c.inside(cur.size) ==> if cur.id_at(c) == cur.id_at(p) {
                next.color_at(c) == Color::Empty
            } else {
                &&& next.color_at(c) == cur.color_at(c)
                &&& next.group_at(c) == cur.group_at(c)
            },
    ensures
        next.cleared_from(g, merged(g, p, color)),
{
    let own = merged(g, p, color);
    lemma_chain_of(cur, p);
    assert forall|q: Coord| q.inside(g.size) implies (cur.id_at(q) == cur.id_at(p)
        <==> own.contains(q)) by {
        assert(cur.point_ok(q));
        if own.contains(q) {
            lemma_same_group(cur, q, p);
        }
        if cur.id_at(q) == cur.id_at(p) {
            lemma_chain_of(cur, q);
        }
    }
    assert forall|q: Coord| q.inside(g.size) implies #[trigger] next.color_at(q) == if own.contains(
        q,
    ) {
        Color::Empty
    } else {
        g.color_at(q)
    } by {}
    assert forall|x: Coord|
        x.inside(g.size) && next.color_at(x) != Color::Empty implies #[trigger] next.group_at(x)
        == g.group_at(x) by {}
}

/// A sound grid from which the chains around a suicide stone were taken, and
/// whose chains are counted anew, is sound.
pub proof fn lemma_cleared_sound(cur: Goban, g: Goban, p: Coord, color: Color)
    requires
        g.sound(),
        p.inside(g.size),
        g.color_at(p) == Color::Empty,
        color != Color::Empty,
        cur.cleared_from(g, merged(g, p, color)),
        cur.tallied(),
    ensures
        cur.sound(),
{
    assert forall|a: Coord, b: Coord|
        #![trigger cur.group_at(a), cur.group_at(b)]
        a.inside(cur.size) && b.inside(cur.size) && adjacent(a, b) && cur.color_at(a)
            != Color::Empty && cur.color_at(a) == cur.color_at(b) implies cur.group_at(a)
        == cur.group_at(b) by {}
    assert forall|c: Coord|
        c.inside(cur.size) && cur.color_at(c) != Color::Empty implies connected(
        #[trigger] cur.group_at(c),
    ) by {}
    assert forall|i: int| 1 <= i < cur.chains@.len() implies cur.chains@[i].libs > 0 by {
        crate::rules::lemma_first_stone(cur, i);
        let c = cur.chains@[i]@[0];
        let group = g.group_at(c);
        let before = g.liberties(group);
        crate::rules::lemma_libs_at(g, c);
        vstd::set_lib::lemma_set_empty_equivalency_len(before);
        let e = choose|e: Coord| before.contains(e);
        assert(cur.color_at(e) == Color::Empty);
        let libs = cur.liberties(cur.chains@[i]@.to_set());
        assert(libs.contains(e));
        vstd::set_lib::lemma_set_empty_equivalency_len(libs);
    }
}

/// The step of `merge_around` that joins the chain of a neighbour.
pub proof fn lemma_merge_joined(cur: Goban, next: Goban, g: Goban, p: Coord, color: Color, t: nat)
    requires
        g.linked(),
        g.grouped(),
        p.inside(g.size),
        g.color_at(p) == Color::Empty,
        color != Color::Empty,
        t < p.spec_neighbours(g.size).len(),
        cur.merged_from(g, p, color, t),
        g.color_at(p.spec_neighbours(g.size)[t as int]) == color,
        cur.id_at(p.spec_neighbours(g.size)[t as int]) != cur.id_at(p),
        next.linked(),
        next.size == cur.size,
        next.colors == cur.colors,
        forall|c: Coord|
            #![trigger next.group_at(c)]
            #![trigger next.libs_at(c)]
            c.inside(cur.size) ==> if cur.id_at(c) == cur.id_at(p.spec_neighbours(g.size)[t as int])
                || cur.id_at(c) == cur.id_at(p) {
                next.group_at(c) == cur.group_at(p).union(
                    cur.group_at(p.spec_neighbours(g.size)[t as int]),
                )
            } else {
                &&& next.group_at(c) == cur.group_at(c)
                &&& next.libs_at(c) == cur.libs_at(c)
            },
    ensures
        next.merged_from(g, p, color, t + 1),
{
    let ns = p.spec_neighbours(g.size);
    let n = ns[t as int];
    let before = merged_upto(g, p, color, t);
    let after = merged_upto(g, p, color, t + 1);
    lemma_neighbours(p, g.size);
    assert(before.contains(p)) by {
        lemma_merged_upto(g, p, color, t, p);
    }
    lemma_chain_of(cur, p);
    lemma_chain_of(cur, n);
    lemma_chain_of(g, n);
    // The neighbour is not yet in the new chain: its chain is as it was.
    if before.contains(n) {
        lemma_same_group(cur, n, p);
    }
    assert forall|x: Coord|
        #![trigger next.group_at(x)]
        #![trigger next.libs_at(x)]
        x.inside(g.size) implies if after.contains(x) {
        next.group_at(x) == after
    } else {
        &&& next.group_at(x) == g.group_at(x)
        &&& next.libs_at(x) == g.libs_at(x)
    } by {
        if before.contains(x) {
            lemma_member(cur, p, x);
        } else if g.group_at(n).contains(x) {
            lemma_member(cur, n, x);
        } else {
            if cur.id_at(x) == cur.id_at(n) || cur.id_at(x) == cur.id_at(p) {
                // A point with the identifier of a chain is one of its stones.
                assert(cur.point_ok(x));
            }
        }
    }
    assert(connected(after)) by {
        lemma_connected_union(before, g.group_at(n), p, n);
    }
    assert forall|q: Coord| q.inside(g.size) implies #[trigger] next.color_at(q) == if q == p {
        color
    } else {
        g.color_at(q)
    } by {
        assert(next.color_at(q) == cur.color_at(q));
    }
}

/// The step of `merge_around` at a neighbour that is in the new chain already.
pub proof fn lemma_merge_same(cur: Goban, g: Goban, p: Coord, color: Color, t: nat)
    requires
        g.linked(),
        p.inside(g.size),
        g.color_at(p) == Color::Empty,
        color != Color::Empty,
        t < p.spec_neighbours(g.size).len(),
        cur.merged_from(g, p, color, t),
        g.color_at(p.spec_neighbours(g.size)[t as int]) == color,
        cur.id_at(p.spec_neighbours(g.size)[t as int]) == cur.id_at(p),
    ensures
        cur.merged_from(g, p, color, t + 1),
{
    let ns = p.spec_neighbours(g.size);
    let n = ns[t as int];
    let before = merged_upto(g, p, color, t);
    let after = merged_upto(g, p, color, t + 1);
    lemma_neighbours(p, g.size);
    assert(before.contains(p)) by {
        lemma_merged_upto(g, p, color, t, p);
    }
    assert(cur.group_at(p) == before);
    lemma_chain_of(cur, n);
    lemma_merged_closed(g, p, color, t, n);
    assert(after =~= before);
}

} // verus!
