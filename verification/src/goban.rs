//! The grid of a board together with the chains on it, and the steps from
//! which a move is made: putting a stone down, joining two chains, taking a
//! chain off, counting liberties.

use vstd::prelude::*;
use crate::chain::Chain;
use crate::color::Color;
use crate::coord::{
    adjacent, area, lemma_area_bound, lemma_index_bounds, lemma_index_injective,
    Coord,
};
use crate::gomove::Move;
use crate::hash::ZobristHashTable;

verus! {

/// A set of points touches a point when one of its members is adjacent to it.
pub open spec fn touches(members: Set<Coord>, e: Coord) -> bool {
    exists|m: Coord| #[trigger] members.contains(m) && adjacent(m, e)
}

/// The empty points of a grid that a set of points touches.
pub open spec fn liberties_in(colors: Seq<Color>, size: u8, members: Set<Coord>) -> Set<Coord> {
    Set::new(
        |e: Coord| e.inside(size) && colors[e.index(size)] == Color::Empty && touches(members, e),
    )
}

/// The grid and its chains. Points are laid out row after row. Each point
/// holds its colour and the identifier of its chain, 0 for an empty point; the
/// chain with identifier `i` stands at place `i` of the registry, whose place 0
/// is kept by a chain without stones that stands for the empty points.
pub struct Goban {
    pub size: u8,
    pub colors: Vec<Color>,
    pub ids: Vec<usize>,
    pub chains: Vec<Chain>,
    pub hash: u64,
}

impl Goban {
    pub open spec fn color_at(&self, c: Coord) -> Color {
        self.colors@[c.index(self.size)]
    }

    pub open spec fn id_at(&self, c: Coord) -> usize {
        self.ids@[c.index(self.size)]
    }

    /// The stones of the chain that a point belongs to; no stones for an
    /// empty point.
    pub open spec fn group_at(&self, c: Coord) -> Set<Coord> {
        self.chains@[self.id_at(c) as int]@.to_set()
    }

    /// The number of liberties recorded for the chain of a point.
    pub open spec fn libs_at(&self, c: Coord) -> usize {
        self.chains@[self.id_at(c) as int].libs
    }

    /// The liberties of a set of stones on this grid.
    pub open spec fn liberties(&self, members: Set<Coord>) -> Set<Coord> {
        liberties_in(self.colors@, self.size, members)
    }

    pub open spec fn shaped(&self) -> bool {
        &&& self.colors@.len() == area(self.size)
        &&& self.ids@.len() == area(self.size)
        &&& self.chains@.len() >= 1
        &&& self.chains@[0]@.len() == 0
        &&& self.chains@[0].color == Color::Empty
        &&& self.chains@[0].id == 0
    }

    /// A point agrees with the registry: it is empty and has no chain, or it
    /// is a stone of the chain that it names.
    pub open spec fn point_ok(&self, c: Coord) -> bool {
        let id = self.id_at(c);
        &&& id < self.chains@.len()
        &&& id == 0 <==> self.color_at(c) == Color::Empty
        &&& id != 0 ==> self.chains@[id as int]@.contains(c)
    }

    /// A stone of a chain lies on the board, names the chain and has its colour.
    pub open spec fn stone_ok(&self, i: int, j: int) -> bool {
        let s = self.chains@[i]@[j];
        &&& s.inside(self.size)
        &&& self.id_at(s) == i
        &&& self.color_at(s) == self.chains@[i].color
    }

    pub open spec fn chain_ok(&self, i: int) -> bool {
        let ch = self.chains@[i];
        &&& ch.id == i
        &&& ch.color != Color::Empty
        &&& ch@.len() > 0
        &&& ch@.no_duplicates()
        &&& forall|j: int| 0 <= j < ch@.len() ==> #[trigger] self.stone_ok(i, j)
    }

    /// The grid and the registry agree: the chains are an exact partition of
    /// the stones.
    pub open spec fn linked(&self) -> bool {
        &&& self.shaped()
        &&& forall|c: Coord| c.inside(self.size) ==> #[trigger] self.point_ok(c)
        &&& forall|i: int| 1 <= i < self.chains@.len() ==> #[trigger] self.chain_ok(i)
    }

    /// As `linked`, but for the chain at place `k`, which no point names any
    /// more and whose record is about to leave the registry.
    pub open spec fn loose(&self, k: int) -> bool {
        &&& self.shaped()
        &&& 1 <= k < self.chains@.len()
        &&& forall|c: Coord| c.inside(self.size) ==> #[trigger] self.point_ok(c)
        &&& forall|c: Coord| c.inside(self.size) ==> #[trigger] self.id_at(c) != k
        &&& forall|i: int| 1 <= i < self.chains@.len() && i != k ==> #[trigger] self.chain_ok(i)
    }

    /// The hash is that of the grid.
    pub open spec fn hashed(&self, table: &ZobristHashTable) -> bool {
        &&& table.wf()
        &&& table.spec_size() == self.size
        &&& self.hash == table.position_hash(self.colors@)
    }

    /// Every chain records the number of its liberties.
    pub open spec fn tallied(&self) -> bool {
        forall|i: int|
            1 <= i < self.chains@.len() ==> {
                &&& self.liberties(#[trigger] self.chains@[i]@.to_set()).finite()
                &&& self.chains@[i].libs == self.liberties(self.chains@[i]@.to_set()).len()
            }
    }

    /// Every chain records the number of its liberties, and has one at least.
    pub open spec fn counted(&self) -> bool {
        forall|i: int|
            1 <= i < self.chains@.len() ==> {
                &&& self.liberties(#[trigger] self.chains@[i]@.to_set()).finite()
                &&& self.chains@[i].libs == self.liberties(self.chains@[i]@.to_set()).len()
                &&& self.chains@[i].libs > 0
            }
    }

    /// The empty grid of the given size.
    pub fn new(size: u8, table: &ZobristHashTable) -> (g: Goban)
        requires
            table.wf(),
            table.spec_size() == size,
        ensures
            g.size == size,
            g.linked(),
            g.hashed(table),
            g.hash == table.spec_init_hash(),
            g.chains@.len() == 1,
            forall|c: Coord| c.inside(size) ==> g.color_at(c) == Color::Empty,
    {
        let n: usize = size as usize;
        proof {
            lemma_area_bound(size);
        }
        assert(n * n == area(size)) by (nonlinear_arith)
            requires
                n == size,
        ;
        let total: usize = n * n;
        let mut colors: Vec<Color> = Vec::new();
        let mut ids: Vec<usize> = Vec::new();
        let mut i: usize = 0;
        while i < total
            invariant
                i <= total,
                colors@.len() == i,
                ids@.len() == i,
                forall|k: int| 0 <= k < i ==> colors@[k] == Color::Empty,
                forall|k: int| 0 <= k < i ==> ids@[k] == 0,
            decreases total - i,
        {
            colors.push(Color::Empty);
            ids.push(0);
            i += 1;
        }
        let mut chains: Vec<Chain> = Vec::new();
        chains.push(Chain::new(0, Color::Empty));
        let g = Goban { size, colors, ids, chains, hash: table.init_hash() };
        proof {
            table.lemma_empty_grid(g.colors@, g.colors@.len());
            assert forall|c: Coord| c.inside(size) implies #[trigger] g.point_ok(c) by {
                lemma_index_bounds(c, size);
            }
            assert forall|c: Coord| c.inside(size) implies g.color_at(c) == Color::Empty by {
                lemma_index_bounds(c, size);
            }
        }
        g
    }

    /// The colour of a point of the board.
    pub fn color(&self, c: Coord) -> (color: Color)
        requires
            self.shaped(),
            c.inside(self.size),
        ensures
            color == self.color_at(c),
    {
        self.colors[c.to_index(self.size)]
    }

    /// The identifier of the chain of a point of the board, 0 for an empty point.
    pub fn id(&self, c: Coord) -> (id: usize)
        requires
            self.shaped(),
            c.inside(self.size),
        ensures
            id == self.id_at(c),
    {
        self.ids[c.to_index(self.size)]
    }

    /// Puts a stone on an empty point, as a chain of its own at the end of
    /// the registry.
    pub(crate) fn place(&mut self, p: Coord, color: Color, table: &ZobristHashTable)
        requires
            old(self).linked(),
            old(self).hashed(table),
            p.inside(old(self).size),
            old(self).color_at(p) == Color::Empty,
            color != Color::Empty,
        ensures
            final(self).linked(),
            final(self).hashed(table),
            final(self).size == old(self).size,
            final(self).colors@ == old(self).colors@.update(p.index(old(self).size), color),
            final(self).ids@ == old(self).ids@.update(
                p.index(old(self).size),
                old(self).chains@.len() as usize,
            ),
            final(self).chains@.len() == old(self).chains@.len() + 1,
            forall|i: int|
                0 <= i < old(self).chains@.len() ==> final(self).chains@[i] == old(self).chains@[i],
            final(self).chains@.last()@ == seq![p],
            final(self).chains@.last().color == color,
            final(self).color_at(p) == color,
            final(self).group_at(p) == set![p],
            forall|c: Coord|
                #![trigger final(self).color_at(c)]
                #![trigger final(self).id_at(c)]
                #![trigger final(self).group_at(c)]
                #![trigger final(self).libs_at(c)]
                c.inside(old(self).size) && c != p ==> {
                    &&& final(self).color_at(c) == old(self).color_at(c)
                    &&& final(self).id_at(c) == old(self).id_at(c)
                    &&& final(self).group_at(c) == old(self).group_at(c)
                    &&& final(self).libs_at(c) == old(self).libs_at(c)
                },
    {
        let k: usize = p.to_index(self.size);
        let id: usize = self.chains.len();
        let mut chain = Chain::new(id, color);
        chain.add_stone(p);
        self.chains.push(chain);
        self.colors[k] = color;
        self.ids[k] = id;
        self.hash = table.add_stone_to_hash(self.hash, &Move::Play(color, p.col, p.row));
        proof {
            let size = self.size;
            table.lemma_update(old(self).colors@, k as int, color, old(self).colors@.len());
            table.lemma_entry_empty(k as int);
            let h = old(self).hash;
            let e = table.entry(color, k as int);
            assert(h ^ 0u64 ^ e == h ^ e) by (bit_vector);
            assert(seq![p].to_set() =~= set![p]) by {
                assert(seq![p][0] == p);
            }
            assert forall|c: Coord|
                #![trigger self.color_at(c)]
                #![trigger self.id_at(c)]
                #![trigger self.group_at(c)]
                #![trigger self.libs_at(c)]
                #![trigger self.point_ok(c)]
                c.inside(size) && c != p implies {
                &&& self.color_at(c) == old(self).color_at(c)
                &&& self.id_at(c) == old(self).id_at(c)
                &&& self.group_at(c) == old(self).group_at(c)
                &&& self.libs_at(c) == old(self).libs_at(c)
                &&& self.point_ok(c)
            } by {
                if c.index(size) == p.index(size) {
                    lemma_index_injective(c, p, size);
                }
                lemma_index_bounds(c, size);
                assert(old(self).point_ok(c));
            }
            assert(self.point_ok(p)) by {
                assert(self.chains@[id as int]@[0] == p);
            }
            assert forall|i: int| 1 <= i < self.chains@.len() implies #[trigger] self.chain_ok(
                i,
            ) by {
                if i < id {
                    assert(old(self).chain_ok(i));
                    assert forall|j: int| 0 <= j < self.chains@[i]@.len() implies #[trigger] self.stone_ok(
                        i,
                        j,
                    ) by {
                        assert(old(self).stone_ok(i, j));
                        let s = self.chains@[i]@[j];
                        lemma_index_bounds(s, size);
                        if s.index(size) == p.index(size) {
                            lemma_index_injective(s, p, size);
                        }
                    }
                }
            }
        }
    }

    /// Writes another chain identifier on a point.
    fn relabel(&mut self, c: Coord, id: usize)
        requires
            old(self).shaped(),
            c.inside(old(self).size),
        ensures
            final(self).size == old(self).size,
            final(self).colors == old(self).colors,
            final(self).chains == old(self).chains,
            final(self).hash == old(self).hash,
            final(self).ids@.len() == old(self).ids@.len(),
            final(self).id_at(c) == id,
            forall|x: Coord|
                #![trigger final(self).id_at(x)]
                x.inside(old(self).size) && x != c ==> final(self).id_at(x) == old(self).id_at(x),
    {
        let k: usize = c.to_index(self.size);
        self.ids[k] = id;
        proof {
            let size = self.size;
            assert forall|x: Coord|
                #![trigger self.id_at(x)]
                x.inside(size) && x != c implies self.id_at(x) == old(self).id_at(x) by {
                lemma_index_bounds(x, size);
                if x.index(size) == c.index(size) {
                    lemma_index_injective(x, c, size);
                }
            }
        }
    }

    /// Takes the stone off a point and its number out of the hash.
    fn clear(&mut self, c: Coord, table: &ZobristHashTable)
        requires
            old(self).shaped(),
            old(self).hashed(table),
            c.inside(old(self).size),
        ensures
            final(self).size == old(self).size,
            final(self).chains == old(self).chains,
            final(self).shaped(),
            final(self).hashed(table),
            final(self).id_at(c) == 0,
            final(self).color_at(c) == Color::Empty,
            forall|x: Coord|
                #![trigger final(self).id_at(x)]
                #![trigger final(self).color_at(x)]
                x.inside(old(self).size) && x != c ==> {
                    &&& final(self).id_at(x) == old(self).id_at(x)
                    &&& final(self).color_at(x) == old(self).color_at(x)
                },
    {
        let k: usize = c.to_index(self.size);
        let was: Color = self.colors[k];
        match was {
            Color::Empty => {},
            _ => {
                self.hash = table.remove_stone_from_hash(self.hash, &Move::Play(was, c.col, c.row));
            },
        }
        self.colors[k] = Color::Empty;
        self.ids[k] = 0;
        proof {
            let size = self.size;
            table.lemma_update(old(self).colors@, k as int, Color::Empty, old(self).colors@.len());
            table.lemma_entry_empty(k as int);
            let h = old(self).hash;
            let e = table.entry(was, k as int);
            assert(h ^ e ^ 0u64 == h ^ e) by (bit_vector);
            assert(h ^ 0u64 ^ 0u64 == h) by (bit_vector);
            assert forall|x: Coord|
                #![trigger self.id_at(x)]
                #![trigger self.color_at(x)]
                x.inside(size) && x != c implies {
                &&& self.id_at(x) == old(self).id_at(x)
                &&& self.color_at(x) == old(self).color_at(x)
            } by {
                lemma_index_bounds(x, size);
                if x.index(size) == c.index(size) {
                    lemma_index_injective(x, c, size);
                }
            }
        }
    }

    /// Takes the record at place `k`, which no point names, out of the
    /// registry. The last record moves into its place, and the stones of that
    /// chain are given their new identifier.
    pub(crate) fn drop_record(&mut self, k: usize)
        requires
            old(self).loose(k as int),
        ensures
            final(self).linked(),
            final(self).size == old(self).size,
            final(self).colors == old(self).colors,
            final(self).hash == old(self).hash,
            final(self).chains@.len() == old(self).chains@.len() - 1,
            forall|c: Coord|
                #![trigger final(self).group_at(c)]
                #![trigger final(self).libs_at(c)]
                c.inside(old(self).size) ==> {
                    &&& final(self).group_at(c) == old(self).group_at(c)
                    &&& final(self).libs_at(c) == old(self).libs_at(c)
                },
    {
        let last: usize = self.chains.len() - 1;
        let ghost size = self.size;
        if k != last {
            let n: usize = self.chains[last].coords.len();
            let ghost stones = self.chains@[last as int]@;
            assert(self.chain_ok(last as int));
            assert forall|t: int| 0 <= t < n implies self.id_at(#[trigger] stones[t]) == last by {
                assert(self.stone_ok(last as int, t));
            }
            let mut j: usize = 0;
            while j < n
                invariant
                    j <= n,
                    n == stones.len(),
                    1 <= k < last,
                    last == old(self).chains@.len() - 1,
                    size == old(self).size,
                    stones == old(self).chains@[last as int]@,
                    old(self).loose(k as int),
                    old(self).chain_ok(last as int),
                    self.shaped(),
                    self.size == old(self).size,
                    self.colors == old(self).colors,
                    self.chains == old(self).chains,
                    self.hash == old(self).hash,
                    forall|t: int| 0 <= t < j ==> self.id_at(#[trigger] stones[t]) == k,
                    forall|t: int| j <= t < n ==> self.id_at(#[trigger] stones[t]) == last,
                    forall|c: Coord|
                        #![trigger self.id_at(c)]
                        c.inside(size) && old(self).id_at(c) != last ==> self.id_at(c) == old(
                            self,
                        ).id_at(c),
                decreases n - j,
            {
                let s: Coord = self.chains[last].coords[j];
                assert(old(self).stone_ok(last as int, j as int));
                self.relabel(s, k);
                proof {
                    assert forall|t: int| 0 <= t < j + 1 implies self.id_at(#[trigger] stones[t])
                        == k by {
                        assert(old(self).stone_ok(last as int, t));
                    }
                    assert forall|t: int| j + 1 <= t < n implies self.id_at(#[trigger] stones[t])
                        == last by {
                        assert(old(self).stone_ok(last as int, t));
                    }
                }
                j += 1;
            }
            let ghost mid = *self;
            let popped = self.chains.pop();
            let mut moved = popped.unwrap();
            moved.id = k;
            self.chains[k] = moved;
            proof {
                assert forall|c: Coord|
                    #![trigger self.point_ok(c)]
                    #![trigger self.group_at(c)]
                    #![trigger self.libs_at(c)]
                    c.inside(size) implies {
                    &&& self.point_ok(c)
                    &&& self.group_at(c) == old(self).group_at(c)
                    &&& self.libs_at(c) == old(self).libs_at(c)
                } by {
                    assert(old(self).point_ok(c));
                    if old(self).id_at(c) == last {
                        let t = choose|t: int| 0 <= t < stones.len() && stones[t] == c;
                    } else {
                        assert(mid.id_at(c) == old(self).id_at(c));
                    }
                }
                assert forall|i: int| 1 <= i < self.chains@.len() implies #[trigger] self.chain_ok(
                    i,
                ) by {
                    if i == k {
                        assert forall|t: int| 0 <= t < self.chains@[i]@.len() implies #[trigger] self.stone_ok(
                            i,
                            t,
                        ) by {
                            assert(old(self).stone_ok(last as int, t));
                        }
                    } else {
                        assert(old(self).chain_ok(i));
                        assert forall|t: int| 0 <= t < self.chains@[i]@.len() implies #[trigger] self.stone_ok(
                            i,
                            t,
                        ) by {
                            assert(old(self).stone_ok(i, t));
                            let s = old(self).chains@[i]@[t];
                            assert(mid.id_at(s) == old(self).id_at(s));
                        }
                    }
                }
            }
        } else {
            let popped = self.chains.pop();
            proof {
                assert forall|c: Coord|
                    #![trigger self.point_ok(c)]
                    #![trigger self.group_at(c)]
                    #![trigger self.libs_at(c)]
                    c.inside(size) implies {
                    &&& self.point_ok(c)
                    &&& self.group_at(c) == old(self).group_at(c)
                    &&& self.libs_at(c) == old(self).libs_at(c)
                } by {
                    assert(old(self).point_ok(c));
                }
                assert forall|i: int| 1 <= i < self.chains@.len() implies #[trigger] self.chain_ok(
                    i,
                ) by {
                    assert(old(self).chain_ok(i));
                    assert forall|t: int| 0 <= t < self.chains@[i]@.len() implies #[trigger] self.stone_ok(
                        i,
                        t,
                    ) by {
                        assert(old(self).stone_ok(i, t));
                    }
                }
            }
        }
    }

    /// Joins the chain at place `from` to the chain at place `into`: its
    /// stones go to the end of that chain, and its record leaves the registry.
    pub(crate) fn join(&mut self, from: usize, into: usize)
        requires
            old(self).linked(),
            1 <= from < old(self).chains@.len(),
            1 <= into < old(self).chains@.len(),
            from != into,
            old(self).chains@[from as int].color == old(self).chains@[into as int].color,
        ensures
            final(self).linked(),
            final(self).size == old(self).size,
            final(self).colors == old(self).colors,
            final(self).hash == old(self).hash,
            final(self).chains@.len() == old(self).chains@.len() - 1,
            forall|c: Coord|
                #![trigger final(self).group_at(c)]
                #![trigger final(self).libs_at(c)]
                c.inside(old(self).size) ==> if old(self).id_at(c) == from || old(self).id_at(c)
                    == into {
                    final(self).group_at(c) == old(self).chains@[into as int]@.to_set().union(
                        old(self).chains@[from as int]@.to_set(),
                    )
                } else {
                    &&& final(self).group_at(c) == old(self).group_at(c)
                    &&& final(self).libs_at(c) == old(self).libs_at(c)
                },
    {
        let ghost size = self.size;
        let ghost stones = self.chains@[from as int]@;
        let ghost host = self.chains@[into as int]@;
        let n: usize = self.chains[from].coords.len();
        proof {
            assert(self.chain_ok(from as int));
            assert forall|t: int| 0 <= t < n implies self.id_at(#[trigger] stones[t]) == from by {
                assert(self.stone_ok(from as int, t));
            }
        }
        let mut j: usize = 0;
        while j < n
            invariant
                j <= n,
                n == stones.len(),
                size == old(self).size,
                stones == old(self).chains@[from as int]@,
                host == old(self).chains@[into as int]@,
                1 <= from < old(self).chains@.len(),
                1 <= into < old(self).chains@.len(),
                from != into,
                old(self).linked(),
                self.shaped(),
                self.size == old(self).size,
                self.colors == old(self).colors,
                self.hash == old(self).hash,
                self.chains@.len() == old(self).chains@.len(),
                forall|i: int|
                    0 <= i < self.chains@.len() && i != into ==> self.chains@[i] == old(
                        self,
                    ).chains@[i],
                self.chains@[into as int]@ == host + stones.subrange(0, j as int),
                self.chains@[into as int].id == old(self).chains@[into as int].id,
                self.chains@[into as int].color == old(self).chains@[into as int].color,
                self.chains@[into as int].libs == old(self).chains@[into as int].libs,
                forall|t: int| 0 <= t < j ==> self.id_at(#[trigger] stones[t]) == into,
                forall|t: int| j <= t < n ==> self.id_at(#[trigger] stones[t]) == from,
                forall|c: Coord|
                    #![trigger self.id_at(c)]
                    c.inside(size) && old(self).id_at(c) != from ==> self.id_at(c) == old(
                        self,
                    ).id_at(c),
            decreases n - j,
        {
            let s: Coord = self.chains[from].coords[j];
            let ghost before = *self;
            assert(old(self).chain_ok(from as int));
            assert(old(self).stone_ok(from as int, j as int));
            self.relabel(s, into);
            let ghost named = *self;
            self.chains[into].coords.push(s);
            proof {
                assert forall|t: int| 0 <= t < j + 1 implies self.id_at(#[trigger] stones[t])
                    == into by {
                    assert(old(self).stone_ok(from as int, t));
                    assert(named.id_at(stones[t]) == into);
                }
                assert forall|t: int| j + 1 <= t < n implies self.id_at(#[trigger] stones[t])
                    == from by {
                    assert(old(self).stone_ok(from as int, t));
                    assert(named.id_at(stones[t]) == from);
                }
                assert forall|c: Coord|
                    #![trigger self.id_at(c)]
                    c.inside(size) && old(self).id_at(c) != from implies self.id_at(c) == old(
                    self,
                ).id_at(c) by {
                    assert(named.id_at(c) == before.id_at(c));
                }
            }
            j += 1;
        }
        proof {
            assert(stones.subrange(0, n as int) =~= stones);
            lemma_concat_to_set(host, stones);
            assert forall|c: Coord|
                #![trigger self.point_ok(c)]
                #![trigger self.id_at(c)]
                c.inside(self.size) implies self.point_ok(c) && self.id_at(c) != from by {
                assert(old(self).point_ok(c));
                if old(self).id_at(c) == from {
                    let t = choose|t: int| 0 <= t < stones.len() && stones[t] == c;
                    assert((host + stones)[host.len() + t] == c);
                } else if old(self).id_at(c) == into {
                    let t = choose|t: int| 0 <= t < host.len() && host[t] == c;
                    assert((host + stones)[t] == c);
                }
            }
            assert forall|i: int|
                1 <= i < self.chains@.len() && i != from implies #[trigger] self.chain_ok(i) by {
                assert(old(self).chain_ok(i));
                if i == into {
                    let all = host + stones;
                    assert forall|t: int| 0 <= t < all.len() implies #[trigger] self.stone_ok(
                        i,
                        t,
                    ) by {
                        if t < host.len() {
                            assert(old(self).stone_ok(into as int, t));
                        } else {
                            assert(old(self).stone_ok(from as int, t - host.len()));
                        }
                    }
                    assert forall|a: int, b: int|
                        0 <= a < all.len() && 0 <= b < all.len() && a != b implies all[a]
                        != all[b] by {
                        if a < host.len() {
                            assert(old(self).stone_ok(into as int, a));
                        }
                        if b < host.len() {
                            assert(old(self).stone_ok(into as int, b));
                        }
                    }
                } else {
                    assert forall|t: int| 0 <= t < self.chains@[i]@.len() implies #[trigger] self.stone_ok(
                        i,
                        t,
                    ) by {
                        assert(old(self).stone_ok(i, t));
                    }
                }
            }
        }
        self.drop_record(from);
        proof {
            assert forall|c: Coord|
                #![trigger self.group_at(c)]
                #![trigger self.libs_at(c)]
                c.inside(size) implies if old(self).id_at(c) == from || old(self).id_at(c)
                == into {
                self.group_at(c) == host.to_set().union(stones.to_set())
            } else {
                &&& self.group_at(c) == old(self).group_at(c)
                &&& self.libs_at(c) == old(self).libs_at(c)
            } by {
                assert(old(self).point_ok(c));
                if old(self).id_at(c) == from {
                }
            }
        }
    }

    /// Takes the chain at place `k` off the board: its points become empty,
    /// its stones leave the hash and its record leaves the registry. Returns
    /// the points that were emptied.
    pub(crate) fn capture(&mut self, k: usize, table: &ZobristHashTable) -> (removed: Vec<Coord>)
        requires
            old(self).linked(),
            old(self).hashed(table),
            1 <= k < old(self).chains@.len(),
        ensures
            final(self).linked(),
            final(self).hashed(table),
            final(self).size == old(self).size,
            final(self).chains@.len() == old(self).chains@.len() - 1,
            removed@ == old(self).chains@[k as int]@,
            forall|c: Coord|
                #![trigger final(self).color_at(c)]
                #![trigger final(self).group_at(c)]
                #![trigger final(self).libs_at(c)]
                c.inside(old(self).size) ==> if old(self).id_at(c) == k {
                    final(self).color_at(c) == Color::Empty
                } else {
                    &&& final(self).color_at(c) == old(self).color_at(c)
                    &&& final(self).group_at(c) == old(self).group_at(c)
                    &&& final(self).libs_at(c) == old(self).libs_at(c)
                },
    {
        let ghost size = self.size;
        let ghost stones = self.chains@[k as int]@;
        let removed: Vec<Coord> = self.chains[k].coords.clone();
        let n: usize = removed.len();
        proof {
            assert(self.chain_ok(k as int));
            assert forall|t: int| 0 <= t < n implies self.id_at(#[trigger] stones[t]) == k by {
                assert(self.stone_ok(k as int, t));
            }
        }
        let mut j: usize = 0;
        while j < n
            invariant
                j <= n,
                n == stones.len(),
                removed@ == stones,
                size == old(self).size,
                stones == old(self).chains@[k as int]@,
                1 <= k < old(self).chains@.len(),
                old(self).linked(),
                self.shaped(),
                self.hashed(table),
                self.size == old(self).size,
                self.chains == old(self).chains,
                forall|t: int|
                    0 <= t < j ==> self.id_at(#[trigger] stones[t]) == 0 && self.color_at(
                        stones[t],
                    ) == Color::Empty,
                forall|t: int| j <= t < n ==> self.id_at(#[trigger] stones[t]) == k,
                forall|c: Coord|
                    #![trigger self.id_at(c)]
                    #![trigger self.color_at(c)]
                    c.inside(size) && old(self).id_at(c) != k ==> self.id_at(c) == old(self).id_at(
                        c,
                    ) && self.color_at(c) == old(self).color_at(c),
            decreases n - j,
        {
            let s: Coord = removed[j];
            assert(old(self).chain_ok(k as int));
            assert(old(self).stone_ok(k as int, j as int));
            self.clear(s, table);
            proof {
                assert forall|t: int| 0 <= t < j + 1 implies self.id_at(#[trigger] stones[t]) == 0
                    && self.color_at(stones[t]) == Color::Empty by {
                    assert(old(self).stone_ok(k as int, t));
                }
                assert forall|t: int| j + 1 <= t < n implies self.id_at(#[trigger] stones[t])
                    == k by {
                    assert(old(self).stone_ok(k as int, t));
                }
            }
            j += 1;
        }
        let ghost mid = *self;
        proof {
            assert forall|c: Coord|
                #![trigger self.point_ok(c)]
                #![trigger self.id_at(c)]
                c.inside(size) implies self.point_ok(c) && self.id_at(c) != k by {
                assert(old(self).point_ok(c));
                if old(self).id_at(c) == k {
                    let t = choose|t: int| 0 <= t < stones.len() && stones[t] == c;
                }
            }
            assert forall|i: int|
                1 <= i < self.chains@.len() && i != k implies #[trigger] self.chain_ok(i) by {
                assert(old(self).chain_ok(i));
                assert forall|t: int| 0 <= t < self.chains@[i]@.len() implies #[trigger] self.stone_ok(
                    i,
                    t,
                ) by {
                    assert(old(self).stone_ok(i, t));
                }
            }
        }
        self.drop_record(k);
        proof {
            assert forall|c: Coord|
                #![trigger self.color_at(c)]
                #![trigger self.group_at(c)]
                #![trigger self.libs_at(c)]
                c.inside(size) implies if old(self).id_at(c) == k {
                self.color_at(c) == Color::Empty
            } else {
                &&& self.color_at(c) == old(self).color_at(c)
                &&& self.group_at(c) == old(self).group_at(c)
                &&& self.libs_at(c) == old(self).libs_at(c)
            } by {
                assert(self.group_at(c) == mid.group_at(c));
                assert(old(self).point_ok(c));
                if old(self).id_at(c) == k {
                }
            }
        }
        removed
    }

    /// Counts the liberties of the chain at place `i`. Every liberty found is
    /// marked with `i` in `marks`, which holds one mark for each point and
    /// must come with smaller marks only.
    pub(crate) fn count_liberties(&self, i: usize, marks: &mut Vec<usize>) -> (n: usize)
        requires
            self.linked(),
            1 <= i < self.chains@.len(),
            old(marks)@.len() == area(self.size),
            forall|k: int| 0 <= k < old(marks)@.len() ==> old(marks)@[k] < i,
        ensures
            final(marks)@.len() == area(self.size),
            forall|k: int| 0 <= k < final(marks)@.len() ==> final(marks)@[k] <= i,
            self.liberties(self.chains@[i as int]@.to_set()).finite(),
            n == self.liberties(self.chains@[i as int]@.to_set()).len(),
    {
        let ghost stones = self.chains@[i as int]@;
        let size: u8 = self.size;
        let len: usize = self.chains[i].coords.len();
        let mut n: usize = 0;
        let mut j: usize = 0;
        proof {
            assert(marked(marks@, size, i) =~= Set::<Coord>::empty()) by {
                assert forall|e: Coord| !marked(marks@, size, i).contains(e) by {
                    if e.inside(size) {
                        lemma_index_bounds(e, size);
                    }
                }
            }
        }
        while j < len
            invariant
                j <= len,
                len == stones.len(),
                size == self.size,
                stones == self.chains@[i as int]@,
                self.linked(),
                1 <= i < self.chains@.len(),
                marks@.len() == area(size),
                forall|k: int| 0 <= k < marks@.len() ==> marks@[k] <= i,
                marked(marks@, size, i).finite(),
                n == marked(marks@, size, i).len(),
                forall|e: Coord|
                    marked(marks@, size, i).contains(e) <==> e.inside(size) && self.color_at(e)
                        == Color::Empty && near(stones, j as int, e),
            decreases len - j,
        {
            let s: Coord = self.chains[i].coords[j];
            assert(self.chain_ok(i as int));
            assert(self.stone_ok(i as int, j as int));
            let ns: Vec<Coord> = s.neighbours(size);
            let mut t: usize = 0;
            while t < ns.len()
                invariant
                    t <= ns@.len(),
                    j < len,
                    len == stones.len(),
                    size == self.size,
                    s == stones[j as int],
                    s.inside(size),
                    self.linked(),
                    1 <= i < self.chains@.len(),
                    forall|c: Coord| ns@.contains(c) <==> c.inside(size) && adjacent(s, c),
                    marks@.len() == area(size),
                    forall|k: int| 0 <= k < marks@.len() ==> marks@[k] <= i,
                    marked(marks@, size, i).finite(),
                    n == marked(marks@, size, i).len(),
                    forall|e: Coord|
                        marked(marks@, size, i).contains(e) <==> e.inside(size) && self.color_at(e)
                            == Color::Empty && (near(stones, j as int, e) || ns@.subrange(
                            0,
                            t as int,
                        ).contains(e)),
                decreases ns@.len() - t,
            {
                let e: Coord = ns[t];
                let ghost before = marks@;
                let k: usize = e.to_index(size);
                let fresh: bool = match self.colors[k] {
                    Color::Empty => marks[k] != i,
                    _ => false,
                };
                if fresh {
                    marks[k] = i;
                    proof {
                        lemma_marked_insert(before, size, i, e);
                        lemma_coord_set_bound(marked(marks@, size, i));
                    }
                    n = n + 1;
                }
                proof {
                    let done = ns@.subrange(0, t as int);
                    let more = ns@.subrange(0, t + 1);
                    assert forall|x: Coord| more.contains(x) <==> done.contains(x) || x == e by {
                        if more.contains(x) {
                            let u = choose|u: int| 0 <= u < more.len() && more[u] == x;
                        }
                        if done.contains(x) {
                            let u = choose|u: int| 0 <= u < done.len() && done[u] == x;
                        }
                        assert(more[t as int] == e);
                    }
                }
                t += 1;
            }
            proof {
                assert(ns@.subrange(0, t as int) =~= ns@);
                assert forall|e: Coord| near(stones, j + 1, e) <==> near(stones, j as int, e)
                    || adjacent(s, e) by {
                    if near(stones, j + 1, e) {
                        let u = choose|u: int| 0 <= u < j + 1 && adjacent(#[trigger] stones[u], e);
                    }
                    if near(stones, j as int, e) {
                        let u = choose|u: int| 0 <= u < j && adjacent(#[trigger] stones[u], e);
                    }
                }
            }
            j += 1;
        }
        proof {
            let libs = self.liberties(stones.to_set());
            assert forall|e: Coord| touches(stones.to_set(), e) <==> near(
                stones,
                len as int,
                e,
            ) by {
                if touches(stones.to_set(), e) {
                    let m = choose|m: Coord| #[trigger]
                        stones.to_set().contains(m) && adjacent(m, e);
                    let u = choose|u: int| 0 <= u < stones.len() && stones[u] == m;
                }
                if near(stones, len as int, e) {
                    let u = choose|u: int| 0 <= u < len && adjacent(#[trigger] stones[u], e);
                    assert(stones.to_set().contains(stones[u]));
                }
            }
            assert(libs =~= marked(marks@, size, i));
        }
        n
    }

    /// Counts the liberties of every chain anew and records them.
    pub(crate) fn recount(&mut self)
        requires
            old(self).linked(),
        ensures
            final(self).linked(),
            final(self).size == old(self).size,
            final(self).colors == old(self).colors,
            final(self).ids == old(self).ids,
            final(self).hash == old(self).hash,
            final(self).chains@.len() == old(self).chains@.len(),
            forall|i: int|
                0 <= i < old(self).chains@.len() ==> {
                    &&& (#[trigger] final(self).chains@[i])@ == old(self).chains@[i]@
                    &&& final(self).chains@[i].id == old(self).chains@[i].id
                    &&& final(self).chains@[i].color == old(self).chains@[i].color
                },
            final(self).tallied(),
    {
        let n: usize = self.size as usize;
        proof {
            lemma_area_bound(self.size);
        }
        assert(n * n == area(self.size)) by (nonlinear_arith)
            requires
                n == self.size,
        ;
        let total: usize = n * n;
        let mut marks: Vec<usize> = Vec::new();
        let mut k: usize = 0;
        while k < total
            invariant
                k <= total,
                marks@.len() == k,
                forall|x: int| 0 <= x < k ==> marks@[x] == 0,
            decreases total - k,
        {
            marks.push(0);
            k += 1;
        }
        let count: usize = self.chains.len();
        let mut i: usize = 1;
        while i < count
            invariant
                1 <= i <= count,
                count == self.chains@.len(),
                old(self).linked(),
                self.linked(),
                self.size == old(self).size,
                self.colors == old(self).colors,
                self.ids == old(self).ids,
                self.hash == old(self).hash,
                self.chains@.len() == old(self).chains@.len(),
                marks@.len() == area(self.size),
                forall|x: int| 0 <= x < marks@.len() ==> marks@[x] < i,
                forall|x: int|
                    0 <= x < self.chains@.len() ==> {
                        &&& (#[trigger] self.chains@[x])@ == old(self).chains@[x]@
                        &&& self.chains@[x].id == old(self).chains@[x].id
                        &&& self.chains@[x].color == old(self).chains@[x].color
                    },
                forall|x: int|
                    1 <= x < i ==> {
                        &&& self.liberties(#[trigger] self.chains@[x]@.to_set()).finite()
                        &&& self.chains@[x].libs == self.liberties(self.chains@[x]@.to_set()).len()
                    },
            decreases count - i,
        {
            let libs: usize = self.count_liberties(i, &mut marks);
            let ghost before = *self;
            self.chains[i].libs = libs;
            proof {
                lemma_same_shape(before, *self);
            }
            i += 1;
        }
    }
}

impl Goban {
    /// The same position in another value: the same size, hash, colours and
    /// identifiers, and chain by chain the same stones and liberties.
    pub open spec fn twin(&self, other: Goban) -> bool {
        &&& self.size == other.size
        &&& self.hash == other.hash
        &&& self.colors@ == other.colors@
        &&& self.ids@ == other.ids@
        &&& self.chains@.len() == other.chains@.len()
        &&& forall|i: int|
            0 <= i < other.chains@.len() ==> {
                &&& (#[trigger] self.chains@[i])@ == other.chains@[i]@
                &&& self.chains@[i].id == other.chains@[i].id
                &&& self.chains@[i].color == other.chains@[i].color
                &&& self.chains@[i].libs == other.chains@[i].libs
            }
    }
}

impl Clone for Goban {
    fn clone(&self) -> (g: Goban)
        ensures
            g.twin(*self),
    {
        let g = Goban {
            size: self.size,
            colors: self.colors.clone(),
            ids: self.ids.clone(),
            chains: self.chains.clone(),
            hash: self.hash,
        };
        g
    }
}

/// The points that carry the mark `i`.
pub open spec fn marked(marks: Seq<usize>, size: u8, i: usize) -> Set<Coord> {
    Set::new(|e: Coord| e.inside(size) && marks[e.index(size)] == i)
}

/// One of the first `j` stones is adjacent to the point.
pub open spec fn near(stones: Seq<Coord>, j: int, e: Coord) -> bool {
    exists|u: int| 0 <= u < j && adjacent(#[trigger] stones[u], e)
}

/// Marking one more point adds it to the marked points, and to nothing else.
pub proof fn lemma_marked_insert(marks: Seq<usize>, size: u8, i: usize, e: Coord)
    requires
        e.inside(size),
        marks.len() == area(size),
        marked(marks, size, i).finite(),
        marks[e.index(size)] != i,
    ensures
        marked(marks.update(e.index(size), i), size, i) == marked(marks, size, i).insert(e),
        marked(marks.update(e.index(size), i), size, i).finite(),
        marked(marks.update(e.index(size), i), size, i).len() == marked(marks, size, i).len() + 1,
{
    let after = marks.update(e.index(size), i);
    lemma_index_bounds(e, size);
    assert forall|x: Coord| marked(after, size, i).contains(x) <==> marked(marks, size, i).insert(
        e,
    ).contains(x) by {
        if x.inside(size) {
            lemma_index_bounds(x, size);
            if x.index(size) == e.index(size) {
                lemma_index_injective(x, e, size);
            }
        }
    }
    assert(marked(after, size, i) =~= marked(marks, size, i).insert(e));
}

/// A finite set of points has no more members than there are pairs of bytes.
pub proof fn lemma_coord_set_bound(s: Set<Coord>)
    requires
        s.finite(),
    ensures
        s.len() <= 65536,
{
    let f = |c: Coord| c.col as int * 256 + c.row as int;
    let image = s.map(f);
    vstd::set_lib::lemma_map_size(s, image, f);
    vstd::set_lib::lemma_int_range(0, 65536);
    assert(image.subset_of(vstd::set_lib::set_int_range(0, 65536))) by {
        assert forall|y: int| image.contains(y) implies vstd::set_lib::set_int_range(
            0,
            65536,
        ).contains(y) by {}
    }
    vstd::set_lib::lemma_len_subset(image, vstd::set_lib::set_int_range(0, 65536));
}

/// Two grids with the same points and the same stones in each chain are
/// linked together, whatever liberties their chains record.
pub proof fn lemma_same_shape(a: Goban, b: Goban)
    requires
        a.linked(),
        b.size == a.size,
        b.colors@ == a.colors@,
        b.ids@ == a.ids@,
        b.chains@.len() == a.chains@.len(),
        forall|i: int|
            0 <= i < a.chains@.len() ==> {
                &&& (#[trigger] b.chains@[i])@ == a.chains@[i]@
                &&& b.chains@[i].id == a.chains@[i].id
                &&& b.chains@[i].color == a.chains@[i].color
            },
    ensures
        b.linked(),
{
    assert forall|c: Coord| c.inside(b.size) implies #[trigger] b.point_ok(c) by {
        assert(a.point_ok(c));
    }
    assert forall|i: int| 1 <= i < b.chains@.len() implies #[trigger] b.chain_ok(i) by {
        assert(a.chain_ok(i));
        assert forall|j: int| 0 <= j < b.chains@[i]@.len() implies #[trigger] b.stone_ok(i, j) by {
            assert(a.stone_ok(i, j));
        }
    }
}

/// The members of two sequences laid end to end are the members of the one
/// and those of the other.
pub proof fn lemma_concat_to_set(a: Seq<Coord>, b: Seq<Coord>)
    ensures
        (a + b).to_set() == a.to_set().union(b.to_set()),
{
    let ab = a + b;
    assert forall|x: Coord| ab.to_set().contains(x) <==> a.to_set().union(b.to_set()).contains(
        x,
    ) by {
        if ab.contains(x) {
            let i = choose|i: int| 0 <= i < ab.len() && ab[i] == x;
        }
        if a.contains(x) {
            let i = choose|i: int| 0 <= i < a.len() && a[i] == x;
            assert(ab[i] == x);
        }
        if b.contains(x) {
            let i = choose|i: int| 0 <= i < b.len() && b[i] == x;
            assert(ab[a.len() + i] == x);
        }
    }
}

} // verus!
