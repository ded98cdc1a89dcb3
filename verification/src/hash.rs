//! Position hashing: one random number for each colour on each point,
//! combined with exclusive or, so that a stone is added to or taken out of a
//! hash in one step.

use vstd::prelude::*;
use crate::color::Color;
use crate::coord::{area, lemma_area_bound, Coord};
use crate::gomove::Move;
use crate::rng::{next_u64, thread_rng};

verus! {

/// The random numbers from which position hashes are made: a base value for
/// the empty board, then for each point one number for a black stone and one
/// for a white stone.
pub struct ZobristHashTable {
    size: u8,
    base: u64,
    table: Vec<u64>,
}

impl ZobristHashTable {
    /// The table has two numbers for each point of its board.
    pub closed spec fn wf(&self) -> bool {
        self.table@.len() == 2 * area(self.size)
    }

    pub closed spec fn spec_size(&self) -> u8 {
        self.size
    }

    /// The hash of the empty board.
    pub closed spec fn spec_init_hash(&self) -> u64 {
        self.base
    }

    /// What a point in a given state contributes to the hash: the number of
    /// its stone, and nothing when it is empty.
    pub closed spec fn entry(&self, color: Color, index: int) -> u64 {
        match color {
            Color::Black => self.table@[2 * index],
            Color::White => self.table@[2 * index + 1],
            Color::Empty => 0,
        }
    }

    /// The hash of the first `n` points of a grid laid out row after row.
    pub open spec fn prefix_hash(&self, colors: Seq<Color>, n: nat) -> u64
        decreases n,
    {
        if n == 0 {
            self.spec_init_hash()
        } else {
            self.prefix_hash(colors, (n - 1) as nat) ^ self.entry(colors[n - 1], n - 1)
        }
    }

    /// The hash of a whole grid: the base value combined with the number of
    /// every stone on it.
    pub open spec fn position_hash(&self, colors: Seq<Color>) -> u64 {
        self.prefix_hash(colors, colors.len())
    }

    /// A fresh table of random numbers for a board of the given size.
    pub fn new(size: u8) -> (t: ZobristHashTable)
        ensures
            t.wf(),
            t.spec_size() == size,
    {
        let mut rng = thread_rng();
        let base: u64 = next_u64(&mut rng);
        let n: usize = size as usize;
        assert(2 * (n * n) <= 2 * 255 * 255 && n * n == area(size)) by (nonlinear_arith)
            requires
                n == size,
                size <= 255,
        ;
        let total: usize = 2 * (n * n);
        let mut table: Vec<u64> = Vec::new();
        let mut i: usize = 0;
        while i < total
            invariant
                i <= total,
                table@.len() == i,
            decreases total - i,
        {
            let x: u64 = next_u64(&mut rng);
            table.push(x);
            i += 1;
        }
        ZobristHashTable { size, base, table }
    }

    pub fn size(&self) -> (s: u8)
        ensures
            s == self.spec_size(),
    {
        self.size
    }

    pub fn init_hash(&self) -> (h: u64)
        ensures
            h == self.spec_init_hash(),
    {
        self.base
    }

    fn get_hash_for(&self, color: Color, coord: Coord) -> (h: u64)
        requires
            self.wf(),
            coord.inside(self.spec_size()),
        ensures
            h == self.entry(color, coord.index(self.spec_size())),
    {
        let k: usize = coord.to_index(self.size);
        proof {
            lemma_area_bound(self.size);
        }
        match color {
            Color::Black => self.table[2 * k],
            Color::White => self.table[2 * k + 1],
            Color::Empty => 0,
        }
    }

    /// The hash of the position that has one stone more: that of the move.
    pub fn add_stone_to_hash(&self, hash: u64, m: &Move) -> (h: u64)
        requires
            self.wf(),
            *m is Play,
            m.spec_coords().inside(self.spec_size()),
        ensures
            h == hash ^ self.entry(m.spec_color(), m.spec_coords().index(self.spec_size())),
    {
        hash ^ self.get_hash_for(*m.color(), m.coords())
    }

    /// The hash of the position that has one stone less: that of the move.
    pub fn remove_stone_from_hash(&self, hash: u64, m: &Move) -> (h: u64)
        requires
            self.wf(),
            *m is Play,
            m.spec_coords().inside(self.spec_size()),
        ensures
            h == hash ^ self.entry(m.spec_color(), m.spec_coords().index(self.spec_size())),
    {
        hash ^ self.get_hash_for(*m.color(), m.coords())
    }

    /// An empty point contributes nothing.
    pub proof fn lemma_entry_empty(&self, index: int)
        ensures
            self.entry(Color::Empty, index) == 0,
    {
    }

    /// The hash of a grid of empty points is the base value.
    pub proof fn lemma_empty_grid(&self, colors: Seq<Color>, n: nat)
        requires
            n <= colors.len(),
            forall|i: int| 0 <= i < colors.len() ==> colors[i] == Color::Empty,
        ensures
            self.prefix_hash(colors, n) == self.spec_init_hash(),
        decreases n,
    {
        if n > 0 {
            self.lemma_empty_grid(colors, (n - 1) as nat);
            let h = self.prefix_hash(colors, (n - 1) as nat);
            assert(h ^ 0u64 == h) by (bit_vector);
        }
    }

    /// The hash of a prefix depends on the points of the prefix only.
    pub proof fn lemma_prefix_agrees(&self, a: Seq<Color>, b: Seq<Color>, n: nat)
        requires
            n <= a.len(),
            n <= b.len(),
            forall|i: int| 0 <= i < n ==> a[i] == b[i],
        ensures
            self.prefix_hash(a, n) == self.prefix_hash(b, n),
        decreases n,
    {
        if n > 0 {
            self.lemma_prefix_agrees(a, b, (n - 1) as nat);
        }
    }

    /// Changing one point changes the hash by what the point contributed
    /// before and what it contributes after.
    pub proof fn lemma_update(&self, colors: Seq<Color>, k: int, c: Color, n: nat)
        requires
            0 <= k < colors.len(),
            n <= colors.len(),
        ensures
            self.prefix_hash(colors.update(k, c), n) == if k < n {
                self.prefix_hash(colors, n) ^ self.entry(colors[k], k) ^ self.entry(c, k)
            } else {
                self.prefix_hash(colors, n)
            },
        decreases n,
    {
        if n > 0 {
            self.lemma_update(colors, k, c, (n - 1) as nat);
            let before = self.prefix_hash(colors, (n - 1) as nat);
            let gone = self.entry(colors[k], k);
            let come = self.entry(c, k);
            if k == n - 1 {
                assert((before ^ gone) ^ gone ^ come == before ^ come) by (bit_vector);
            } else if k < n - 1 {
                let last = self.entry(colors[n - 1], n - 1);
                assert((before ^ gone ^ come) ^ last == (before ^ last) ^ gone ^ come)
                    by (bit_vector);
            }
        }
    }
}

} // verus!
