//! The board: a position with its rules, which answers a move with a new
//! board or with the rule that the move breaks.

use std::sync::Arc;
use vstd::prelude::*;
use crate::chain::Chain;
use crate::color::Color;
use crate::coord::{area, lemma_area_bound, lemma_at_index, lemma_index_bounds, Coord};
use crate::goban::Goban;
use crate::gomove::{IllegalMove, Move};
use crate::hash::ZobristHashTable;
use crate::goban::touches;
use crate::group::joined;
use crate::rules::{colored, doomed, merged, suicide};
use crate::ruleset::Ruleset;
use crate::score::{Komi, Score};
use crate::territory::points;
use crate::text::{decimal, pad_left, push_padded, push_word, to_string};

verus! {

/// A position of the game under a rule variant. A board is never changed by
/// a move: `play` hands out a new board and leaves this one as it is.
pub struct Board {
    goban: Goban,
    table: Arc<ZobristHashTable>,
    komi: Komi,
    ruleset: Ruleset,
    previous_player: Color,
    consecutive_passes: u8,
    adv_stones_removed: Vec<Coord>,
    friend_stones_removed: Vec<Coord>,
}

impl View for Board {
    type V = Goban;

    /// The grid of the board and the chains on it.
    closed spec fn view(&self) -> Goban {
        self.goban
    }
}

impl Clone for Board {
    fn clone(&self) -> (b: Board)
        ensures
            b.same_as(self),
    {
        let goban = self.goban.clone();
        let adv = self.adv_stones_removed.clone();
        let friend = self.friend_stones_removed.clone();
        proof {
            if self.goban.linked() {
                crate::rules::lemma_twin(goban, self.goban);
            }
        }
        Board {
            goban,
            table: self.table.clone(),
            komi: self.komi,
            ruleset: self.ruleset,
            previous_player: self.previous_player,
            consecutive_passes: self.consecutive_passes,
            adv_stones_removed: adv,
            friend_stones_removed: friend,
        }
    }
}

impl Board {
    /// The same board in another value.
    pub open spec fn same_as(&self, other: &Board) -> bool {
        &&& self@.twin(other@)
        &&& other.wf() ==> self.wf()
        &&& self.spec_komi() == other.spec_komi()
        &&& self.spec_ruleset() == other.spec_ruleset()
        &&& self.spec_table() == other.spec_table()
        &&& self.spec_previous_player() == other.spec_previous_player()
        &&& self.spec_passes() == other.spec_passes()
        &&& self.spec_adv_stones_removed() == other.spec_adv_stones_removed()
        &&& self.spec_friend_stones_removed() == other.spec_friend_stones_removed()
    }

    /// The board is consistent: its chains partition its stones, each chain is
    /// a maximal set of stones of one colour that hang together and records
    /// the number of its liberties, of which it has one at least, and the hash
    /// is that of the grid.
    pub closed spec fn wf(&self) -> bool {
        &&& self.goban.sound()
        &&& self.goban.hashed(&*self.table)
        &&& self.previous_player != Color::Empty
        &&& self.consecutive_passes <= 2
    }

    pub closed spec fn spec_komi(&self) -> Komi {
        self.komi
    }

    pub closed spec fn spec_ruleset(&self) -> Ruleset {
        self.ruleset
    }

    /// The table of random numbers that the hash is made from.
    pub closed spec fn spec_table(&self) -> ZobristHashTable {
        *self.table
    }

    pub closed spec fn spec_previous_player(&self) -> Color {
        self.previous_player
    }

    /// The number of passes that ended the moves played so far, counted up to 2.
    pub closed spec fn spec_passes(&self) -> u8 {
        self.consecutive_passes
    }

    pub closed spec fn spec_adv_stones_removed(&self) -> Seq<Coord> {
        self.adv_stones_removed@
    }

    pub closed spec fn spec_friend_stones_removed(&self) -> Seq<Coord> {
        self.friend_stones_removed@
    }

    pub open spec fn spec_size(&self) -> u8 {
        self@.size
    }

    pub open spec fn spec_next_player(&self) -> Color {
        self.spec_previous_player().opposite()
    }

    pub open spec fn spec_is_game_over(&self) -> bool {
        self.spec_passes() >= 2
    }

    /// The rule that a move breaks, if it breaks one.
    pub open spec fn spec_refusal(&self, m: Move) -> Option<IllegalMove> {
        match m {
            Move::Pass(_) => None,
            Move::Play(color, col, row) => {
                let p = Coord { col, row };
                if !p.inside(self@.size) {
                    Some(IllegalMove::PlayOutOfBoard)
                } else if self@.color_at(p) != Color::Empty {
                    Some(IllegalMove::IntersectionNotEmpty)
                } else if suicide(self@, p, color) && !self.spec_ruleset().suicide_allowed {
                    Some(IllegalMove::SuicidePlay)
                } else {
                    None
                }
            },
        }
    }

    /// The colour of a point after a move that breaks no rule.
    pub open spec fn spec_color_after(&self, m: Move, q: Coord) -> Color {
        match m {
            Move::Pass(_) => self@.color_at(q),
            Move::Play(color, col, row) => self@.color_after(Coord { col, row }, color, q),
        }
    }

    /// The grid after a move that breaks no rule, laid out row after row.
    pub open spec fn spec_grid_after(&self, m: Move) -> Seq<Color> {
        Seq::new(
            area(self@.size) as nat,
            |k: int| self.spec_color_after(m, Coord::at_index(k, self@.size)),
        )
    }

    /// The hash of the position after a move that breaks no rule.
    pub open spec fn spec_hash_after(&self, m: Move) -> u64 {
        self.spec_table().position_hash(self.spec_grid_after(m))
    }

    /// The opposing stones that a move takes.
    pub open spec fn spec_taken(&self, m: Move, q: Coord) -> bool {
        match m {
            Move::Pass(_) => false,
            Move::Play(color, col, row) => doomed(self@, Coord { col, row }, color, q),
        }
    }

    /// The stones of the player's own colour that leave the board with a move:
    /// the chain of the stone where the stone is a suicide.
    pub open spec fn spec_lost(&self, m: Move) -> Set<Coord> {
        match m {
            Move::Pass(_) => Set::empty(),
            Move::Play(color, col, row) => if suicide(self@, Coord { col, row }, color) {
                merged(self@, Coord { col, row }, color)
            } else {
                Set::empty()
            },
        }
    }

    /// What this board is after a move on the board `before`.
    pub open spec fn follows(&self, before: &Board, m: Move) -> bool {
        &&& self.wf()
        &&& self@.size == before@.size
        &&& self.spec_komi() == before.spec_komi()
        &&& self.spec_ruleset() == before.spec_ruleset()
        &&& self.spec_table() == before.spec_table()
        &&& self.spec_previous_player() == m.spec_color()
        &&& self.spec_passes() == if m is Pass {
            if before.spec_passes() < 2 {
                (before.spec_passes() + 1) as u8
            } else {
                2u8
            }
        } else {
            0u8
        }
        &&& forall|q: Coord|
            q.inside(before@.size) ==> #[trigger] self@.color_at(q) == before.spec_color_after(
                m,
                q,
            )
        &&& forall|q: Coord|
            self.spec_adv_stones_removed().contains(q) <==> before.spec_taken(m, q)
        &&& self.spec_friend_stones_removed().to_set() == before.spec_lost(m)
        &&& self@.colors@ == before.spec_grid_after(m)
        &&& self@.hash == before.spec_hash_after(m)
        &&& m is Pass ==> self@.colors@ == before@.colors@ && self@.hash == before@.hash
    }

    /// A board whose points have the colours that a move leaves has the grid
    /// that the move leaves.
    proof fn lemma_grid_after(&self, before: &Board, m: Move)
        requires
            self.wf(),
            self@.size == before@.size,
            self.spec_table() == before.spec_table(),
            forall|q: Coord|
                q.inside(before@.size) ==> #[trigger] self@.color_at(q) == before.spec_color_after(
                    m,
                    q,
                ),
        ensures
            self@.colors@ == before.spec_grid_after(m),
            self@.hash == before.spec_hash_after(m),
    {
        let size = self@.size;
        let after = before.spec_grid_after(m);
        assert forall|k: int| 0 <= k < area(size) implies self@.colors@[k] == after[k] by {
            lemma_at_index(k, size);
            let q = Coord::at_index(k, size);
            assert(self@.color_at(q) == before.spec_color_after(m, q));
        }
    }

    /// A consistent board is sound, and its hash is the hash of its grid under
    /// its table.
    pub proof fn lemma_wf(&self)
        requires
            self.wf(),
        ensures
            self@.sound(),
            self.spec_table().wf(),
            self.spec_table().spec_size() == self@.size,
            self@.hash == self.spec_table().position_hash(self@.colors@),
            self.spec_previous_player() != Color::Empty,
            self.spec_passes() <= 2,
    {
    }

    /// The empty board of the given size. The first to move is Black.
    pub fn new(size: u8, komi: Komi, ruleset: Ruleset) -> (b: Board)
        ensures
            b.wf(),
            b@.size == size,
            b.spec_komi() == komi,
            b.spec_ruleset() == ruleset,
            b@.chains@.len() == 1,
            forall|c: Coord| c.inside(size) ==> b@.color_at(c) == Color::Empty,
            b@.hash == b.spec_table().spec_init_hash(),
            b.spec_previous_player() == Color::White,
            b.spec_passes() == 0,
            b.spec_adv_stones_removed() == Seq::<Coord>::empty(),
            b.spec_friend_stones_removed() == Seq::<Coord>::empty(),
    {
        let table = Arc::new(ZobristHashTable::new(size));
        let goban = Goban::new(size, &table);
        Board {
            goban,
            table,
            komi,
            ruleset,
            previous_player: Color::White,
            consecutive_passes: 0,
            adv_stones_removed: Vec::new(),
            friend_stones_removed: Vec::new(),
        }
    }

    pub fn size(&self) -> (s: u8)
        ensures
            s == self@.size,
    {
        self.goban.size
    }

    pub fn komi(&self) -> (k: Komi)
        ensures
            k == self.spec_komi(),
    {
        self.komi
    }

    pub fn set_komi(&mut self, komi: Komi)
        ensures
            final(self).spec_komi() == komi,
            final(self)@ == old(self)@,
            final(self).wf() == old(self).wf(),
            final(self).spec_ruleset() == old(self).spec_ruleset(),
            final(self).spec_table() == old(self).spec_table(),
            final(self).spec_previous_player() == old(self).spec_previous_player(),
            final(self).spec_passes() == old(self).spec_passes(),
            final(self).spec_adv_stones_removed() == old(self).spec_adv_stones_removed(),
            final(self).spec_friend_stones_removed() == old(self).spec_friend_stones_removed(),
    {
        self.komi = komi;
    }

    pub fn ruleset(&self) -> (r: Ruleset)
        ensures
            r == self.spec_ruleset(),
    {
        self.ruleset
    }

    /// The hash of the position.
    pub fn hash(&self) -> (h: u64)
        ensures
            h == self@.hash,
    {
        self.goban.hash
    }

    /// The colour whose turn it is: the opponent of the colour that moved last.
    pub fn next_player(&self) -> (c: Color)
        ensures
            c == self.spec_next_player(),
    {
        self.previous_player.opposite()
    }

    /// Whether the last two moves were passes.
    pub fn is_game_over(&self) -> (over: bool)
        ensures
            over == self.spec_is_game_over(),
    {
        self.consecutive_passes >= 2
    }

    /// The colour of a point of the board.
    pub fn color(&self, c: &Coord) -> (color: Color)
        requires
            self.wf(),
            c.inside(self@.size),
        ensures
            color == self@.color_at(*c),
    {
        self.goban.color(*c)
    }

    /// The colour of the point with the given column and row, both counted from 1.
    pub fn get(&self, col: u8, row: u8) -> (color: Color)
        requires
            self.wf(),
            (Coord { col, row }).inside(self@.size),
        ensures
            color == self@.color_at(Coord { col, row }),
    {
        self.goban.color(Coord { col, row })
    }

    /// The registry of chains. Its place 0 is kept by a chain without stones
    /// that stands for the empty points, so that it holds one chain more than
    /// there are chains of stones.
    pub fn chains(&self) -> (chains: &Vec<Chain>)
        ensures
            chains@ == self@.chains@,
    {
        &self.goban.chains
    }

    /// The chain of a point of the board; for an empty point the chain
    /// without stones that stands for the empty points.
    pub fn get_chain(&self, c: Coord) -> (chain: &Chain)
        requires
            self.wf(),
            c.inside(self@.size),
        ensures
            *chain == self@.chains@[self@.id_at(c) as int],
    {
        proof {
            assert(self.goban.point_ok(c));
        }
        let id: usize = self.goban.id(c);
        &self.goban.chains[id]
    }

    /// The opposing stones that the last move took.
    pub fn adv_stones_removed(&self) -> (removed: &Vec<Coord>)
        ensures
            removed@ == self.spec_adv_stones_removed(),
    {
        &self.adv_stones_removed
    }

    /// The stones of the mover's own colour that left the board with the last move.
    pub fn friend_stones_removed(&self) -> (removed: &Vec<Coord>)
        ensures
            removed@ == self.spec_friend_stones_removed(),
    {
        &self.friend_stones_removed
    }

    /// Plays a move. The answer is a new board, or the rule that the move
    /// breaks: a stone off the board, a stone on a point that is not empty, or
    /// a suicide under rules that forbid it. A pass breaks no rule. The board
    /// does not ask whose turn it is, nor whether the game is over.
    pub fn play(&self, m: Move) -> (res: Result<Board, IllegalMove>)
        requires
            self.wf(),
            m.spec_color() != Color::Empty,
        ensures
            res is Err <==> self.spec_refusal(m) is Some,
            res matches Err(e) ==> self.spec_refusal(m) == Some(e),
            res matches Ok(b) ==> b.follows(self, m),
    {
        match m {
            Move::Pass(color) => {
                let passes: u8 = if self.consecutive_passes < 2 {
                    self.consecutive_passes + 1
                } else {
                    2
                };
                let goban = self.goban.clone();
                proof {
                    crate::rules::lemma_twin(goban, self.goban);
                }
                let b = Board {
                    goban,
                    table: self.table.clone(),
                    komi: self.komi,
                    ruleset: self.ruleset,
                    previous_player: color,
                    consecutive_passes: passes,
                    adv_stones_removed: Vec::new(),
                    friend_stones_removed: Vec::new(),
                };
                proof {
                    assert(b.friend_stones_removed@.to_set() =~= Set::<Coord>::empty());
                    b.lemma_grid_after(self, m);
                }
                Ok(b)
            },
            Move::Play(color, col, row) => {
                let p = Coord { col, row };
                if !p.is_inside(self.goban.size) {
                    return Err(IllegalMove::PlayOutOfBoard);
                }
                match self.goban.color(p) {
                    Color::Empty => {},
                    _ => {
                        return Err(IllegalMove::IntersectionNotEmpty);
                    },
                }
                let mut goban = self.goban.clone();
                proof {
                    crate::rules::lemma_twin(goban, self.goban);
                    crate::rules::lemma_twin_rules(goban, self.goban, p, color);
                }
                match goban.put(p, color, &self.table, self.ruleset.suicide_allowed) {
                    Err(e) => Err(e),
                    Ok((adv, friend)) => {
                        let b = Board {
                            goban,
                            table: self.table.clone(),
                            komi: self.komi,
                            ruleset: self.ruleset,
                            previous_player: color,
                            consecutive_passes: 0,
                            adv_stones_removed: adv,
                            friend_stones_removed: friend,
                        };
                        proof {
                            b.lemma_grid_after(self, m);
                        }
                        Ok(b)
                    },
                }
            },
        }
    }

    /// A move of the colour whose turn it is that breaks no rule.
    pub open spec fn spec_legal(&self, m: Move) -> bool {
        m.spec_color() == self.spec_next_player() && self.spec_refusal(m) is None
    }

    /// The legal stones on the first `n` points, the board being laid out row
    /// after row, in that order.
    pub open spec fn legal_upto(&self, n: nat) -> Seq<Move>
        decreases n,
    {
        if n == 0 {
            Seq::empty()
        } else {
            let c = Coord::at_index(n - 1, self@.size);
            let m = Move::Play(self.spec_next_player(), c.col, c.row);
            let before = self.legal_upto((n - 1) as nat);
            if self.spec_refusal(m) is None {
                before.push(m)
            } else {
                before
            }
        }
    }

    /// The legal moves in their order: the legal stones row after row, each
    /// row from its first column on, and the pass at the end.
    pub open spec fn spec_legal_moves(&self) -> Seq<Move> {
        self.legal_upto(area(self@.size) as nat).push(Move::Pass(self.spec_next_player()))
    }

    /// The moves that the colour whose turn it is may play: every stone that
    /// `play` accepts, and the pass, which is always legal.
    pub fn legal_moves(&self) -> (moves: Vec<Move>)
        requires
            self.wf(),
        ensures
            moves@ == self.spec_legal_moves(),
    {
        let color: Color = self.next_player();
        let size: u8 = self.goban.size;
        let n: usize = size as usize;
        proof {
            lemma_area_bound(size);
            crate::color::lemma_opposite_involutive(self.previous_player);
        }
        assert(n * n == area(size)) by (nonlinear_arith)
            requires
                n == size,
        ;
        let total: usize = n * n;
        let mut moves: Vec<Move> = Vec::new();
        let mut k: usize = 0;
        while k < total
            invariant
                k <= total,
                total == area(size),
                size == self@.size,
                self.wf(),
                color == self.spec_next_player(),
                color != Color::Empty,
                moves@ == self.legal_upto(k as nat),
            decreases total - k,
        {
            let c: Coord = Coord::from_index(k, size);
            let m = Move::Play(color, c.col, c.row);
            match self.play(m) {
                Ok(_) => {
                    moves.push(m);
                },
                Err(_) => {},
            }
            k += 1;
        }
        moves.push(Move::Pass(color));
        moves
    }

    /// The legal moves are the pass of the colour whose turn it is and the
    /// stones of that colour that break no rule.
    pub proof fn lemma_legal_moves(&self, m: Move)
        ensures
            self.spec_legal_moves().contains(m) <==> m == Move::Pass(self.spec_next_player()) || (
            m is Play && self.spec_legal(m)),
    {
        let n = area(self@.size) as nat;
        let stones = self.legal_upto(n);
        let all = self.spec_legal_moves();
        let pass = Move::Pass(self.spec_next_player());
        self.lemma_legal_upto(n, m);
        assert(all[stones.len() as int] == pass);
        if stones.contains(m) {
            let i = choose|i: int| 0 <= i < stones.len() && stones[i] == m;
            assert(all[i] == m);
        }
        if all.contains(m) && m != pass {
        }
        if m is Play && self.spec_legal(m) {
            let p = m.spec_coords();
            lemma_index_bounds(p, self@.size);
        }
    }

    /// The legal stones on the first `n` points are the stones of the colour
    /// whose turn it is, on one of those points, that break no rule.
    pub proof fn lemma_legal_upto(&self, n: nat, m: Move)
        requires
            n <= area(self@.size),
        ensures
            self.legal_upto(n).contains(m) <==> m is Play && self.spec_legal(m)
                && m.spec_coords().index(self@.size) < n,
        decreases n,
    {
        if n > 0 {
            self.lemma_legal_upto((n - 1) as nat, m);
            let size = self@.size;
            let c = Coord::at_index(n - 1, size);
            let here = Move::Play(self.spec_next_player(), c.col, c.row);
            let before = self.legal_upto((n - 1) as nat);
            let now = self.legal_upto(n);
            lemma_at_index(n - 1, size);
            if self.spec_refusal(here) is None {
                assert(now[before.len() as int] == here);
                if before.contains(m) {
                    let i = choose|i: int| 0 <= i < before.len() && before[i] == m;
                    assert(now[i] == m);
                }
                if now.contains(m) && m != here {
                }
            }
            if m is Play && self.spec_legal(m) && m.spec_coords().index(size) == n - 1 {
                let p = m.spec_coords();
                lemma_index_bounds(p, size);
            }
        }
    }

    /// The count of the position by area, with the komi of the board.
    pub open spec fn spec_score(&self) -> Score {
        Score {
            black: points(self@, Color::Black) as usize,
            white: points(self@, Color::White) as usize,
            komi: self.spec_komi(),
        }
    }

    /// The colour that the count gives the game to, `Empty` for a draw.
    pub open spec fn spec_winner(&self) -> Color {
        self.spec_score().spec_color()
    }

    /// Counts the position by area: each colour has its stones and the empty
    /// regions that touch its stones only; komi goes to White when the totals
    /// are compared.
    pub fn score(&self) -> (s: Score)
        requires
            self.wf(),
        ensures
            s == self.spec_score(),
            s.black == points(self@, Color::Black),
            s.white == points(self@, Color::White),
    {
        let totals: (usize, usize) = self.goban.area_score();
        Score { black: totals.0, white: totals.1, komi: self.komi }
    }

    /// The colour with the strictly higher total, `Empty` where the totals are equal.
    pub fn winner(&self) -> (c: Color)
        requires
            self.wf(),
        ensures
            c == self.spec_winner(),
    {
        self.score().color()
    }

    /// The chains of a consistent board are an exact partition of its stones:
    /// every stone is in the chain that its point names, a chain holds stones
    /// of its colour only, and no point is in two chains.
    pub proof fn lemma_partition(&self)
        requires
            self.wf(),
        ensures
            forall|c: Coord|
                c.inside(self@.size) && self@.color_at(c) != Color::Empty ==> 1
                    <= #[trigger] self@.id_at(c) < self@.chains@.len()
                    && self@.chains@[self@.id_at(c) as int]@.contains(c),
            forall|i: int, c: Coord|
                1 <= i < self@.chains@.len() && #[trigger] self@.chains@[i]@.contains(c)
                    ==> c.inside(self@.size) && self@.color_at(c) == self@.chains@[i].color
                    && self@.color_at(c) != Color::Empty,
            forall|i: int, j: int, c: Coord|
                1 <= i < self@.chains@.len() && 1 <= j < self@.chains@.len()
                    && #[trigger] self@.chains@[i]@.contains(c)
                    && #[trigger] self@.chains@[j]@.contains(c) ==> i == j,
    {
        crate::rules::lemma_partition(self.goban);
    }

    /// On a consistent board the chain of a stone is the set of the points
    /// that a walk over stones of its colour reaches from it.
    pub proof fn lemma_chains_are_groups(&self, c: Coord)
        requires
            self.wf(),
            c.inside(self@.size),
            self@.color_at(c) != Color::Empty,
        ensures
            forall|q: Coord|
                self@.group_at(c).contains(q) <==> #[trigger] joined(
                    colored(self@, self@.color_at(c)),
                    c,
                    q,
                ),
    {
        crate::rules::lemma_chain_is_group(self.goban, c);
    }

    /// On a consistent board every chain records as its liberties the number
    /// of the distinct empty points adjacent to its stones, and has one at least.
    pub proof fn lemma_liberties(&self, i: int)
        requires
            self.wf(),
            1 <= i < self@.chains@.len(),
        ensures
            self@.liberties(self@.chains@[i]@.to_set()).finite(),
            self@.chains@[i].libs == self@.liberties(self@.chains@[i]@.to_set()).len(),
            self@.chains@[i].libs >= 1,
    {
    }

    /// A stone that takes the last liberty of an opposing chain empties every
    /// point of that chain with the same move, and the points that it frees
    /// next to the chain of the stone are liberties of that chain, which
    /// records them.
    pub proof fn lemma_capture(&self, after: &Board, m: Move, q: Coord)
        requires
            self.wf(),
            m is Play,
            m.spec_color() != Color::Empty,
            self.spec_refusal(m) is None,
            after.follows(self, m),
            q.inside(self@.size),
            self@.color_at(q) == m.spec_color().opposite(),
            self@.liberties(self@.group_at(q)) == set![m.spec_coords()],
        ensures
            forall|x: Coord| self@.group_at(q).contains(x) ==> #[trigger] after@.color_at(x)
                == Color::Empty,
            after@.color_at(m.spec_coords()) == m.spec_color(),
            after@.liberties(after@.group_at(m.spec_coords())).finite(),
            after@.libs_at(m.spec_coords()) == after@.liberties(
                after@.group_at(m.spec_coords()),
            ).len(),
            forall|x: Coord|
                self@.group_at(q).contains(x) && touches(after@.group_at(m.spec_coords()), x)
                    ==> #[trigger] after@.liberties(after@.group_at(m.spec_coords())).contains(x),
    {
        let p = m.spec_coords();
        let g = self.goban;
        assert forall|x: Coord| g.group_at(q).contains(x) implies #[trigger] after@.color_at(x)
            == Color::Empty && x.inside(g.size) by {
            crate::rules::lemma_member(g, q, x);
        }
        crate::rules::lemma_libs_at(after.goban, p);
        let own = after@.group_at(p);
        assert forall|x: Coord|
            g.group_at(q).contains(x) && touches(own, x) implies #[trigger] after@.liberties(
            own,
        ).contains(x) by {
            crate::rules::lemma_member(g, q, x);
            assert(after@.color_at(x) == Color::Empty);
        }
    }

    /// The first `n` points of a row as text: for each point its sign and a space.
    pub open spec fn spec_row_text(&self, row: u8, n: nat) -> Seq<char>
        decreases n,
    {
        if n == 0 {
            Seq::empty()
        } else {
            self.spec_row_text(row, (n - 1) as nat).push(
                self@.color_at(Coord { col: n as u8, row }).spec_sign(),
            ).push(' ')
        }
    }

    /// The `n` highest rows as text, the highest first: for each row its
    /// number in a width of 2, a space, its points and a line feed.
    pub open spec fn spec_rows_text(&self, n: nat) -> Seq<char>
        decreases n,
    {
        if n == 0 {
            Seq::empty()
        } else {
            let row = (self@.size - n + 1) as u8;
            self.spec_rows_text((n - 1) as nat) + pad_left(decimal(row as nat), 2) + " "@
                + self.spec_row_text(row, self@.size as nat) + "\n"@
        }
    }

    /// The board drawn as text: `X` for Black, `O` for White and `.` for an
    /// empty point, row by row from the highest.
    pub open spec fn spec_as_string(&self) -> Seq<char> {
        self.spec_rows_text(self@.size as nat)
    }

    pub fn as_string(&self) -> (s: String)
        requires
            self.wf(),
        ensures
            s@ == self.spec_as_string(),
    {
        let size: u8 = self.goban.size;
        let mut out: Vec<char> = Vec::new();
        let mut n: u8 = 0;
        while n < size
            invariant
                n <= size,
                size == self@.size,
                self.wf(),
                out@ == self.spec_rows_text(n as nat),
            decreases size - n,
        {
            let row: u8 = size - n;
            push_padded(&mut out, row as usize, 2, false);
            push_word(&mut out, " ");
            let ghost head = out@;
            let mut col: u8 = 0;
            while col < size
                invariant
                    col <= size,
                    size == self@.size,
                    1 <= row <= size,
                    self.wf(),
                    out@ == head + self.spec_row_text(row, col as nat),
                decreases size - col,
            {
                col += 1;
                let c: Color = self.goban.color(Coord { col, row });
                out.push(c.sign());
                out.push(' ');
            }
            push_word(&mut out, "\n");
            n += 1;
        }
        to_string(&out)
    }

    /// A copy of a board that follows from a move follows from it as well.
    pub proof fn lemma_copy_follows(&self, copy: &Board, before: &Board, m: Move)
        requires
            copy.same_as(self),
            self.follows(before, m),
        ensures
            copy.follows(before, m),
    {
        crate::rules::lemma_twin(copy.goban, self.goban);
    }

    /// Where the komi is more than twice the points of the board, the count
    /// gives the game to White.
    pub proof fn lemma_white_by_komi(&self)
        requires
            self.spec_komi().half_points > 2 * area(self@.size),
        ensures
            self.spec_winner() == Color::White,
    {
        lemma_area_bound(self@.size);
        crate::territory::lemma_points_bound(self@, Color::Black, area(self@.size) as nat);
    }
}

} // verus!
