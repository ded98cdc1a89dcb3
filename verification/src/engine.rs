//! Choosing a move by Monte-Carlo sampling: every legal move is tried, random
//! games are played out from the position that it leads to, and the move
//! with the best share of wins is chosen.

use vstd::prelude::*;
use crate::board::Board;
use crate::color::Color;
use crate::game::Game;
use crate::gomove::Move;
use crate::coord::area;
use crate::playout::{played_out, Playout};

verus! {

/// The playouts that the Monte-Carlo engine runs for each candidate move.
pub const PLAYOUTS: usize = 1000;

/// The record of a candidate move: playouts won and playouts run.
#[derive(Clone, Copy, Debug, PartialEq, Eq, Structural)]
pub struct MoveStats {
    pub wins: usize,
    pub plays: usize,
}

/// The share of wins of the first record is smaller than that of the
/// second. A record without playouts has the share zero.
pub open spec fn ratio_less(a: MoveStats, b: MoveStats) -> bool {
    let ap: int = if a.plays == 0 {
        1
    } else {
        a.plays as int
    };
    let bp: int = if b.plays == 0 {
        1
    } else {
        b.plays as int
    };
    let aw: int = if a.plays == 0 {
        0
    } else {
        a.wins as int
    };
    let bw: int = if b.plays == 0 {
        0
    } else {
        b.wins as int
    };
    aw * bp < bw * ap
}

/// Every record is all wins or all losses.
pub open spec fn resolved(stats: Seq<MoveStats>) -> bool {
    forall|i: int| 0 <= i < stats.len() ==> (#[trigger] stats[i]).wins == stats[i].plays || stats[i].wins == 0
}

/// The record at place `i` has the greatest share of wins, and is the first
/// that has it.
pub open spec fn is_best(stats: Seq<MoveStats>, i: int) -> bool {
    &&& 0 <= i < stats.len()
    &&& forall|j: int| 0 <= j < stats.len() ==> !ratio_less(stats[i], #[trigger] stats[j])
    &&& forall|j: int| 0 <= j < i ==> ratio_less(#[trigger] stats[j], stats[i])
}

/// Shares of wins are ordered as numbers are.
pub proof fn lemma_ratio_order(a: MoveStats, b: MoveStats, c: MoveStats)
    requires
        !ratio_less(b, a),
        ratio_less(b, c),
    ensures
        ratio_less(a, c),
{
    let ap: int = if a.plays == 0 { 1 } else { a.plays as int };
    let bp: int = if b.plays == 0 { 1 } else { b.plays as int };
    let cp: int = if c.plays == 0 { 1 } else { c.plays as int };
    let aw: int = if a.plays == 0 { 0 } else { a.wins as int };
    let bw: int = if b.plays == 0 { 0 } else { b.wins as int };
    let cw: int = if c.plays == 0 { 0 } else { c.wins as int };
    assert(aw * cp < cw * ap) by (nonlinear_arith)
        requires
            aw * bp <= bw * ap,
            bw * cp < cw * bp,
            ap > 0,
            bp > 0,
            cp > 0,
            aw >= 0,
            bw >= 0,
            cw >= 0,
    {
    }
}

impl MoveStats {
    pub fn new() -> (s: MoveStats)
        ensures
            s.wins == 0,
            s.plays == 0,
    {
        MoveStats { wins: 0, plays: 0 }
    }

    /// Records a playout that was won.
    pub fn won(&mut self)
        requires
            old(self).wins < usize::MAX,
            old(self).plays < usize::MAX,
        ensures
            final(self).wins == old(self).wins + 1,
            final(self).plays == old(self).plays + 1,
    {
        self.wins = self.wins + 1;
        self.plays = self.plays + 1;
    }

    /// Records a playout that was not won.
    pub fn lost(&mut self)
        requires
            old(self).plays < usize::MAX,
        ensures
            final(self).wins == old(self).wins,
            final(self).plays == old(self).plays + 1,
    {
        self.plays = self.plays + 1;
    }

    pub fn all_wins(&self) -> (b: bool)
        ensures
            b == (self.wins == self.plays),
    {
        self.wins == self.plays
    }

    pub fn all_loses(&self) -> (b: bool)
        ensures
            b == (self.wins == 0),
    {
        self.wins == 0
    }

    /// Whether the share of wins of this record is smaller than that of the other.
    pub fn ratio_less(&self, other: &MoveStats) -> (less: bool)
        ensures
            less == ratio_less(*self, *other),
    {
        let ap: u128 = if self.plays == 0 { 1 } else { self.plays as u128 };
        let bp: u128 = if other.plays == 0 { 1 } else { other.plays as u128 };
        let aw: u128 = if self.plays == 0 { 0 } else { self.wins as u128 };
        let bw: u128 = if other.plays == 0 { 0 } else { other.wins as u128 };
        assert(aw * bp <= 0xffff_ffff_ffff_ffff * 0xffff_ffff_ffff_ffff && bw * ap
            <= 0xffff_ffff_ffff_ffff * 0xffff_ffff_ffff_ffff) by (nonlinear_arith)
            requires
                aw <= 0xffff_ffff_ffff_ffff,
                bp <= 0xffff_ffff_ffff_ffff,
                bw <= 0xffff_ffff_ffff_ffff,
                ap <= 0xffff_ffff_ffff_ffff,
        ;
        aw * bp < bw * ap
    }
}

/// The move `m` is what the records speak for: the pass of `color` where
/// every record is all wins or all losses, and else the first of the moves
/// with the greatest share of wins.
pub open spec fn chosen(color: Color, moves: Seq<Move>, stats: Seq<MoveStats>, m: Move) -> bool {
    &&& resolved(stats) ==> m == Move::Pass(color)
    &&& !resolved(stats) ==> exists|i: int| is_best(stats, i) && m == moves[i]
}

/// The move that the records speak for. Where every record is all wins or
/// all losses, no move changes the outcome and the answer is the pass of
/// `color`. Else it is the move with the greatest share of wins, and among
/// several of these the one that comes first.
pub fn select(color: Color, moves: &Vec<Move>, stats: &Vec<MoveStats>) -> (m: Move)
    requires
        moves@.len() == stats@.len(),
    ensures
        chosen(color, moves@, stats@, m),
{
    let n: usize = stats.len();
    let mut settled: bool = true;
    let mut i: usize = 0;
    while i < n
        invariant
            i <= n,
            n == stats@.len(),
            settled == resolved(stats@.subrange(0, i as int)),
        decreases n - i,
    {
        let s: &MoveStats = &stats[i];
        let ghost before = stats@.subrange(0, i as int);
        let ghost now = stats@.subrange(0, i + 1);
        proof {
            assert(now[i as int] == stats@[i as int]);
            if resolved(now) {
                assert forall|j: int| 0 <= j < before.len() implies (#[trigger] before[j]).wins
                    == before[j].plays || before[j].wins == 0 by {}
            }
            if resolved(before) && (s.wins == s.plays || s.wins == 0) {
                assert forall|j: int| 0 <= j < now.len() implies (#[trigger] now[j]).wins
                    == now[j].plays || now[j].wins == 0 by {}
            }
        }
        if !(s.all_wins() || s.all_loses()) {
            settled = false;
        }
        i += 1;
    }
    assert(stats@.subrange(0, n as int) =~= stats@);
    if settled {
        return Move::Pass(color);
    }
    let mut best: usize = 0;
    let mut j: usize = 1;
    while j < n
        invariant
            1 <= j <= n,
            n == stats@.len(),
            best < j,
            forall|x: int| 0 <= x < j ==> !ratio_less(stats@[best as int], #[trigger] stats@[x]),
            forall|x: int| 0 <= x < best ==> ratio_less(#[trigger] stats@[x], stats@[best as int]),
        decreases n - j,
    {
        if stats[best].ratio_less(&stats[j]) {
            proof {
                let old_best = stats@[best as int];
                let new_best = stats@[j as int];
                assert forall|x: int| 0 <= x < j implies ratio_less(
                    #[trigger] stats@[x],
                    new_best,
                ) by {
                    lemma_ratio_order(stats@[x], old_best, new_best);
                }
            }
            best = j;
        }
        j += 1;
    }
    moves[best]
}

/// The legal moves among the first `n` that the game accepts, in their order.
pub open spec fn candidates_upto(game: Game, n: nat) -> Seq<Move>
    decreases n,
{
    if n == 0 {
        Seq::empty()
    } else {
        let m = game.spec_board().spec_legal_moves()[n - 1];
        let before = candidates_upto(game, (n - 1) as nat);
        if game.spec_refusal(m) is None {
            before.push(m)
        } else {
            before
        }
    }
}

/// The candidate moves of a position: the legal moves that the game
/// accepts, in their order.
pub open spec fn candidates(game: Game) -> Seq<Move> {
    candidates_upto(game, game.spec_board().spec_legal_moves().len())
}

/// Every candidate is a legal move.
pub proof fn lemma_candidates(game: Game, n: nat, m: Move)
    requires
        n <= game.spec_board().spec_legal_moves().len(),
        candidates_upto(game, n).contains(m),
    ensures
        game.spec_board().spec_legal_moves().contains(m),
        game.spec_refusal(m) is None,
    decreases n,
{
    let legal = game.spec_board().spec_legal_moves();
    if n > 0 {
        let here = legal[n - 1];
        let before = candidates_upto(game, (n - 1) as nat);
        let now = candidates_upto(game, n);
        let i = choose|i: int| 0 <= i < now.len() && now[i] == m;
        if !(game.spec_refusal(here) is None && i == before.len()) {
            lemma_candidates(game, (n - 1) as nat, m);
        }
    }
}

/// The playouts that `color` wins among the first `n` of the given ones: a
/// playout is won where the count of its last board gives the game to `color`.
pub open spec fn won_among(lines: Seq<Seq<Board>>, color: Color, n: nat) -> nat
    decreases n,
{
    if n == 0 {
        0
    } else {
        won_among(lines, color, (n - 1) as nat) + if lines[n - 1].last().spec_winner() == color {
            1nat
        } else {
            0nat
        }
    }
}

/// The record is the tally of `playouts` playouts from the board: so many
/// playouts were run, and the wins are those among them that `color` won.
pub open spec fn tallied(board: Board, color: Color, playouts: usize, stats: MoveStats) -> bool {
    &&& stats.plays == playouts
    &&& exists|lines: Seq<Seq<Board>>|
        {
            &&& lines.len() == playouts
            &&& forall|i: int| 0 <= i < lines.len() ==> played_out(board, #[trigger] lines[i])
            &&& stats.wins == #[trigger] won_among(lines, color, lines.len())
        }
}

/// The record is the tally of `playouts` playouts from a board that the
/// move `m` leads to from the board `before`.
pub open spec fn tallied_after(
    before: Board,
    m: Move,
    color: Color,
    playouts: usize,
    stats: MoveStats,
) -> bool {
    exists|start: Board|
        start.follows(&before, m) && #[trigger] tallied(start, color, playouts, stats)
}

/// The records are the tallies of the candidate moves of the game, one for
/// each candidate in its order, each of `playouts` playouts from a board
/// that the candidate leads to.
pub open spec fn sampled(game: Game, color: Color, playouts: usize, stats: Seq<MoveStats>) -> bool {
    &&& stats.len() == candidates(game).len()
    &&& forall|i: int|
        0 <= i < stats.len() ==> tallied_after(
            game.spec_board(),
            candidates(game)[i],
            color,
            playouts,
            #[trigger] stats[i],
        )
}

/// The wins among the first playouts do not depend on the playouts after them.
pub proof fn lemma_won_among_prefix(
    lines: Seq<Seq<Board>>,
    more: Seq<Seq<Board>>,
    color: Color,
    n: nat,
)
    requires
        n <= lines.len(),
        lines.len() <= more.len(),
        forall|i: int| 0 <= i < lines.len() ==> lines[i] == more[i],
    ensures
        won_among(more, color, n) == won_among(lines, color, n),
    decreases n,
{
    if n > 0 {
        lemma_won_among_prefix(lines, more, color, (n - 1) as nat);
    }
}

/// No more playouts are won than were run, and none where `color` wins no
/// playout at all.
pub proof fn lemma_won_among_bounds(lines: Seq<Seq<Board>>, color: Color, n: nat)
    requires
        n <= lines.len(),
    ensures
        won_among(lines, color, n) <= n,
        (forall|i: int| 0 <= i < n ==> (#[trigger] lines[i]).last().spec_winner() != color)
            ==> won_among(lines, color, n) == 0,
        (forall|i: int| 0 <= i < n ==> (#[trigger] lines[i]).last().spec_winner() == color)
            ==> won_among(lines, color, n) == n,
    decreases n,
{
    if n > 0 {
        lemma_won_among_bounds(lines, color, (n - 1) as nat);
    }
}

/// Runs `playouts` playouts from the board and records those that `color` wins.
pub fn sample(color: Color, board: Board, playouts: usize) -> (stats: MoveStats)
    requires
        board.wf(),
    ensures
        stats.wins <= stats.plays,
        tallied(board, color, playouts, stats),
{
    let playout = Playout::new(board);
    let mut stats = MoveStats::new();
    let mut i: usize = 0;
    let ghost mut lines: Seq<Seq<Board>> = Seq::empty();
    while i < playouts
        invariant
            i <= playouts,
            playout.spec_board() == board,
            board.wf(),
            stats.plays == i,
            stats.wins <= stats.plays,
            lines.len() == i,
            forall|j: int| 0 <= j < lines.len() ==> played_out(board, #[trigger] lines[j]),
            stats.wins == won_among(lines, color, lines.len()),
        decreases playouts - i,
    {
        let winner: Color = playout.run();
        proof {
            let line = choose|line: Seq<Board>| #[trigger]
                played_out(board, line) && winner == line.last().spec_winner();
            let before = lines;
            lines = lines.push(line);
            lemma_won_among_prefix(before, lines, color, before.len());
        }
        if winner == color {
            stats.won();
        } else {
            stats.lost();
        }
        i += 1;
    }
    stats
}

/// Tries every legal move of the game. For each move that the game
/// accepts, `playouts` playouts are run from the position that it leads to.
/// Returns those moves in their order, and the record of each.
pub fn evaluate(color: Color, game: &Game, playouts: usize) -> (res: (Vec<Move>, Vec<MoveStats>))
    requires
        game.wf(),
    ensures
        res.0@ == candidates(*game),
        res.1@.len() == res.0@.len(),
        forall|i: int|
            0 <= i < res.1@.len() ==> (#[trigger] res.1@[i]).plays == playouts && res.1@[i].wins
                <= playouts,
        sampled(*game, color, playouts, res.1@),
{
    let legal: Vec<Move> = game.legal_moves();
    let mut moves: Vec<Move> = Vec::new();
    let mut stats: Vec<MoveStats> = Vec::new();
    let mut k: usize = 0;
    proof {
        game.lemma_wf();
        game.spec_board().lemma_wf();
        crate::color::lemma_opposite_involutive(game.spec_board().spec_previous_player());
    }
    while k < legal.len()
        invariant
            k <= legal@.len(),
            game.wf(),
            game.spec_board().wf(),
            game.spec_board().spec_next_player() != Color::Empty,
            legal@ == game.spec_board().spec_legal_moves(),
            moves@ == candidates_upto(*game, k as nat),
            stats@.len() == moves@.len(),
            forall|i: int|
                0 <= i < stats@.len() ==> (#[trigger] stats@[i]).plays == playouts
                    && stats@[i].wins <= playouts,
            forall|i: int|
                0 <= i < stats@.len() ==> tallied_after(
                    game.spec_board(),
                    moves@[i],
                    color,
                    playouts,
                    #[trigger] stats@[i],
                ),
        decreases legal@.len() - k,
    {
        let m: Move = legal[k];
        proof {
            game.spec_board().lemma_legal_moves(m);
        }
        match game.play(m) {
            Ok(after) => {
                proof {
                    after.lemma_wf();
                }
                let board: Board = after.board();
                let ghost start = board;
                let ghost so_far = stats@;
                let ghost tried = moves@;
                proof {
                    after.spec_board().lemma_copy_follows(&start, &game.spec_board(), m);
                }
                let record: MoveStats = sample(color, board, playouts);
                moves.push(m);
                stats.push(record);
                proof {
                    assert(tallied(start, color, playouts, record));
                    assert forall|i: int| 0 <= i < stats@.len() implies tallied_after(
                        game.spec_board(),
                        moves@[i],
                        color,
                        playouts,
                        #[trigger] stats@[i],
                    ) by {
                        if i < so_far.len() {
                            assert(stats@[i] == so_far[i]);
                            assert(moves@[i] == tried[i]);
                        }
                    }
                }
            },
            Err(_) => {},
        }
        k += 1;
    }
    (moves, stats)
}

/// What chooses a move for a colour in a game.
pub trait Engine {
    /// A move for `color`: its pass, or one of the legal moves of the game.
    fn gen_move(&self, color: Color, game: &Game) -> (m: Move)
        requires
            game.wf(),
        ensures
            m == Move::Pass(color) || game.spec_board().spec_legal_moves().contains(m),
    ;
}

/// The engine that chooses by Monte-Carlo sampling.
pub struct McEngine;

impl McEngine {
    pub fn new() -> McEngine {
        McEngine
    }
}

impl Engine for McEngine {
    /// Tries every legal move that the game accepts with 1000 playouts, and
    /// answers with the move that the records of these playouts speak for.
    fn gen_move(&self, color: Color, game: &Game) -> (m: Move)
        ensures
            m == Move::Pass(color) || candidates(*game).contains(m),
            exists|stats: Seq<MoveStats>|
                sampled(*game, color, PLAYOUTS, stats) && #[trigger] chosen(
                    color,
                    candidates(*game),
                    stats,
                    m,
                ),
    {
        let res: (Vec<Move>, Vec<MoveStats>) = evaluate(color, game, PLAYOUTS);
        let m: Move = select(color, &res.0, &res.1);
        proof {
            assert(sampled(*game, color, PLAYOUTS, res.1@) && chosen(
                color,
                candidates(*game),
                res.1@,
                m,
            ));
            if m != Move::Pass(color) {
                lemma_candidates(*game, game.spec_board().spec_legal_moves().len(), m);
            }
        }
        m
    }
}

/// Where the komi is more than twice the points of the board, White wins
/// every playout: a record of playouts after any move is all wins for
/// White, and all losses for Black.
pub proof fn lemma_decided_by_komi(
    before: Board,
    m: Move,
    color: Color,
    playouts: usize,
    stats: MoveStats,
)
    requires
        before.spec_komi().half_points > 2 * area(before@.size),
        tallied_after(before, m, color, playouts, stats),
    ensures
        color == Color::White ==> stats.wins == stats.plays,
        color != Color::White ==> stats.wins == 0,
{
    let start = choose|start: Board|
        start.follows(&before, m) && #[trigger] tallied(start, color, playouts, stats);
    let lines = choose|lines: Seq<Seq<Board>>|
        {
            &&& lines.len() == playouts
            &&& forall|i: int| 0 <= i < lines.len() ==> played_out(start, #[trigger] lines[i])
            &&& stats.wins == #[trigger] won_among(lines, color, lines.len())
        };
    assert forall|i: int| 0 <= i < lines.len() implies (#[trigger] lines[i]).last().spec_winner()
        == Color::White by {
        crate::playout::lemma_white_by_komi(start, lines[i]);
    }
    lemma_won_among_bounds(lines, color, lines.len());
}

/// Where the komi is more than twice the points of the board, the move that
/// the records of the playouts speak for is the pass: the outcome is the
/// same whatever is played.
pub proof fn lemma_pass_when_decided(
    game: Game,
    color: Color,
    playouts: usize,
    stats: Seq<MoveStats>,
    m: Move,
)
    requires
        game.spec_board().spec_komi().half_points > 2 * area(game.spec_board()@.size),
        sampled(game, color, playouts, stats),
        chosen(color, candidates(game), stats, m),
    ensures
        m == Move::Pass(color),
{
    assert forall|i: int| 0 <= i < stats.len() implies (#[trigger] stats[i]).wins == stats[i].plays
        || stats[i].wins == 0 by {
        lemma_decided_by_komi(game.spec_board(), candidates(game)[i], color, playouts, stats[i]);
    }
}

} // verus!
