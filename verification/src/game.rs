//! A game: a board with the count of its moves, the history of its positions
//! for the superko rule, and the time settings.

use vstd::prelude::*;
use crate::board::Board;
use crate::color::Color;
use crate::coord::Coord;
use crate::gomove::{IllegalMove, Move};
use crate::ruleset::Ruleset;
use crate::score::{Komi, Score};
use crate::text::{decimal, pad_right, push_padded, push_word, to_string};

verus! {

/// One match. A game is never changed by a move: `play` hands out a new game.
pub struct Game {
    board: Board,
    move_number: u8,
    previous_boards_hashes: Vec<u64>,
    main_time: u64,
    byo_time: u64,
    byo_stones: i32,
    byo_stones_remaining: i32,
    positions: Ghost<Seq<Seq<Color>>>,
}

/// Whether a hash is among those recorded.
pub fn recorded(hashes: &Vec<u64>, hash: u64) -> (found: bool)
    ensures
        found == hashes@.contains(hash),
{
    let mut i: usize = 0;
    while i < hashes.len()
        invariant
            i <= hashes@.len(),
            forall|j: int| 0 <= j < i ==> hashes@[j] != hash,
        decreases hashes@.len() - i,
    {
        if hashes[i] == hash {
            return true;
        }
        i += 1;
    }
    false
}

impl Clone for Game {
    fn clone(&self) -> (g: Game)
        ensures
            g.spec_board().same_as(&self.spec_board()),
            self.wf() ==> g.wf(),
            g.spec_move_number() == self.spec_move_number(),
            g.spec_hashes() == self.spec_hashes(),
            g.spec_positions() == self.spec_positions(),
            g.spec_main_time() == self.spec_main_time(),
            g.spec_byo_time() == self.spec_byo_time(),
            g.spec_byo_stones() == self.spec_byo_stones(),
            g.spec_byo_stones_remaining() == self.spec_byo_stones_remaining(),
    {
        let hashes = self.previous_boards_hashes.clone();
        let positions: Ghost<Seq<Seq<Color>>> = Ghost(self.positions@);
        Game {
            board: self.board.clone(),
            move_number: self.move_number,
            previous_boards_hashes: hashes,
            main_time: self.main_time,
            byo_time: self.byo_time,
            byo_stones: self.byo_stones,
            byo_stones_remaining: self.byo_stones_remaining,
            positions,
        }
    }
}

impl Game {
    pub closed spec fn spec_board(&self) -> Board {
        self.board
    }

    pub closed spec fn spec_move_number(&self) -> u8 {
        self.move_number
    }

    /// The hashes of the positions of the game, the first that of the empty
    /// board; a pass adds none.
    pub closed spec fn spec_hashes(&self) -> Seq<u64> {
        self.previous_boards_hashes@
    }

    /// The grids of the positions of the game, one for each recorded hash.
    pub closed spec fn spec_positions(&self) -> Seq<Seq<Color>> {
        self.positions@
    }

    pub closed spec fn spec_main_time(&self) -> u64 {
        self.main_time
    }

    pub closed spec fn spec_byo_time(&self) -> u64 {
        self.byo_time
    }

    pub closed spec fn spec_byo_stones(&self) -> i32 {
        self.byo_stones
    }

    pub closed spec fn spec_byo_stones_remaining(&self) -> i32 {
        self.byo_stones_remaining
    }

    /// The game is consistent: its board is, every recorded hash is that of
    /// the position recorded with it, the last position is that of the board,
    /// and the byo-yomi counts are at least 1.
    pub closed spec fn wf(&self) -> bool {
        &&& self.board.wf()
        &&& self.previous_boards_hashes@.len() >= 1
        &&& self.positions@.len() == self.previous_boards_hashes@.len()
        &&& forall|i: int|
            0 <= i < self.positions@.len() ==> #[trigger] self.previous_boards_hashes@[i]
                == self.board.spec_table().position_hash(self.positions@[i])
        &&& self.positions@.last() == self.board@.colors@
        &&& self.byo_stones >= 1
        &&& 1 <= self.byo_stones_remaining
    }

    /// What a consistent game holds of its parts.
    pub proof fn lemma_wf(&self)
        requires
            self.wf(),
        ensures
            self.spec_board().wf(),
            self.spec_hashes().len() >= 1,
            self.spec_positions().len() == self.spec_hashes().len(),
            forall|i: int|
                0 <= i < self.spec_positions().len() ==> #[trigger] self.spec_hashes()[i]
                    == self.spec_board().spec_table().position_hash(self.spec_positions()[i]),
            self.spec_positions().last() == self.spec_board()@.colors@,
            self.spec_hashes().last() == self.spec_board()@.hash,
            self.spec_byo_stones() >= 1,
            self.spec_byo_stones_remaining() >= 1,
    {
        self.board.lemma_wf();
    }

    /// The rule that a move breaks, if it breaks one: no move is accepted
    /// once the game is over; then come the rules of the board; and a stone
    /// may not bring back a position that the game has seen.
    pub open spec fn spec_refusal(&self, m: Move) -> Option<IllegalMove> {
        if self.spec_board().spec_is_game_over() {
            Some(IllegalMove::GameAlreadyOver)
        } else if self.spec_board().spec_refusal(m) is Some {
            self.spec_board().spec_refusal(m)
        } else if m is Play && self.spec_hashes().contains(self.spec_board().spec_hash_after(m)) {
            Some(IllegalMove::SuperKoRuleBroken)
        } else {
            None
        }
    }

    /// The byo-yomi stones that remain after one more move.
    pub open spec fn spec_byo_stones_after(&self) -> i32 {
        if self.spec_byo_stones_remaining() == 1 {
            self.spec_byo_stones()
        } else {
            (self.spec_byo_stones_remaining() - 1) as i32
        }
    }

    /// What this game is after a move in the game `before`.
    pub open spec fn follows(&self, before: &Game, m: Move) -> bool {
        &&& self.wf()
        &&& self.spec_board().follows(&before.spec_board(), m)
        &&& self.spec_move_number() as int == (before.spec_move_number() + 1) % 256
        &&& self.spec_hashes() == if m is Pass {
            before.spec_hashes()
        } else {
            before.spec_hashes().push(before.spec_board().spec_hash_after(m))
        }
        &&& self.spec_positions() == if m is Pass {
            before.spec_positions()
        } else {
            before.spec_positions().push(before.spec_board().spec_grid_after(m))
        }
        &&& self.spec_main_time() == before.spec_main_time()
        &&& self.spec_byo_time() == before.spec_byo_time()
        &&& self.spec_byo_stones() == before.spec_byo_stones()
        &&& self.spec_byo_stones_remaining() == before.spec_byo_stones_after()
    }

    /// A new game on the empty board of the given size: no move played, the
    /// hash of the empty board recorded, no main time, a byo-yomi time of 30
    /// and one stone in each byo-yomi period.
    pub fn new(size: u8, komi: Komi, ruleset: Ruleset) -> (g: Game)
        ensures
            g.wf(),
            g.spec_board()@.size == size,
            g.spec_board().spec_komi() == komi,
            g.spec_board().spec_ruleset() == ruleset,
            g.spec_board().spec_passes() == 0,
            g.spec_board().spec_previous_player() == Color::White,
            forall|c: Coord| c.inside(size) ==> g.spec_board()@.color_at(c) == Color::Empty,
            g.spec_move_number() == 0,
            g.spec_hashes() == Seq::<u64>::empty().push(g.spec_board()@.hash),
            g.spec_positions() == Seq::<Seq<Color>>::empty().push(g.spec_board()@.colors@),
            g.spec_main_time() == 0,
            g.spec_byo_time() == 30,
            g.spec_byo_stones() == 1,
            g.spec_byo_stones_remaining() == 1,
    {
        let board = Board::new(size, komi, ruleset);
        let mut hashes: Vec<u64> = Vec::new();
        hashes.push(board.hash());
        proof {
            board.lemma_wf();
        }
        let positions: Ghost<Seq<Seq<Color>>> = Ghost(
            Seq::<Seq<Color>>::empty().push(board@.colors@),
        );
        Game {
            positions,
            board: board,
            move_number: 0,
            previous_boards_hashes: hashes,
            main_time: 0,
            byo_time: 30,
            byo_stones: 1,
            byo_stones_remaining: 1,
        }
    }

    /// Plays a move. The answer is a new game, or the rule that the move
    /// breaks. The count of moves goes round after 255.
    pub fn play(&self, m: Move) -> (res: Result<Game, IllegalMove>)
        requires
            self.wf(),
            m.spec_color() != Color::Empty,
        ensures
            res is Err <==> self.spec_refusal(m) is Some,
            res matches Err(e) ==> self.spec_refusal(m) == Some(e),
            res matches Ok(g) ==> g.follows(self, m),
    {
        if self.board.is_game_over() {
            return Err(IllegalMove::GameAlreadyOver);
        }
        match self.board.play(m) {
            Ok(new_board) => {
                let mut hashes = self.previous_boards_hashes.clone();
                let mut positions: Ghost<Seq<Seq<Color>>> = Ghost(self.positions@);
                proof {
                    new_board.lemma_wf();
                    self.board.lemma_wf();
                }
                if !m.is_pass() {
                    let hash: u64 = self.compute_hash(&new_board);
                    if recorded(&hashes, hash) {
                        return Err(IllegalMove::SuperKoRuleBroken);
                    }
                    hashes.push(hash);
                    proof {
                        positions@ = positions@.push(new_board@.colors@);
                    }
                }
                let remaining: i32 = if self.byo_stones_remaining == 1 {
                    self.byo_stones
                } else {
                    self.byo_stones_remaining - 1
                };
                let g = Game {
                    board: new_board,
                    move_number: self.move_number.wrapping_add(1),
                    previous_boards_hashes: hashes,
                    main_time: self.main_time,
                    byo_time: self.byo_time,
                    byo_stones: self.byo_stones,
                    byo_stones_remaining: remaining,
                    positions,
                };
                Ok(g)
            },
            Err(e) => Err(e),
        }
    }

    /// The hash of the position that a move led to, as the board keeps it.
    fn compute_hash(&self, after: &Board) -> (hash: u64)
        ensures
            hash == after@.hash,
    {
        after.hash()
    }

    /// A stone that would bring back a position of the game is refused for
    /// superko, provided the game is not over and the board has nothing
    /// against the stone.
    pub proof fn lemma_superko(&self, m: Move, i: int)
        requires
            self.wf(),
            m is Play,
            !self.spec_board().spec_is_game_over(),
            self.spec_board().spec_refusal(m) is None,
            0 <= i < self.spec_positions().len(),
            self.spec_positions()[i] == self.spec_board().spec_grid_after(m),
        ensures
            self.spec_refusal(m) == Some(IllegalMove::SuperKoRuleBroken),
    {
        assert(self.spec_hashes()[i] == self.spec_board().spec_hash_after(m));
    }

    /// The colour of the point with the given column and row, both counted from 1.
    pub fn get(&self, col: u8, row: u8) -> (color: Color)
        requires
            self.wf(),
            (Coord { col, row }).inside(self.spec_board()@.size),
        ensures
            color == self.spec_board()@.color_at(Coord { col, row }),
    {
        self.board.color(&Coord::new(col, row))
    }

    pub fn ruleset(&self) -> (r: Ruleset)
        ensures
            r == self.spec_board().spec_ruleset(),
    {
        self.board.ruleset()
    }

    /// The number of moves played, counted round after 255.
    pub fn move_number(&self) -> (n: u8)
        ensures
            n == self.spec_move_number(),
    {
        self.move_number
    }

    /// Whether the last two moves were passes.
    pub fn is_over(&self) -> (over: bool)
        ensures
            over == self.spec_board().spec_is_game_over(),
    {
        self.board.is_game_over()
    }

    pub fn komi(&self) -> (k: Komi)
        ensures
            k == self.spec_board().spec_komi(),
    {
        self.board.komi()
    }

    pub fn main_time(&self) -> (t: u64)
        ensures
            t == self.spec_main_time(),
    {
        self.main_time
    }

    pub fn byo_time(&self) -> (t: u64)
        ensures
            t == self.spec_byo_time(),
    {
        self.byo_time
    }

    pub fn byo_stones(&self) -> (n: i32)
        ensures
            n == self.spec_byo_stones(),
    {
        self.byo_stones
    }

    pub fn size(&self) -> (s: u8)
        ensures
            s == self.spec_board()@.size,
    {
        self.board.size()
    }

    pub fn board_size(&self) -> (s: u8)
        ensures
            s == self.spec_board()@.size,
    {
        self.board.size()
    }

    /// A copy of the board.
    pub fn board(&self) -> (b: Board)
        ensures
            b.same_as(&self.spec_board()),
    {
        self.board.clone()
    }

    /// The colour whose turn it is.
    pub fn next_player(&self) -> (c: Color)
        ensures
            c == self.spec_board().spec_next_player(),
    {
        self.board.next_player()
    }

    /// The moves that the board gives as legal. The board knows nothing of
    /// the history: a stone listed here may still be refused for superko.
    pub fn legal_moves(&self) -> (moves: Vec<Move>)
        requires
            self.wf(),
        ensures
            moves@ == self.spec_board().spec_legal_moves(),
    {
        self.board.legal_moves()
    }

    /// The count of the position by area.
    pub fn score(&self) -> (s: Score)
        requires
            self.wf(),
        ensures
            s == self.spec_board().spec_score(),
    {
        self.board.score()
    }

    /// The colour that the count gives the game to, `Empty` for a draw.
    pub fn winner(&self) -> (c: Color)
        requires
            self.wf(),
        ensures
            c == self.spec_board().spec_winner(),
    {
        self.board.winner()
    }

    /// What a setting leaves as it is: the board but for its komi, the count
    /// of moves and the history.
    pub open spec fn same_play(&self, before: &Game) -> bool {
        &&& before.wf() ==> self.wf()
        &&& self.spec_board()@ == before.spec_board()@
        &&& self.spec_board().spec_ruleset() == before.spec_board().spec_ruleset()
        &&& self.spec_board().spec_table() == before.spec_board().spec_table()
        &&& self.spec_board().spec_previous_player() == before.spec_board().spec_previous_player()
        &&& self.spec_board().spec_passes() == before.spec_board().spec_passes()
        &&& self.spec_move_number() == before.spec_move_number()
        &&& self.spec_hashes() == before.spec_hashes()
        &&& self.spec_positions() == before.spec_positions()
    }

    pub fn set_komi(&mut self, komi: Komi)
        ensures
            final(self).spec_board().spec_komi() == komi,
            final(self).same_play(old(self)),
            final(self).spec_main_time() == old(self).spec_main_time(),
            final(self).spec_byo_time() == old(self).spec_byo_time(),
            final(self).spec_byo_stones() == old(self).spec_byo_stones(),
            final(self).spec_byo_stones_remaining() == old(self).spec_byo_stones_remaining(),
    {
        self.board.set_komi(komi);
    }

    /// Sets the main time, in milliseconds.
    pub fn set_main_time(&mut self, time: u64)
        ensures
            final(self).spec_main_time() == time,
            final(self).same_play(old(self)),
            final(self).spec_board().spec_komi() == old(self).spec_board().spec_komi(),
            final(self).spec_byo_time() == old(self).spec_byo_time(),
            final(self).spec_byo_stones() == old(self).spec_byo_stones(),
            final(self).spec_byo_stones_remaining() == old(self).spec_byo_stones_remaining(),
    {
        self.main_time = time
    }

    /// Sets the time of a byo-yomi period, in milliseconds.
    pub fn set_byo_time(&mut self, time: u64)
        ensures
            final(self).spec_byo_time() == time,
            final(self).same_play(old(self)),
            final(self).spec_board().spec_komi() == old(self).spec_board().spec_komi(),
            final(self).spec_main_time() == old(self).spec_main_time(),
            final(self).spec_byo_stones() == old(self).spec_byo_stones(),
            final(self).spec_byo_stones_remaining() == old(self).spec_byo_stones_remaining(),
    {
        self.byo_time = time;
    }

    /// Sets the stones of a byo-yomi period, 1 at least, and starts a period.
    pub fn set_byo_stones(&mut self, stones: i32)
        ensures
            final(self).spec_byo_stones() == if stones < 1 {
                1
            } else {
                stones
            },
            final(self).spec_byo_stones_remaining() == final(self).spec_byo_stones(),
            final(self).same_play(old(self)),
            final(self).spec_board().spec_komi() == old(self).spec_board().spec_komi(),
            final(self).spec_main_time() == old(self).spec_main_time(),
            final(self).spec_byo_time() == old(self).spec_byo_time(),
    {
        let actual: i32 = if stones < 1 {
            1
        } else {
            stones
        };
        self.byo_stones = actual;
        self.byo_stones_remaining = actual;
    }

    /// The numbers of the first `n` columns as text, each in a width of 2.
    pub open spec fn spec_columns_text(n: nat) -> Seq<char>
        decreases n,
    {
        if n == 0 {
            Seq::empty()
        } else {
            Game::spec_columns_text((n - 1) as nat) + pad_right(decimal(n), 2)
        }
    }

    /// The game as text: the komi, the board, and under it the numbers of
    /// the columns.
    pub open spec fn spec_text(&self) -> Seq<char> {
        "komi: "@ + self.spec_board().spec_komi().spec_text() + "\n"@
            + self.spec_board().spec_as_string() + "   "@ + Game::spec_columns_text(
            self.spec_board()@.size as nat,
        ) + "\n"@
    }

    pub fn text(&self) -> (s: String)
        requires
            self.wf(),
        ensures
            s@ == self.spec_text(),
    {
        let mut out: Vec<char> = Vec::new();
        push_word(&mut out, "komi: ");
        let komi: String = self.board.komi().text();
        push_word(&mut out, komi.as_str());
        push_word(&mut out, "\n");
        let drawn: String = self.board.as_string();
        push_word(&mut out, drawn.as_str());
        push_word(&mut out, "   ");
        let ghost head = out@;
        let size: u8 = self.board.size();
        let mut col: u8 = 0;
        while col < size
            invariant
                col <= size,
                out@ == head + Game::spec_columns_text(col as nat),
            decreases size - col,
        {
            col += 1;
            push_padded(&mut out, col as usize, 2, true);
        }
        push_word(&mut out, "\n");
        to_string(&out)
    }
}

} // verus!
