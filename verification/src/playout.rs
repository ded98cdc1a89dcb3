//! A playout: random legal moves from a position until the game ends, and
//! the colour that the final position goes to.

use vstd::prelude::*;
use crate::board::Board;
use crate::color::Color;
use crate::coord::{area, lemma_area_bound};
use crate::gomove::Move;
use crate::rng::{below, thread_rng};

verus! {

/// A position from which random games are played out. The position itself
/// is never changed.
pub struct Playout {
    board: Board,
}

/// The greatest number of moves of a playout on a board of the given size:
/// three moves for each point.
pub open spec fn ply_cap(size: u8) -> int {
    3 * area(size)
}

/// The game goes on from the board at place `i` of the line to the next by
/// one of its legal moves.
pub open spec fn goes_on(line: Seq<Board>, i: int) -> bool {
    &&& !line[i].spec_is_game_over()
    &&& exists|r: int|
        0 <= r < line[i].spec_legal_moves().len() && line[i + 1].follows(
            &line[i],
            #[trigger] line[i].spec_legal_moves()[r],
        )
}

/// The line is a playout from `start`: it begins there, every board but the
/// last leads to the next by a legal move, and the last board is over or the
/// greatest number of moves has been played.
pub open spec fn played_out(start: Board, line: Seq<Board>) -> bool {
    &&& line.len() >= 1
    &&& line[0] == start
    &&& line.len() <= ply_cap(start@.size) + 1
    &&& forall|i: int| 0 <= i < line.len() - 1 ==> #[trigger] goes_on(line, i)
    &&& line.last().spec_is_game_over() || line.len() == ply_cap(start@.size) + 1
}

/// Every board of a playout has the size and the komi of the first, and is
/// consistent where the first is.
pub proof fn lemma_line_keeps(start: Board, line: Seq<Board>, i: int)
    requires
        start.wf(),
        played_out(start, line),
        0 <= i < line.len(),
    ensures
        line[i].wf(),
        line[i]@.size == start@.size,
        line[i].spec_komi() == start.spec_komi(),
    decreases i,
{
    if i > 0 {
        lemma_line_keeps(start, line, i - 1);
        assert(goes_on(line, i - 1));
    }
}

/// Where the komi is more than twice the points of the board, every playout
/// goes to White.
pub proof fn lemma_white_by_komi(start: Board, line: Seq<Board>)
    requires
        start.wf(),
        played_out(start, line),
        start.spec_komi().half_points > 2 * area(start@.size),
    ensures
        line.last().spec_winner() == Color::White,
{
    lemma_line_keeps(start, line, line.len() - 1);
    line.last().lemma_white_by_komi();
}

/// The board after the move at place `r` of the legal moves.
pub fn advance(board: &Board, moves: &Vec<Move>, r: usize) -> (next: Board)
    requires
        board.wf(),
        moves@ == board.spec_legal_moves(),
        r < moves@.len(),
    ensures
        next.follows(board, moves@[r as int]),
{
    let m: Move = moves[r];
    proof {
        board.lemma_wf();
        board.lemma_legal_moves(m);
        crate::color::lemma_opposite_involutive(board.spec_previous_player());
    }
    match board.play(m) {
        Ok(next) => next,
        Err(_) => {
            board.clone()
        },
    }
}

impl Playout {
    pub closed spec fn spec_board(&self) -> Board {
        self.board
    }

    pub fn new(board: Board) -> (p: Playout)
        ensures
            p.spec_board() == board,
    {
        Playout { board }
    }

    /// Plays random legal moves, the pass among them, for the two colours in
    /// turn until two passes follow each other or three moves for each point
    /// of the board have been played, and returns the colour that the count
    /// of the last position gives the game to, `Empty` for a draw.
    pub fn run(&self) -> (winner: Color)
        requires
            self.spec_board().wf(),
        ensures
            exists|line: Seq<Board>| #[trigger]
                played_out(self.spec_board(), line) && winner == line.last().spec_winner(),
    {
        let size: u8 = self.board.size();
        let n: usize = size as usize;
        proof {
            lemma_area_bound(size);
        }
        assert(n * n == area(size)) by (nonlinear_arith)
            requires
                n == size,
        ;
        let cap: usize = 3 * (n * n);
        let mut rng = thread_rng();
        let mut current: Option<Board> = None;
        let mut plies: usize = 0;
        let ghost mut line: Seq<Board> = Seq::<Board>::empty().push(self.board);
        loop
            invariant
                self.spec_board().wf(),
                size == self.spec_board()@.size,
                cap == ply_cap(size),
                plies <= cap,
                line.len() == plies + 1,
                line[0] == self.spec_board(),
                forall|i: int| 0 <= i < line.len() - 1 ==> #[trigger] goes_on(line, i),
                line.last() == match current {
                    Some(b) => b,
                    None => self.spec_board(),
                },
                line.last().wf(),
                line.last()@.size == size,
            decreases cap - plies,
        {
            let board: &Board = match &current {
                Some(b) => b,
                None => &self.board,
            };
            if board.is_game_over() || plies >= cap {
                let winner: Color = board.winner();
                proof {
                    assert(played_out(self.spec_board(), line));
                }
                return winner;
            }
            let moves: Vec<Move> = board.legal_moves();
            let r: usize = below(&mut rng, moves.len());
            let next: Board = advance(board, &moves, r);
            proof {
                let before = line;
                line = line.push(next);
                assert forall|i: int| 0 <= i < line.len() - 1 implies #[trigger] goes_on(
                    line,
                    i,
                ) by {
                    if i < before.len() - 1 {
                        assert(goes_on(before, i));
                    } else {
                        assert(line[i] == before.last());
                    }
                }
            }
            current = Some(next);
            plies += 1;
        }
    }
}

} // verus!
