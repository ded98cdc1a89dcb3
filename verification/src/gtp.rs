//! The Go text protocol: a line of text is read as a request, and the
//! request is carried out on the game of the interpreter.

use vstd::prelude::*;
use crate::color::Color;
use crate::coord::Coord;
use crate::engine::Engine;
use crate::game::Game;
use crate::gomove::Move;
use crate::ruleset::Ruleset;
use crate::score::{parse_komi, spec_parse_komi, Komi};
use crate::text::{
    find, is_word, parse_u8, push_word, spec_find,
    spec_parse_u8, to_chars, to_string, trim, trimmed,
};

verus! {

/// What a line of the protocol was answered with.
#[derive(Debug)]
pub enum Command {
    Play,
    PlayError(Move),
    GenMove(String),
    GenMoveError(Move),
    ProtocolVersion,
    Name,
    Version,
    KnownCommand(bool),
    ListCommands(String),
    Quit,
    BoardSize,
    ClearBoard,
    Komi,
    ShowBoard(String),
    Empty,
    Error,
    FinalScore(String),
}

/// What a line of the protocol asks for.
#[derive(Clone, Copy, Debug, PartialEq, Eq, Structural)]
pub enum Request {
    Empty,
    Name,
    Version,
    ProtocolVersion,
    ListCommands,
    KnownCommand(bool),
    BoardSize(u8),
    ClearBoard,
    Komi(Komi),
    GenMove(Color),
    Play(Move),
    ShowBoard,
    Quit,
    FinalScore,
    Error,
}

/// A character that a line keeps: the tab, the line feed, and every
/// character that is no control character.
pub open spec fn is_kept(c: char) -> bool {
    let u = c as u32;
    u == 9 || u == 10 || (u > 31 && u != 127)
}

/// Those of the first `n` characters that a line keeps.
pub open spec fn kept(s: Seq<char>, n: nat) -> Seq<char>
    decreases n,
{
    if n == 0 {
        Seq::empty()
    } else if is_kept(s[n - 1]) {
        kept(s, (n - 1) as nat).push(s[n - 1])
    } else {
        kept(s, (n - 1) as nat)
    }
}

/// A text with a space in the place of each tab.
pub open spec fn untabbed(s: Seq<char>) -> Seq<char> {
    Seq::new(
        s.len(),
        |i: int|
            if s[i] == '\t' {
                ' '
            } else {
                s[i]
            },
    )
}

/// A line made ready: the control characters but tab and line feed are
/// dropped, what follows the first `#` is cut off with it, tabs become
/// spaces, and the white space at the two ends is taken off.
pub open spec fn preprocessed(s: Seq<char>) -> Seq<char> {
    let clean = kept(s, s.len());
    let said = clean.subrange(0, spec_find(clean, '#', 0));
    trimmed(untabbed(said))
}

/// Makes a line ready to be read.
pub fn preprocess(input: &str) -> (out: Vec<char>)
    ensures
        out@ == preprocessed(input@),
{
    let text: Vec<char> = to_chars(input);
    let mut clean: Vec<char> = Vec::new();
    let mut i: usize = 0;
    while i < text.len()
        invariant
            i <= text@.len(),
            clean@ == kept(text@, i as nat),
        decreases text@.len() - i,
    {
        let c: char = text[i];
        let u: u32 = c as u32;
        if u == 9 || u == 10 || (u > 31 && u != 127) {
            clean.push(c);
        }
        i += 1;
    }
    let cut: usize = find(&clean, '#', 0);
    let mut said: Vec<char> = Vec::new();
    let mut j: usize = 0;
    while j < cut
        invariant
            j <= cut <= clean@.len(),
            said@.len() == j,
            forall|k: int|
                0 <= k < j ==> said@[k] == if clean@[k] == '\t' {
                    ' '
                } else {
                    clean@[k]
                },
        decreases cut - j,
    {
        let c: char = clean[j];
        if c == '\t' {
            said.push(' ');
        } else {
            said.push(c);
        }
        j += 1;
    }
    assert(said@ =~= untabbed(clean@.subrange(0, cut as int)));
    trim(&said)
}

/// The pieces of the first `n` characters that single spaces part; the last
/// piece is still open.
pub open spec fn fields_upto(s: Seq<char>, n: nat) -> Seq<Seq<char>>
    decreases n,
{
    if n == 0 {
        seq![Seq::<char>::empty()]
    } else {
        let before = fields_upto(s, (n - 1) as nat);
        if s[n - 1] == ' ' {
            before.push(Seq::<char>::empty())
        } else {
            before.update(before.len() - 1, before.last().push(s[n - 1]))
        }
    }
}

/// The pieces of a text that single spaces part. Two spaces in a row part
/// an empty piece.
pub open spec fn fields(s: Seq<char>) -> Seq<Seq<char>> {
    fields_upto(s, s.len())
}

/// The texts of a list.
pub open spec fn texts(list: Seq<Vec<char>>) -> Seq<Seq<char>> {
    Seq::new(list.len(), |k: int| list[k]@)
}

/// There is always one piece at least.
pub proof fn lemma_fields(s: Seq<char>, n: nat)
    ensures
        fields_upto(s, n).len() >= 1,
    decreases n,
{
    if n > 0 {
        lemma_fields(s, (n - 1) as nat);
    }
}

/// Parts a text at its single spaces.
pub fn split(text: &Vec<char>) -> (pieces: Vec<Vec<char>>)
    ensures
        texts(pieces@) == fields(text@),
        pieces@.len() >= 1,
{
    let mut done: Vec<Vec<char>> = Vec::new();
    let mut cur: Vec<char> = Vec::new();
    let mut i: usize = 0;
    while i < text.len()
        invariant
            i <= text@.len(),
            texts(done@).push(cur@) == fields_upto(text@, i as nat),
        decreases text@.len() - i,
    {
        let c: char = text[i];
        let ghost before = fields_upto(text@, i as nat);
        if c == ' ' {
            done.push(cur);
            cur = Vec::new();
        } else {
            cur.push(c);
            assert(texts(done@).push(cur@) =~= before.update(
                before.len() - 1,
                before.last().push(c),
            ));
        }
        i += 1;
    }
    done.push(cur);
    done
}

/// The names of the commands that the interpreter knows.
pub open spec fn spec_known_commands() -> Seq<Seq<char>> {
    seq![
        "play"@,
        "genmove"@,
        "protocol_version"@,
        "name"@,
        "version"@,
        "known_command"@,
        "list_commands"@,
        "quit"@,
        "boardsize"@,
        "clear_board"@,
        "komi"@,
        "showboard"@,
        "final_score"@,
    ]
}

/// The views of the strings of a list.
pub open spec fn names(list: Seq<String>) -> Seq<Seq<char>> {
    Seq::new(list.len(), |k: int| list[k]@)
}

pub fn generate_known_commands() -> (known: Vec<String>)
    ensures
        names(known@) == spec_known_commands(),
{
    let mut known_commands: Vec<String> = Vec::new();
    known_commands.push("play".to_owned());
    known_commands.push("genmove".to_owned());
    known_commands.push("protocol_version".to_owned());
    known_commands.push("name".to_owned());
    known_commands.push("version".to_owned());
    known_commands.push("known_command".to_owned());
    known_commands.push("list_commands".to_owned());
    known_commands.push("quit".to_owned());
    known_commands.push("boardsize".to_owned());
    known_commands.push("clear_board".to_owned());
    known_commands.push("komi".to_owned());
    known_commands.push("showboard".to_owned());
    known_commands.push("final_score".to_owned());
    known_commands
}

/// Whether a word is among the names of a list.
pub fn knows(known: &Vec<String>, word: &Vec<char>) -> (found: bool)
    ensures
        found == names(known@).contains(word@),
{
    let mut i: usize = 0;
    while i < known.len()
        invariant
            i <= known@.len(),
            forall|j: int| 0 <= j < i ==> names(known@)[j] != word@,
        decreases known@.len() - i,
    {
        if is_word(word, known[i].as_str()) {
            assert(names(known@)[i as int] == word@);
            return true;
        }
        i += 1;
    }
    false
}

/// What a line asks for. The first piece of the line made ready names the
/// command, and the pieces after it are its arguments; an unknown command,
/// a lacking argument or an argument that cannot be read is an error.
pub open spec fn spec_parse(line: Seq<char>) -> Request {
    let p = preprocessed(line);
    let f = fields(p);
    let w = f[0];
    if p.len() == 0 {
        Request::Empty
    } else if w == "name"@ {
        Request::Name
    } else if w == "version"@ {
        Request::Version
    } else if w == "protocol_version"@ {
        Request::ProtocolVersion
    } else if w == "list_commands"@ {
        Request::ListCommands
    } else if w == "known_command"@ {
        if f.len() > 1 {
            Request::KnownCommand(spec_known_commands().contains(f[1]))
        } else {
            Request::Error
        }
    } else if w == "boardsize"@ {
        if f.len() > 1 && spec_parse_u8(f[1]) is Some {
            Request::BoardSize(spec_parse_u8(f[1]).unwrap())
        } else {
            Request::Error
        }
    } else if w == "clear_board"@ {
        Request::ClearBoard
    } else if w == "komi"@ {
        if f.len() > 1 && spec_parse_komi(f[1]) is Some {
            Request::Komi(spec_parse_komi(f[1]).unwrap())
        } else {
            Request::Error
        }
    } else if w == "genmove"@ {
        if f.len() > 1 && Color::spec_from_gtp(f[1]) is Some {
            Request::GenMove(Color::spec_from_gtp(f[1]).unwrap())
        } else {
            Request::Error
        }
    } else if w == "play"@ {
        if f.len() > 2 && Move::spec_from_gtp(f[1], f[2]) is Some {
            Request::Play(Move::spec_from_gtp(f[1], f[2]).unwrap())
        } else {
            Request::Error
        }
    } else if w == "showboard"@ {
        Request::ShowBoard
    } else if w == "quit"@ {
        Request::Quit
    } else if w == "final_score"@ {
        Request::FinalScore
    } else {
        Request::Error
    }
}

/// Reads a line as a request.
pub fn parse(input: &str) -> (request: Request)
    ensures
        request == spec_parse(input@),
{
    let line: Vec<char> = preprocess(input);
    if line.len() == 0 {
        return Request::Empty;
    }
    let f: Vec<Vec<char>> = split(&line);
    let w: &Vec<char> = &f[0];
    if is_word(w, "name") {
        Request::Name
    } else if is_word(w, "version") {
        Request::Version
    } else if is_word(w, "protocol_version") {
        Request::ProtocolVersion
    } else if is_word(w, "list_commands") {
        Request::ListCommands
    } else if is_word(w, "known_command") {
        if f.len() > 1 {
            let known: Vec<String> = generate_known_commands();
            Request::KnownCommand(knows(&known, &f[1]))
        } else {
            Request::Error
        }
    } else if is_word(w, "boardsize") {
        if f.len() > 1 {
            match parse_u8(&f[1]) {
                Some(size) => Request::BoardSize(size),
                None => Request::Error,
            }
        } else {
            Request::Error
        }
    } else if is_word(w, "clear_board") {
        Request::ClearBoard
    } else if is_word(w, "komi") {
        if f.len() > 1 {
            match parse_komi(&f[1]) {
                Some(komi) => Request::Komi(komi),
                None => Request::Error,
            }
        } else {
            Request::Error
        }
    } else if is_word(w, "genmove") {
        if f.len() > 1 {
            match Color::from_gtp_text(&f[1]) {
                Some(color) => Request::GenMove(color),
                None => Request::Error,
            }
        } else {
            Request::Error
        }
    } else if is_word(w, "play") {
        if f.len() > 2 {
            match Move::from_gtp_text(&f[1], &f[2]) {
                Some(m) => Request::Play(m),
                None => Request::Error,
            }
        } else {
            Request::Error
        }
    } else if is_word(w, "showboard") {
        Request::ShowBoard
    } else if is_word(w, "quit") {
        Request::Quit
    } else if is_word(w, "final_score") {
        Request::FinalScore
    } else {
        Request::Error
    }
}

/// The first `n` names, each but the first after a line feed.
pub open spec fn listed(list: Seq<Seq<char>>, n: nat) -> Seq<char>
    decreases n,
{
    if n == 0 {
        Seq::empty()
    } else if n == 1 {
        list[0]
    } else {
        listed(list, (n - 1) as nat) + "\n"@ + list[n - 1]
    }
}

/// The interpreter of the protocol: a game, the engine that plays it, and
/// the names of the commands.
pub struct GTPInterpreter<E: Engine> {
    known_commands: Vec<String>,
    game: Game,
    engine: E,
}

impl<E: Engine> GTPInterpreter<E> {
    pub closed spec fn spec_game(&self) -> Game {
        self.game
    }

    pub closed spec fn spec_known(&self) -> Seq<Seq<char>> {
        names(self.known_commands@)
    }

    pub closed spec fn spec_engine(&self) -> E {
        self.engine
    }

    /// The game of the interpreter is consistent, and the commands are
    /// those that the interpreter knows.
    pub open spec fn wf(&self) -> bool {
        &&& self.spec_game().wf()
        &&& self.spec_known() == spec_known_commands()
    }

    /// A game that has just begun on the empty board of the given size with
    /// the given komi, under the rules with any board size and no suicide.
    pub open spec fn fresh(game: Game, size: u8, komi: Komi) -> bool {
        &&& game.wf()
        &&& game.spec_board()@.size == size
        &&& game.spec_board().spec_komi() == komi
        &&& game.spec_board().spec_ruleset() == Ruleset::spec_kgs_chinese()
        &&& game.spec_board().spec_passes() == 0
        &&& game.spec_board().spec_previous_player() == Color::White
        &&& forall|c: Coord| c.inside(size) ==> game.spec_board()@.color_at(c) == Color::Empty
        &&& game.spec_move_number() == 0
        &&& game.spec_hashes().len() == 1
    }

    /// An interpreter with a new game on the board of 19 lines and a komi
    /// of 6.5.
    pub fn new(engine: E) -> (interpreter: GTPInterpreter<E>)
        ensures
            interpreter.wf(),
            interpreter.spec_engine() == engine,
            GTPInterpreter::<E>::fresh(interpreter.spec_game(), 19, Komi { half_points: 13 }),
    {
        let komi = Komi::from_half_points(13);
        let boardsize: u8 = 19;
        let mut interpreter = GTPInterpreter {
            known_commands: Vec::new(),
            game: Game::new(boardsize, komi, Ruleset::kgs_chinese()),
            engine: engine,
        };
        interpreter.initialize();
        interpreter
    }

    fn initialize(&mut self)
        ensures
            final(self).spec_known() == spec_known_commands(),
            final(self).spec_game() == old(self).spec_game(),
            final(self).spec_engine() == old(self).spec_engine(),
    {
        self.known_commands = generate_known_commands();
    }

    pub fn game(&self) -> (game: &Game)
        ensures
            *game == self.spec_game(),
    {
        &self.game
    }

    pub fn komi(&self) -> (komi: Komi)
        ensures
            komi == self.spec_game().spec_board().spec_komi(),
    {
        self.game.komi()
    }

    pub fn boardsize(&self) -> (size: u8)
        ensures
            size == self.spec_game().spec_board()@.size,
    {
        self.game.size()
    }

    /// The names of the commands, one on each line.
    fn list_commands(&self) -> (result: String)
        ensures
            result@ == listed(self.spec_known(), self.spec_known().len()),
    {
        let mut out: Vec<char> = Vec::new();
        let mut i: usize = 0;
        while i < self.known_commands.len()
            invariant
                i <= self.known_commands@.len(),
                out@ == listed(names(self.known_commands@), i as nat),
            decreases self.known_commands@.len() - i,
        {
            if i > 0 {
                push_word(&mut out, "\n");
            }
            push_word(&mut out, self.known_commands[i].as_str());
            i += 1;
        }
        to_string(&out)
    }

    /// Whether the answer is the right one for the request, the game having
    /// been `before` and being `after`. A move comes to the game only where
    /// the game accepts it; a request that only asks leaves the game as it is.
    pub open spec fn answers(request: Request, before: Game, after: Game, answer: Command) -> bool {
        match request {
            Request::Empty => answer is Empty && after == before,
            Request::Name => answer is Name && after == before,
            Request::Version => answer is Version && after == before,
            Request::ProtocolVersion => answer is ProtocolVersion && after == before,
            Request::Quit => answer is Quit && after == before,
            Request::Error => answer is Error && after == before,
            Request::ListCommands => after == before && (answer matches Command::ListCommands(s)
                && s@ == listed(spec_known_commands(), spec_known_commands().len())),
            Request::KnownCommand(known) => after == before && (
            answer matches Command::KnownCommand(b) && b == known),
            Request::BoardSize(size) => answer is BoardSize && GTPInterpreter::<E>::fresh(
                after,
                size,
                before.spec_board().spec_komi(),
            ),
            Request::ClearBoard => answer is ClearBoard && GTPInterpreter::<E>::fresh(
                after,
                before.spec_board()@.size,
                before.spec_board().spec_komi(),
            ),
            Request::Komi(komi) => answer is Komi && after.same_play(&before)
                && after.spec_board().spec_komi() == komi,
            Request::ShowBoard => after == before && (answer matches Command::ShowBoard(s) && s@
                == "\n"@ + before.spec_text()),
            Request::FinalScore => after == before && (answer matches Command::FinalScore(s) && s@
                == before.spec_board().spec_score().spec_text()),
            Request::Play(m) => if m.spec_color() == Color::Empty {
                answer is Error && after == before
            } else if before.spec_refusal(m) is None {
                answer is Play && after.follows(&before, m)
            } else {
                after == before && (answer matches Command::PlayError(e) && e == m)
            },
            Request::GenMove(color) => if color == Color::Empty {
                answer is Error && after == before
            } else {
                exists|m: Move|
                    (m == Move::Pass(color) || before.spec_board().spec_legal_moves().contains(m))
                        && #[trigger] GTPInterpreter::<E>::moved(m, before, after, answer)
            },
        }
    }

    /// The answer to a request for a move, the engine having chosen `m`.
    pub open spec fn moved(m: Move, before: Game, after: Game, answer: Command) -> bool {
        if before.spec_refusal(m) is None {
            after.follows(&before, m) && (answer matches Command::GenMove(s) && s@
                == m.spec_to_gtp())
        } else {
            after == before && (answer matches Command::GenMoveError(e) && e == m)
        }
    }

    /// Carries out a request on the game and gives the answer.
    pub fn execute(&mut self, request: Request) -> (answer: Command)
        requires
            old(self).wf(),
        ensures
            final(self).wf(),
            final(self).spec_engine() == old(self).spec_engine(),
            GTPInterpreter::<E>::answers(
                request,
                old(self).spec_game(),
                final(self).spec_game(),
                answer,
            ),
    {
        match request {
            Request::Empty => Command::Empty,
            Request::Name => Command::Name,
            Request::Version => Command::Version,
            Request::ProtocolVersion => Command::ProtocolVersion,
            Request::Quit => Command::Quit,
            Request::Error => Command::Error,
            Request::ListCommands => Command::ListCommands(self.list_commands()),
            Request::KnownCommand(known) => Command::KnownCommand(known),
            Request::BoardSize(size) => {
                self.game = Game::new(size, self.komi(), Ruleset::kgs_chinese());
                Command::BoardSize
            },
            Request::ClearBoard => {
                self.game = Game::new(self.boardsize(), self.komi(), Ruleset::kgs_chinese());
                Command::ClearBoard
            },
            Request::Komi(komi) => {
                self.game.set_komi(komi);
                Command::Komi
            },
            Request::ShowBoard => {
                let mut out: Vec<char> = Vec::new();
                push_word(&mut out, "\n");
                let drawn: String = self.game.text();
                push_word(&mut out, drawn.as_str());
                Command::ShowBoard(to_string(&out))
            },
            Request::FinalScore => Command::FinalScore(self.game.score().text()),
            Request::Play(m) => {
                if !m.color().is_player() {
                    return Command::Error;
                }
                match self.game.play(m) {
                    Ok(g) => {
                        self.game = g;
                        Command::Play
                    },
                    Err(_) => Command::PlayError(m),
                }
            },
            Request::GenMove(color) => {
                if !color.is_player() {
                    return Command::Error;
                }
                let m: Move = self.engine.gen_move(color, &self.game);
                proof {
                    self.game.lemma_wf();
                    self.game.spec_board().lemma_wf();
                    self.game.spec_board().lemma_legal_moves(m);
                    crate::color::lemma_opposite_involutive(
                        self.game.spec_board().spec_previous_player(),
                    );
                }
                let ghost before = self.game;
                let answer = match self.game.play(m) {
                    Ok(g) => {
                        self.game = g;
                        Command::GenMove(m.to_gtp())
                    },
                    Err(_) => Command::GenMoveError(m),
                };
                assert(GTPInterpreter::<E>::moved(m, before, self.game, answer));
                answer
            },
        }
    }

    /// Reads a line and carries out what it asks for.
    pub fn read(&mut self, input: &str) -> (answer: Command)
        requires
            old(self).wf(),
        ensures
            final(self).wf(),
            final(self).spec_engine() == old(self).spec_engine(),
            GTPInterpreter::<E>::answers(
                spec_parse(input@),
                old(self).spec_game(),
                final(self).spec_game(),
                answer,
            ),
    {
        let request: Request = parse(input);
        self.execute(request)
    }
}

} // verus!
