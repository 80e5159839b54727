//! The commands of the engine protocol that change or search a position:
//! lists of moves in long algebraic text, `position` and `go`.
use vstd::prelude::*;
use vstd::string::StringExecFns;
use vstd::string::StringSliceAdditionalSpecFns;
use crate::bitboard::Side;
use crate::chessboard::ChessBoard;
use crate::chessmove::{ChessMove, MovesArray};
use crate::fen::{counter_of, fields_outcome, parse_counter, split_fields, tokens, views, FenFields};
use crate::movegen::capped;
use crate::search::MAX_DEPTH;
use crate::setup::{initial_entry, FenError};
use crate::tables::AttackTables;
use crate::transition::lemma_position_determined;

verus! {

/// The bytes of the text of a move.
pub open spec fn text_bytes(m: ChessMove) -> Seq<u8> {
    Seq::new(m.text().len(), |k: int| m.text()[k] as u8)
}

/// The first move from position `i` on whose text is `word`.
pub open spec fn find_move(moves: Seq<ChessMove>, word: Seq<u8>, i: int) -> Option<ChessMove>
    decreases moves.len() - i,
{
    if i < 0 || i >= moves.len() {
        None
    } else if text_bytes(moves[i]) == word {
        Some(moves[i])
    } else {
        find_move(moves, word, i + 1)
    }
}

/// The word `startpos`.
pub open spec fn word_startpos() -> Seq<u8> {
    seq![115u8, 116u8, 97u8, 114u8, 116u8, 112u8, 111u8, 115u8]
}

/// The word `fen`.
pub open spec fn word_fen() -> Seq<u8> {
    seq![102u8, 101u8, 110u8]
}

/// The word `FEN`.
pub open spec fn word_fen_upper() -> Seq<u8> {
    seq![70u8, 69u8, 78u8]
}

/// The word `depth`.
pub open spec fn word_depth() -> Seq<u8> {
    seq![100u8, 101u8, 112u8, 116u8, 104u8]
}

/// Why a `go` command gives no move.
#[derive(Debug, Copy, Clone, PartialEq, Eq, Structural)]
pub enum GoError {
    /// `depth` is not followed by a number that a search can take.
    InvalidDepth,
    /// The search names no move.
    NoMove,
}

/// Whether two byte strings are equal.
pub fn same_bytes(a: &[u8], b: &[u8]) -> (r: bool)
    ensures
        r == (a@ == b@),
{
    if a.len() != b.len() {
        return false;
    }
    let mut i: usize = 0;
    while i < a.len()
        invariant
            i <= a.len(),
            a.len() == b.len(),
            forall|k: int| 0 <= k < i ==> a@[k] == b@[k],
        decreases a.len() - i,
    {
        if a[i] != b[i] {
            return false;
        }
        i += 1;
    }
    assert(a@ =~= b@);
    true
}

impl ChessMove {
    /// The bytes of the text of the move.
    pub fn text_vec(&self) -> (r: Vec<u8>)
        ensures
            r@ == text_bytes(*self),
    {
        let mut v: Vec<u8> = Vec::new();
        let source = self.source();
        let target = self.target();
        v.push(crate::chessmove::file_char(source) as u8);
        v.push(crate::chessmove::rank_char(source) as u8);
        v.push(crate::chessmove::file_char(target) as u8);
        v.push(crate::chessmove::rank_char(target) as u8);
        match self.piece() {
            Some(p) => {
                v.push(p.to_char() as u8);
            },
            None => {},
        }
        assert(v@ =~= text_bytes(*self));
        v
    }
}

/// The first move of the list whose text is `word`.
pub fn pick_move(arr: &MovesArray, word: &[u8]) -> (r: Option<ChessMove>)
    requires
        arr.wf(),
    ensures
        r == find_move(arr@, word@, 0),
{
    let mut i: usize = 0;
    while i < arr.len()
        invariant
            arr.wf(),
            i <= arr@.len(),
            find_move(arr@, word@, i as int) == find_move(arr@, word@, 0),
        decreases arr@.len() - i,
    {
        let m = arr.get(i);
        let text = m.text_vec();
        if same_bytes(text.as_slice(), word) {
            return Some(m);
        }
        i += 1;
    }
    None
}

/// `b` is the starting position.
pub open spec fn is_start(b: ChessBoard) -> bool {
    &&& b.wf()
    &&& forall|s: int| 0 <= s < 64 ==> #[trigger] b.mailbox[s] == initial_entry(s)
    &&& b.castle_bools@ == seq![true, true, true, true]
    &&& b.enpassant_bb.data == 0
    &&& b.side_to_move == Side::White
    &&& b.half_move_clock == 0
    &&& b.full_move_counter == 1
}

/// The starting position.
pub open spec fn start_position() -> ChessBoard {
    choose|b: ChessBoard| is_start(b)
}

/// The position that the fields of a text describe.
pub open spec fn board_of(f: FenFields) -> ChessBoard {
    choose|b: ChessBoard| b.wf() && b.shows(f)
}

impl ChessBoard {
    /// The position after the move that `word` names, if a legal move has
    /// that text; else the position itself.
    pub open spec fn after_move_word(&self, word: Seq<u8>) -> ChessBoard {
        match find_move(capped(self.legal_moves()), word, 0) {
            Some(m) => self.successor(m),
            None => *self,
        }
    }

    /// The position after one word of a list of moves: `startpos` sets up
    /// the starting position, the text of a legal move plays it, and any
    /// other word changes nothing.
    pub open spec fn after_word(&self, word: Seq<u8>) -> ChessBoard {
        if word == word_startpos() {
            start_position()
        } else {
            self.after_move_word(word)
        }
    }

    /// The position after the words from position `i` on.
    pub open spec fn after_words(&self, words: Seq<Seq<u8>>, i: int) -> ChessBoard
        decreases words.len() - i,
    {
        if i < 0 || i >= words.len() {
            *self
        } else {
            self.after_word(words[i]).after_words(words, i + 1)
        }
    }

    /// The position that a `position` command leaves, reading its words
    /// from position `i` on: `startpos` sets up the starting position;
    /// `fen` (or `FEN`) sets up the position that the six words after it
    /// describe, or the starting position when it is the last word; the
    /// text of a legal move plays it; any other word changes nothing.
    pub open spec fn after_position_words(&self, words: Seq<Seq<u8>>, i: int) -> Result<
        ChessBoard,
        FenError,
    >
        decreases words.len() - i,
    {
        if i < 0 || i >= words.len() {
            Ok(*self)
        } else if words[i] == word_startpos() {
            start_position().after_position_words(words, i + 1)
        } else if words[i] == word_fen() || words[i] == word_fen_upper() {
            if i + 1 >= words.len() {
                Ok(start_position())
            } else if words.len() - i < 7 {
                Err(FenError::FieldCount)
            } else {
                match fields_outcome(words.subrange(i + 1, i + 7)) {
                    Err(e) => Err(e),
                    Ok(f) => board_of(f).after_position_words(words, i + 7),
                }
            }
        } else {
            self.after_move_word(words[i]).after_position_words(words, i + 1)
        }
    }

    /// Plays the move that `word` names, if a legal move has that text.
    pub fn play_word(&mut self, tables: &AttackTables, word: &[u8])
        requires
            tables.wf(),
            old(self).wf(),
        ensures
            final(self).wf(),
            *final(self) == old(self).after_move_word(word@),
    {
        let moves = self.generate_moves(tables);
        proof {
            self.lemma_legal_moves_fine();
        }
        match pick_move(&moves, word) {
            Some(m) => {
                proof {
                    lemma_found_is_member(moves@, word@, 0);
                }
                *self = self.update_state(tables, m);
            },
            None => {},
        }
    }

    /// Plays a list of moves in long algebraic text, separated by white
    /// space. The word `startpos` sets up the starting position; a word
    /// that is not the text of a legal move is passed over.
    pub fn parse_uci_move(&mut self, tables: &AttackTables, moves_str: &str)
        requires
            tables.wf(),
            old(self).wf(),
        ensures
            final(self).wf(),
            *final(self) == old(self).after_words(tokens(moves_str.spec_bytes(), 0), 0),
    {
        let words = split_fields(moves_str.as_bytes());
        let ghost w = tokens(moves_str.spec_bytes(), 0);
        let startpos: [u8; 8] = [115, 116, 97, 114, 116, 112, 111, 115];
        assert(startpos@ =~= word_startpos());
        let mut i: usize = 0;
        while i < words.len()
            invariant
                tables.wf(),
                self.wf(),
                i <= words.len(),
                views(words@) == w,
                startpos@ == word_startpos(),
                self.after_words(w, i as int) == old(self).after_words(w, 0),
            decreases words.len() - i,
        {
            assert(words@[i as int]@ == w[i as int]);
            if same_bytes(words[i].as_slice(), startpos.as_slice()) {
                *self = ChessBoard::start();
            } else {
                self.play_word(tables, words[i].as_slice());
            }
            i += 1;
        }
    }

    /// Carries out the word at position `i` of a `position` command, and
    /// returns the position of the word to go on with.
    fn position_step(&mut self, tables: &AttackTables, words: &Vec<Vec<u8>>, i: usize) -> (r:
        Result<usize, FenError>)
        requires
            tables.wf(),
            old(self).wf(),
            i < words.len(),
        ensures
            final(self).wf(),
            match r {
                Ok(next) => i < next <= words.len() && final(self).after_position_words(
                    views(words@),
                    next as int,
                ) == old(self).after_position_words(views(words@), i as int),
                Err(e) => *final(self) == *old(self) && old(self).after_position_words(
                    views(words@),
                    i as int,
                ) == Err::<ChessBoard, FenError>(e),
            },
    {
        let ghost w = views(words@);
        let startpos: [u8; 8] = [115, 116, 97, 114, 116, 112, 111, 115];
        let fen: [u8; 3] = [102, 101, 110];
        let fen_upper: [u8; 3] = [70, 69, 78];
        assert(startpos@ =~= word_startpos());
        assert(fen@ =~= word_fen());
        assert(fen_upper@ =~= word_fen_upper());
        assert(words@[i as int]@ == w[i as int]);
        let word = words[i].as_slice();
        if same_bytes(word, startpos.as_slice()) {
            *self = ChessBoard::start();
            Ok(i + 1)
        } else if same_bytes(word, fen.as_slice()) || same_bytes(word, fen_upper.as_slice()) {
            if i + 1 >= words.len() {
                *self = ChessBoard::start();
                Ok(i + 1)
            } else if words.len() - i < 7 {
                Err(FenError::FieldCount)
            } else {
                match ChessBoard::from_fen_fields(words, i + 1, tables) {
                    Ok(b) => {
                        proof {
                            let f = fields_outcome(w.subrange(i + 1, i + 7))->Ok_0;
                            let c = board_of(f);
                            assert(b.wf() && b.shows(f));
                            assert(b.castle_bools@ == c.castle_bools@);
                            lemma_position_determined(b, c);
                        }
                        *self = b;
                        Ok(i + 7)
                    },
                    Err(e) => Err(e),
                }
            }
        } else {
            self.play_word(tables, word);
            Ok(i + 1)
        }
    }

    /// The position that the words of a `position` command lead to from
    /// this one.
    fn position_after(&self, tables: &AttackTables, words: &Vec<Vec<u8>>) -> (r: Result<
        ChessBoard,
        FenError,
    >)
        requires
            tables.wf(),
            self.wf(),
        ensures
            r == self.after_position_words(views(words@), 0),
            r matches Ok(b) ==> b.wf(),
    {
        let ghost goal = self.after_position_words(views(words@), 0);
        let mut board = self.const_clone();
        let mut i: usize = 0;
        while i < words.len()
            invariant
                tables.wf(),
                board.wf(),
                i <= words.len(),
                goal == self.after_position_words(views(words@), 0),
                board.after_position_words(views(words@), i as int) == goal,
            decreases words.len() - i,
        {
            match board.position_step(tables, words, i) {
                Ok(next) => {
                    i = next;
                },
                Err(e) => {
                    return Err(e);
                },
            }
        }
        Ok(board)
    }

    /// Carries out a `position` command: see
    /// [`Self::after_position_words`]. When a position in the command is
    /// refused, the reason is returned and the position stays as it was.
    pub fn parse_uci_position_cmd(&mut self, tables: &AttackTables, cmd_str: &str) -> (r: Result<
        (),
        FenError,
    >)
        requires
            tables.wf(),
            old(self).wf(),
        ensures
            final(self).wf(),
            match r {
                Ok(_) => Ok::<ChessBoard, FenError>(*final(self)) == old(self).after_position_words(
                    tokens(cmd_str.spec_bytes(), 0),
                    0,
                ),
                Err(e) => *final(self) == *old(self) && old(self).after_position_words(
                    tokens(cmd_str.spec_bytes(), 0),
                    0,
                ) == Err::<ChessBoard, FenError>(e),
            },
    {
        let words = split_fields(cmd_str.as_bytes());
        match self.position_after(tables, &words) {
            Ok(board) => {
                *self = board;
                Ok(())
            },
            Err(e) => Err(e),
        }
    }
}

/// A move that [`find_move`] finds is one of the moves.
pub proof fn lemma_found_is_member(moves: Seq<ChessMove>, word: Seq<u8>, i: int)
    requires
        0 <= i,
    ensures
        find_move(moves, word, i) matches Some(m) ==> exists|k: int|
            i <= k < moves.len() && moves[k] == m && text_bytes(m) == word,
    decreases moves.len() - i,
{
    if i < moves.len() {
        if text_bytes(moves[i]) == word {
            assert(moves[i] == find_move(moves, word, i)->Some_0);
        } else {
            lemma_found_is_member(moves, word, i + 1);
        }
    }
}

/// The depth that the words of a `go` command ask for, reading from
/// position `i` on with `depth` asked for so far: the number after the
/// word `depth`, and 6 after any other word. `None` when `depth` is not
/// followed by a number.
pub open spec fn go_depth(words: Seq<Seq<u8>>, i: int, depth: usize) -> Option<usize>
    decreases words.len() - i,
{
    if i < 0 || i >= words.len() {
        Some(depth)
    } else if words[i] == word_depth() {
        if i + 1 >= words.len() {
            None
        } else {
            match counter_of(words[i + 1]) {
                None => None,
                Some(d) => go_depth(words, i + 2, d),
            }
        }
    } else {
        go_depth(words, i + 1, 6)
    }
}

/// What a `go` command answers in the position: `bestmove` and the text
/// of the move that the search names.
pub open spec fn go_answer(board: ChessBoard, words: Seq<Seq<u8>>) -> Result<Seq<char>, GoError> {
    match go_depth(words, 0, 6) {
        None => Err(GoError::InvalidDepth),
        Some(d) => if d > MAX_DEPTH {
            Err(GoError::InvalidDepth)
        } else {
            match board.negamax_spec(isize::MIN + 1, isize::MAX - 1, d as nat).1 {
                None => Err(GoError::NoMove),
                Some(m) => Ok("bestmove "@ + m.text()),
            }
        },
    }
}

impl ChessBoard {
    /// Carries out a `go` command: searches to the depth the command asks
    /// for, 6 by default, and answers `bestmove` and the move.
    pub fn parse_uci_go_cmd(&mut self, tables: &AttackTables, cmd_str: &str) -> (r: Result<
        String,
        GoError,
    >)
        requires
            tables.wf(),
            old(self).wf(),
        ensures
            *final(self) == *old(self),
            match r {
                Ok(s) => go_answer(*old(self), tokens(cmd_str.spec_bytes(), 0)) == Ok::<
                    Seq<char>,
                    GoError,
                >(s@),
                Err(e) => go_answer(*old(self), tokens(cmd_str.spec_bytes(), 0)) == Err::<
                    Seq<char>,
                    GoError,
                >(e),
            },
    {
        let words = split_fields(cmd_str.as_bytes());
        let ghost w = tokens(cmd_str.spec_bytes(), 0);
        let depth_word: [u8; 5] = [100, 101, 112, 116, 104];
        assert(depth_word@ =~= word_depth());
        let mut depth: usize = 6;
        let mut i: usize = 0;
        while i < words.len()
            invariant
                i <= words.len(),
                views(words@) == w,
                w == tokens(cmd_str.spec_bytes(), 0),
                *self == *old(self),
                depth_word@ == word_depth(),
                go_depth(w, i as int, depth) == go_depth(w, 0, 6),
            decreases words.len() - i,
        {
            assert(words@[i as int]@ == w[i as int]);
            if same_bytes(words[i].as_slice(), depth_word.as_slice()) {
                if i + 1 >= words.len() {
                    return Err(GoError::InvalidDepth);
                }
                assert(words@[i + 1]@ == w[i + 1]);
                match parse_counter(words[i + 1].as_slice()) {
                    Some(d) => {
                        depth = d;
                    },
                    None => {
                        return Err(GoError::InvalidDepth);
                    },
                }
                i += 2;
            } else {
                depth = 6;
                i += 1;
            }
        }
        if depth > MAX_DEPTH {
            return Err(GoError::InvalidDepth);
        }
        match self.search(tables, depth) {
            Some(m) => {
                let mut s = String::from_str("bestmove ");
                let text = m.print_move();
                s.append(text.as_str());
                Ok(s)
            },
            None => Err(GoError::NoMove),
        }
    }
}

/// What a line of the protocol asks for, by its first word.
#[derive(Debug, Copy, Clone, PartialEq, Eq, Structural)]
pub enum UciCommand {
    /// `uci`: name the engine.
    Uci,
    /// `isready`: answer `readyok`.
    IsReady,
    /// `ucinewgame`: set up the starting position.
    NewGame,
    /// `position`: set up a position and play moves.
    Position,
    /// `go`: search.
    Go,
    /// `quit`: end.
    Quit,
    /// Any other line, the empty line too.
    Unknown,
}

/// The command that a first word names.
pub open spec fn command_of_word(word: Seq<u8>) -> UciCommand {
    if word == seq![117u8, 99u8, 105u8] {
        UciCommand::Uci
    } else if word == seq![105u8, 115u8, 114u8, 101u8, 97u8, 100u8, 121u8] {
        UciCommand::IsReady
    } else if word == seq![117u8, 99u8, 105u8, 110u8, 101u8, 119u8, 103u8, 97u8, 109u8, 101u8] {
        UciCommand::NewGame
    } else if word == seq![112u8, 111u8, 115u8, 105u8, 116u8, 105u8, 111u8, 110u8] {
        UciCommand::Position
    } else if word == seq![103u8, 111u8] {
        UciCommand::Go
    } else if word == seq![113u8, 117u8, 105u8, 116u8] {
        UciCommand::Quit
    } else {
        UciCommand::Unknown
    }
}

/// The command of a line: that of its first word.
pub open spec fn command_of(line: Seq<u8>) -> UciCommand {
    let words = tokens(line, 0);
    if words.len() == 0 {
        UciCommand::Unknown
    } else {
        command_of_word(words[0])
    }
}

/// What a line of the protocol asks for.
pub fn parse_uci_command(line: &str) -> (r: UciCommand)
    ensures
        r == command_of(line.spec_bytes()),
{
    let words = split_fields(line.as_bytes());
    if words.len() == 0 {
        return UciCommand::Unknown;
    }
    assert(words@[0]@ == tokens(line.spec_bytes(), 0)[0]);
    let word = words[0].as_slice();
    let uci: [u8; 3] = [117, 99, 105];
    let isready: [u8; 7] = [105, 115, 114, 101, 97, 100, 121];
    let newgame: [u8; 10] = [117, 99, 105, 110, 101, 119, 103, 97, 109, 101];
    let position: [u8; 8] = [112, 111, 115, 105, 116, 105, 111, 110];
    let go: [u8; 2] = [103, 111];
    let quit: [u8; 4] = [113, 117, 105, 116];
    assert(uci@ =~= seq![117u8, 99u8, 105u8]);
    assert(isready@ =~= seq![105u8, 115u8, 114u8, 101u8, 97u8, 100u8, 121u8]);
    assert(newgame@ =~= seq![
        117u8,
        99u8,
        105u8,
        110u8,
        101u8,
        119u8,
        103u8,
        97u8,
        109u8,
        101u8,
    ]);
    assert(position@ =~= seq![112u8, 111u8, 115u8, 105u8, 116u8, 105u8, 111u8, 110u8]);
    assert(go@ =~= seq![103u8, 111u8]);
    assert(quit@ =~= seq![113u8, 117u8, 105u8, 116u8]);
    if same_bytes(word, uci.as_slice()) {
        UciCommand::Uci
    } else if same_bytes(word, isready.as_slice()) {
        UciCommand::IsReady
    } else if same_bytes(word, newgame.as_slice()) {
        UciCommand::NewGame
    } else if same_bytes(word, position.as_slice()) {
        UciCommand::Position
    } else if same_bytes(word, go.as_slice()) {
        UciCommand::Go
    } else if same_bytes(word, quit.as_slice()) {
        UciCommand::Quit
    } else {
        UciCommand::Unknown
    }
}


} // verus!
