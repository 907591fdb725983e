//! A game: a board, the last move and the positions seen so far.
use vstd::prelude::*;

use self::hash::StoneKeys;
use self::zobrist_hash_table::next_hash;
use self::zobrist_hash_table::ZobristHashTable;
use crate::board::movement::move_color;
use crate::board::rules::empty_board;
use crate::board::rules::game_over;
use crate::board::rules::legal_plays_without_eyes;
use crate::board::rules::legality;
use crate::board::rules::next_color;
use crate::board::rules::play_result;
use crate::board::rules::vacant_count;
use crate::board::rules::winner_of;
use crate::board::rules::BoardView;
use crate::board::Board;
use crate::board::Color;
use crate::board::IllegalMove;
use crate::board::Komi;
use crate::board::Move;
use crate::board::display::top_rows_text;
use crate::ruleset::Ruleset;
use crate::score::komi_text;
use crate::score::push_komi;
use crate::text::decimal;
use crate::text::pad_right;
use crate::text::push_char;
use crate::text::push_decimal_padded;

pub mod hash;
pub mod position_hash;
pub mod zobrist_hash_table;

verus! {

/// What engines may ask of a game.
pub trait Info {
    /// The number of vacant points of the board.
    fn vacant_point_count(&self) -> u16;
}

/// The numbers of columns `1..=n`, each padded to two characters.
pub open spec fn column_labels(n: int) -> Seq<char>
    decreases n,
{
    if n <= 0 {
        Seq::empty()
    } else {
        column_labels(n - 1) + pad_right(decimal(n as nat), 2)
    }
}

/// A game as text: its komi, the board, and the column numbers under it.
pub open spec fn game_text(g: GameView) -> Seq<char> {
    seq!['k', 'o', 'm', 'i', ':', ' '] + komi_text(g.board.komi) + seq!['\n'] + top_rows_text(g.board, g.board.size)
        + seq![' ', ' ', ' '] + column_labels(g.board.size) + seq!['\n']
}

/// A game in progress.
pub struct Game {
    board: Board,
    last_move: Option<Move>,
    zobrist_hash_table: ZobristHashTable,
}

/// The abstract state of a game: the board, the last move (none before the
/// first), the keys of its positions and the hash of each position so far.
pub ghost struct GameView {
    pub board: BoardView,
    pub last_move: Option<Move>,
    pub keys: StoneKeys,
    pub history: Seq<u64>,
}

impl View for Game {
    type V = GameView;

    closed spec fn view(&self) -> GameView {
        GameView {
            board: self.board@,
            last_move: self.last_move,
            keys: self.zobrist_hash_table.keys(),
            history: self.zobrist_hash_table.history(),
        }
    }
}

/// What playing `m` gives: the rules of the board decide first; a play that
/// they allow is refused as a superko if the position it leads to has a
/// hash seen before, and otherwise that hash is recorded.
pub open spec fn play_outcome(g: GameView, m: Move) -> Result<GameView, IllegalMove> {
    match legality(g.board, m) {
        Err(e) => Err(e),
        Ok(()) => {
            let nb = play_result(g.board, m);
            if m is Play {
                let h = next_hash(
                    g.keys,
                    g.history.last(),
                    m,
                    nb.adv_stones_removed,
                    nb.friend_stones_removed,
                );
                if g.history.contains(h) {
                    Err(IllegalMove::SuperKo)
                } else {
                    Ok(GameView { board: nb, last_move: Some(m), history: g.history.push(h), ..g })
                }
            } else {
                Ok(GameView { board: nb, last_move: Some(m), ..g })
            }
        },
    }
}

/// The moves of `s` that can be played in `g`, in the same order.
pub open spec fn playable_moves(g: GameView, s: Seq<Move>) -> Seq<Move>
    decreases s.len(),
{
    if s.len() == 0 {
        Seq::empty()
    } else {
        let rest = playable_moves(g, s.drop_last());
        if play_outcome(g, s.last()) is Ok {
            rest.push(s.last())
        } else {
            rest
        }
    }
}

/// A game never records a position twice: the hashes of its positions stay
/// distinct whatever is played.
pub proof fn lemma_history_stays_distinct(g: GameView, m: Move)
    requires
        g.history.no_duplicates(),
    ensures
        play_outcome(g, m) is Ok ==> play_outcome(g, m)->Ok_0.history.no_duplicates(),
{
    if play_outcome(g, m) is Ok && m is Play {
        let g2 = play_outcome(g, m)->Ok_0;
        let s = g.history;
        let h = g2.history.last();
        assert(g2.history == s.push(h));
        assert(!s.contains(h));
        assert forall|i: int, j: int| 0 <= i < g2.history.len() && 0 <= j < g2.history.len() && i != j implies g2.history[i]
            != g2.history[j] by {
            if i < s.len() && j < s.len() {
                assert(g2.history[i] == s[i] && g2.history[j] == s[j]);
            } else if i < s.len() {
                assert(g2.history[i] == s[i]);
            } else if j < s.len() {
                assert(g2.history[j] == s[j]);
            }
        }
    }
}

/// Toggling stones of no colour leaves a hash as it was.
proof fn lemma_no_colour_toggles_nothing(k: StoneKeys, hash: u64, s: Seq<crate::board::Coord>)
    ensures
        self::zobrist_hash_table::stones_toggled(k, hash, Color::Empty, s) == hash,
    decreases s.len(),
{
    if s.len() > 0 {
        lemma_no_colour_toggles_nothing(k, hash, s.drop_last());
        assert(hash ^ 0u64 == hash) by (bit_vector);
    }
}

/// A play of no colour adds no stone and leads to the hash of the position
/// before it, so the game refuses it as a repetition.
pub proof fn lemma_no_colour_keeps_hash(g: GameView, m: Move)
    requires
        m is Play,
        move_color(m) == Color::Empty,
        g.history.len() > 0,
    ensures
        play_outcome(g, m) is Err,
{
    if legality(g.board, m) is Ok {
        let nb = play_result(g.board, m);
        let last = g.history.last();
        assert(last ^ 0u64 == last) by (bit_vector);
        lemma_no_colour_toggles_nothing(g.keys, last, nb.adv_stones_removed);
        lemma_no_colour_toggles_nothing(g.keys, last, nb.friend_stones_removed);
        assert(g.history[g.history.len() - 1] == last);
    }
}

/// The hash a game records for its latest position stays the hash of that
/// position's stones after every move the game accepts, as long as no own
/// stones are listed as removed by an earlier suicide.
pub proof fn lemma_history_follows_position(g: GameView, m: Move)
    requires
        g.keys.size == g.board.size,
        0 <= g.board.size <= 255,
        g.board.cells.len() == g.board.size * g.board.size,
        g.history.len() > 0,
        g.history.last() == self::position_hash::position_hash(g.keys, g.board.cells),
        g.board.friend_stones_removed.len() == 0,
    ensures
        play_outcome(g, m) is Ok ==> play_outcome(g, m)->Ok_0.history.last() == self::position_hash::position_hash(
            play_outcome(g, m)->Ok_0.keys,
            play_outcome(g, m)->Ok_0.board.cells,
        ),
{
    if play_outcome(g, m) is Ok {
        if let Move::Play(c, col, row) = m {
            if c == Color::Empty {
                lemma_no_colour_keeps_hash(g, m);
            } else {
                self::position_hash::lemma_play_hash(g.keys, g.board, c, col, row);
            }
        }
    }
}

/// The game records the hash of its board, and no own stone is listed as
/// removed by a suicide.
pub open spec fn hash_tracks_board(g: GameView) -> bool {
    &&& g.history.len() > 0
    &&& g.history.last() == self::position_hash::position_hash(g.keys, g.board.cells)
    &&& g.board.friend_stones_removed.len() == 0
}

/// Under rules that forbid suicide, every move the game accepts keeps the
/// recorded hash equal to the hash of the board, so that the superko test
/// compares positions by their stones.
pub proof fn lemma_hash_tracks_board(g: GameView, m: Move)
    requires
        g.keys.size == g.board.size,
        0 <= g.board.size <= 255,
        g.board.cells.len() == g.board.size * g.board.size,
        !crate::ruleset::allows_suicide(g.board.ruleset),
        hash_tracks_board(g),
    ensures
        play_outcome(g, m) is Ok ==> hash_tracks_board(play_outcome(g, m)->Ok_0),
{
    if play_outcome(g, m) is Ok {
        lemma_history_follows_position(g, m);
        if move_color(m) != Color::Empty {
            crate::board::laws::lemma_no_suicide_removes_no_own_stone(g.board, m);
        } else if m is Play {
            lemma_no_colour_keeps_hash(g, m);
        }
    }
}

/// A new game's only hash is that of its empty board.
pub proof fn lemma_new_game_hash(k: StoneKeys, size: int, komi: int, ruleset: Ruleset)
    requires
        k.size == size,
        0 <= size <= 255,
    ensures
        self::position_hash::position_hash(k, empty_board(size, komi, ruleset).cells) == 0,
{
    self::position_hash::lemma_empty_board_hash(k, empty_board(size, komi, ruleset).cells);
}

/// Every move that `playable_moves` keeps comes from the candidates.
pub proof fn lemma_playable_moves_from(g: GameView, s: Seq<Move>)
    ensures
        forall|i: int| 0 <= i < playable_moves(g, s).len() ==> s.contains(#[trigger] playable_moves(g, s)[i]),
    decreases s.len(),
{
    if s.len() > 0 {
        lemma_playable_moves_from(g, s.drop_last());
        let rest = playable_moves(g, s.drop_last());
        assert forall|i: int| 0 <= i < playable_moves(g, s).len() implies s.contains(
            #[trigger] playable_moves(g, s)[i],
        ) by {
            if i < rest.len() {
                assert(playable_moves(g, s)[i] == rest[i]);
                assert(s.drop_last().contains(rest[i]));
                let k = choose|k: int| 0 <= k < s.drop_last().len() && s.drop_last()[k] == rest[i];
                assert(s[k] == rest[i]);
            } else {
                assert(playable_moves(g, s)[i] == s.last());
                assert(s[s.len() - 1] == s.last());
            }
        }
    }
}

impl Game {
    #[verifier::type_invariant]
    spec fn consistent(self) -> bool {
        &&& self.board.well_formed()
        &&& self.zobrist_hash_table.well_formed()
        &&& self.zobrist_hash_table.keys().size == self.board@.size
    }

    /// A game on an empty board.
    pub fn new(size: u8, komi: Komi, ruleset: Ruleset) -> (res: Game)
        requires
            size < 127,
        ensures
            res@.board == empty_board(size as int, komi.0 as int, ruleset),
            res@.last_move is None,
            res@.history == seq![0u64],
            res@.keys.size == size,
    {
        let board = Board::new(size, komi, ruleset);
        Game { board, last_move: None, zobrist_hash_table: ZobristHashTable::new(size) }
    }

    /// A game in the given state: a board, the table of its position keys
    /// and hashes, and the last move.
    pub fn with_new_state(board: Board, zobrist_hash_table: ZobristHashTable, last_move: Option<Move>) -> (res: Game)
        requires
            board.well_formed(),
            zobrist_hash_table.well_formed(),
            zobrist_hash_table.keys().size == board@.size,
        ensures
            res@ == (GameView {
                board: board@,
                last_move,
                keys: zobrist_hash_table.keys(),
                history: zobrist_hash_table.history(),
            }),
    {
        Game { board, last_move, zobrist_hash_table }
    }

    /// The game after `m`, or why the move is refused.
    pub fn play(&self, m: Move) -> (res: Result<Game, IllegalMove>)
        requires
            m is Pass ==> self@.board.consecutive_passes < 255,
        ensures
            match res {
                Ok(g) => play_outcome(self@, m) == Ok::<GameView, IllegalMove>(g@),
                Err(e) => play_outcome(self@, m) == Err::<GameView, IllegalMove>(e),
            },
    {
        proof {
            use_type_invariant(self);
        }
        let mut new_board = self.board.clone();
        match new_board.play(m) {
            Ok(_) => {
                let mut table = self.zobrist_hash_table.copy();
                if !m.is_pass() && !m.is_resign() {
                    proof {
                        new_board.lemma_well_formed();
                    }
                    match table.check_and_update_super_ko(&m, &new_board) {
                        Err(_) => return Err(IllegalMove::SuperKo),
                        Ok(_) => {},
                    }
                }
                Ok(Game { board: new_board, last_move: Some(m), zobrist_hash_table: table })
            },
            Err(e) => Err(e),
        }
    }

    /// The last move played, none before the first.
    pub fn last_move(&self) -> (res: Option<Move>)
        ensures
            res == self@.last_move,
    {
        self.last_move
    }

    pub fn next_player(&self) -> (res: Color)
        ensures
            res == next_color(self@.board),
    {
        self.board.next_player()
    }

    pub fn is_over(&self) -> (res: bool)
        ensures
            res == game_over(self@.board),
    {
        self.board.is_game_over()
    }

    pub fn komi(&self) -> (res: Komi)
        ensures
            res.0 == self@.board.komi,
    {
        self.board.komi()
    }

    pub fn size(&self) -> (res: u8)
        ensures
            res == self@.board.size,
    {
        self.board.size()
    }

    pub fn winner(&self) -> (res: Color)
        ensures
            res == winner_of(self@.board),
    {
        proof {
            use_type_invariant(self);
        }
        self.board.winner()
    }

    pub fn ruleset(&self) -> (res: Ruleset)
        ensures
            res == self@.board.ruleset,
    {
        self.board.ruleset()
    }

    pub fn set_komi(&mut self, komi: Komi)
        ensures
            final(self)@ == (GameView { board: BoardView { komi: komi.0 as int, ..old(self)@.board }, ..old(self)@ }),
    {
        proof {
            use_type_invariant(&*self);
        }
        let mut board = self.board.clone();
        board.set_komi(komi);
        self.board = board;
    }

    /// The game as text: its komi, the board, and the column numbers.
    pub fn as_string(&self) -> (res: String)
        ensures
            res@ == game_text(self@),
    {
        proof {
            use_type_invariant(self);
            self.board.lemma_well_formed();
        }
        let ghost g = self@;
        let mut s = String::new();
        push_char(&mut s, 'k');
        push_char(&mut s, 'o');
        push_char(&mut s, 'm');
        push_char(&mut s, 'i');
        push_char(&mut s, ':');
        push_char(&mut s, ' ');
        push_komi(&mut s, self.board.komi());
        push_char(&mut s, '\n');
        let rows = self.board.as_string();
        s.append(rows.as_str());
        push_char(&mut s, ' ');
        push_char(&mut s, ' ');
        push_char(&mut s, ' ');
        let ghost head = s@;
        let size = self.board.size();
        let mut col: u8 = 1;
        while col <= size
            invariant
                size == g.board.size,
                size < 127,
                1 <= col <= size + 1,
                s@ == head + column_labels(col - 1),
            decreases size + 1 - col,
        {
            push_decimal_padded(&mut s, col as u128, 2);
            assert(column_labels(col as int) == column_labels(col - 1) + pad_right(decimal(col as nat), 2));
            col = col + 1;
        }
        push_char(&mut s, '\n');
        assert(s@ =~= game_text(g));
        s
    }

    /// A copy of the board.
    pub fn board(&self) -> (res: Board)
        ensures
            res@ == self@.board,
            res.well_formed(),
    {
        proof {
            use_type_invariant(self);
        }
        self.board.clone()
    }

    /// The plays of the board that fill no own eye and that the game allows,
    /// superko included.
    pub fn legal_moves_without_eyes(&self) -> (res: Vec<Move>)
        ensures
            res@ == playable_moves(self@, legal_plays_without_eyes(self@.board)),
    {
        proof {
            use_type_invariant(self);
            self.board.lemma_well_formed();
        }
        let candidates = self.board.legal_moves_without_eyes();
        let ghost s = candidates@;
        let mut res: Vec<Move> = Vec::new();
        let mut i: usize = 0;
        while i < candidates.len()
            invariant
                i <= candidates.len(),
                s == candidates@,
                s == legal_plays_without_eyes(self@.board),
                res@ == playable_moves(self@, s.subrange(0, i as int)),
            decreases candidates.len() - i,
        {
            let m = candidates[i];
            assert(s.subrange(0, i + 1).drop_last() =~= s.subrange(0, i as int));
            assert(move_color(m) == next_color(self@.board));
            if self.play(m).is_ok() {
                res.push(m);
            }
            i = i + 1;
        }
        assert(s.subrange(0, candidates.len() as int) =~= s);
        res
    }
}

impl Info for Game {
    fn vacant_point_count(&self) -> (res: u16)
        ensures
            res == vacant_count(self@.board),
    {
        proof {
            use_type_invariant(self);
        }
        self.board.vacant_point_count()
    }
}

} // verus!
