//! The Go board: stones, chains, the rules of play and counting.
use vstd::prelude::*;

pub mod chain;
pub mod chains;
pub mod coord;
pub mod display;
pub mod hash;
pub mod hypotheticals;
pub mod laws;
pub mod movement;
pub mod position;
pub mod reading;
pub mod rules;
pub mod stone_chain;
pub mod suicide;

pub use self::chain::Chain;
pub use self::coord::Coord;
pub use self::movement::Move;

use self::coord::adjacent;
use self::coord::diagonal_candidates;
use self::coord::index_of;
use self::coord::inside;
use self::coord::inside_only;
use self::coord::neighbour_candidates;
use self::movement::move_color;
use self::movement::move_coord;
use self::movement::spells;
use self::position::chain_len;
use self::position::chain_marks;
use self::position::coord_of;
use self::position::count_flags;
use self::position::in_chain;
use self::position::is_liberty;
use self::position::lemma_index_bounds;
use self::position::lemma_index_injective;
use self::position::lemma_index_of_coord;
use self::position::liberty_count;
use self::position::touching_flags;
use self::position::neighbour_table;
use self::position::remove_where;
use self::position::lemma_inside_only_contains;
use self::position::lemma_neighbours_exact;
use self::rules::empty_board;
use self::rules::game_over;
use self::rules::is_suicide;
use self::rules::legality;
use self::rules::point_color;
use self::rules::retakes_ko;
use self::rules::after_capture;
use self::rules::captured;
use self::rules::captures;
use self::rules::placed;
use self::rules::play_result;
use self::rules::BoardView;
use self::rules::area;
use self::rules::as_plays;
use self::rules::count_matching;
use self::rules::eye;
use self::rules::legal_plays;
use self::rules::legal_plays_without_eyes;
use self::rules::next_color;
use self::rules::owned_by;
use self::rules::playable;
use self::rules::reaches;
use self::rules::vacant_count;
use self::rules::vacant_points;
use self::rules::winner_of;
use self::rules::joined_liberty;
use self::rules::joined_stone;
use self::position::touches;
use self::position::count_points;
use self::position::lemma_coord_of_index;
use self::position::lemma_count_points_bound;
use crate::score::Score;
use self::position::collect_flags;
use self::position::lemma_count_points_zero;
use crate::ruleset::Ruleset;
use std::sync::Arc;

verus! {

/// The colour of a stone, or `Empty` for a vacant point.
#[derive(Clone, Copy, Debug, PartialEq, Eq, Hash, Structural)]
pub enum Color {
    White,
    Black,
    Empty,
}

/// The colour of the other player; `Empty` stays `Empty`.
pub open spec fn opposite_color(c: Color) -> Color {
    match c {
        Color::White => Color::Black,
        Color::Black => Color::White,
        Color::Empty => Color::Empty,
    }
}

/// Whether a GTP colour text names a player: `w`, `white`, `b` or
/// `black` in any ASCII case.
pub open spec fn is_color_text(s: Seq<char>) -> bool {
    spells(s, seq!['w']) || spells(s, seq!['w', 'h', 'i', 't', 'e']) || spells(s, seq!['b'])
        || spells(s, seq!['b', 'l', 'a', 'c', 'k'])
}

/// The player that a GTP colour text names.
pub open spec fn color_text(s: Seq<char>) -> Color {
    if spells(s, seq!['w']) || spells(s, seq!['w', 'h', 'i', 't', 'e']) {
        Color::White
    } else {
        Color::Black
    }
}

/// A move that the rules refuse.
#[derive(Clone, Copy, Debug, PartialEq, Eq, Structural)]
pub enum IllegalMove {
    GameAlreadyOver,
    IntersectionNotEmpty,
    Ko,
    PlayOutOfBoard,
    SamePlayerPlayedTwice,
    SuicidePlay,
    SuperKo,
}

/// Whether a text names a player in GTP: `w`, `white`, `b` or `black`, in
/// any case.
pub fn is_gtp_color(s: &str) -> (res: bool)
    ensures
        res == is_color_text(s@),
{
    proof {
        reveal_strlit("w");
        reveal_strlit("white");
        reveal_strlit("b");
        reveal_strlit("black");
    }
    movement::spells_word(s, "w") || movement::spells_word(s, "white") || movement::spells_word(s, "b")
        || movement::spells_word(s, "black")
}

impl Color {
    pub fn opposite(&self) -> (res: Color)
        ensures
            res == opposite_color(*self),
    {
        match *self {
            Color::White => Color::Black,
            Color::Black => Color::White,
            Color::Empty => Color::Empty,
        }
    }

    /// Reads a GTP colour: `w`, `white`, `b` or `black`, in any case.
    pub fn from_gtp(gtp_color: &str) -> (res: Color)
        requires
            is_color_text(gtp_color@),
        ensures
            res == color_text(gtp_color@),
    {
        proof {
            reveal_strlit("w");
            reveal_strlit("white");
        }
        if movement::spells_word(gtp_color, "w") || movement::spells_word(gtp_color, "white") {
            Color::White
        } else {
            Color::Black
        }
    }
}


/// The diagonal table of a board: for each point, its diagonal
/// neighbours on the board.
pub open spec fn diagonal_table(table: Seq<Vec<Coord>>, size: int) -> bool {
    &&& table.len() == size * size
    &&& forall|c: Coord|
        inside(c, size) ==> (#[trigger] table[index_of(c, size)])@ == inside_only(
            diagonal_candidates(c),
            size,
        )
}

/// The neighbours and diagonals of every point, computed once per board size.
pub struct Cache {
    diagonals: Vec<Vec<Coord>>,
    neighbours: Vec<Vec<Coord>>,
}

impl Cache {
    /// Whether the tables describe a board with `size` lines.
    pub closed spec fn describes(&self, size: int) -> bool {
        neighbour_table(self.neighbours@, size) && diagonal_table(self.diagonals@, size)
    }

    pub fn new(size: u8) -> (res: Cache)
        requires
            size < 127,
        ensures
            res.describes(size as int),
    {
        let coords = Coord::for_board_size(size);
        let mut neighbours: Vec<Vec<Coord>> = Vec::new();
        let mut diagonals: Vec<Vec<Coord>> = Vec::new();
        let mut k: usize = 0;
        while k < coords.len()
            invariant
                size < 127,
                coords.len() == size * size,
                forall|i: int, j: int|
                    0 <= i < size && 0 <= j < size ==> #[trigger] coords@[i * size + j] == (Coord {
                        col: (j + 1) as u8,
                        row: (i + 1) as u8,
                    }),
                k <= coords.len(),
                neighbours.len() == k,
                diagonals.len() == k,
                forall|m: int|
                    0 <= m < k ==> (#[trigger] neighbours@[m])@ == inside_only(
                        neighbour_candidates(coords@[m]),
                        size as int,
                    ),
                forall|m: int|
                    0 <= m < k ==> (#[trigger] diagonals@[m])@ == inside_only(
                        diagonal_candidates(coords@[m]),
                        size as int,
                    ),
                forall|m: int| 0 <= m < k ==> inside(#[trigger] coords@[m], size as int),
            decreases coords.len() - k,
        {
            let c = coords[k];
            proof {
                lemma_index_of_coord(k as int, size as int);
                let q = coord_of(k as int, size as int);
                let i = q.row - 1;
                let j = q.col - 1;
                assert(k == j + i * size);
                assert(coords@[i * size + j] == q);
            }
            neighbours.push(c.neighbours(size));
            diagonals.push(c.diagonals(size));
            k = k + 1;
        }
        proof {
            assert forall|c: Coord| inside(c, size as int) implies coords@[index_of(c, size as int)] == c by {
                let i = c.row - 1;
                let j = c.col - 1;
                assert(index_of(c, size as int) == i * size + j);
                assert(coords@[i * size + j] == c);
            }
            assert forall|c: Coord| inside(c, size as int) implies (#[trigger] neighbours@[index_of(c, size as int)])@
                == inside_only(neighbour_candidates(c), size as int) by {
                lemma_index_bounds(c, size as int);
                assert(coords@[index_of(c, size as int)] == c);
            }
            assert forall|c: Coord| inside(c, size as int) implies (#[trigger] diagonals@[index_of(c, size as int)])@
                == inside_only(diagonal_candidates(c), size as int) by {
                lemma_index_bounds(c, size as int);
                assert(coords@[index_of(c, size as int)] == c);
            }
        }
        Cache { diagonals, neighbours }
    }
}

/// Komi: the points White receives in compensation, in tenths of a point.
#[derive(Clone, Copy, Debug, PartialEq, Eq, Structural)]
pub struct Komi(pub i32);

/// A Go board with its stones and what the rules remember of the game.
pub struct Board {
    adv_stones_removed: Vec<Coord>,
    board: Vec<Color>,
    cache: Arc<Cache>,
    consecutive_passes: u8,
    friend_stones_removed: Vec<Coord>,
    ko: Option<Coord>,
    komi: Komi,
    previous_player: Color,
    resigned_by: Color,
    ruleset: Ruleset,
    size: u8,
}

impl View for Board {
    type V = BoardView;

    closed spec fn view(&self) -> BoardView {
        BoardView {
            cells: self.board@,
            size: self.size as int,
            ko: self.ko,
            komi: self.komi.0 as int,
            previous_player: self.previous_player,
            resigned_by: self.resigned_by,
            consecutive_passes: self.consecutive_passes as int,
            ruleset: self.ruleset,
            adv_stones_removed: self.adv_stones_removed@,
            friend_stones_removed: self.friend_stones_removed@,
        }
    }
}

/// A shared handle on the same tables, made with std's `Arc::clone`; the
/// contract claims that the new handle points to an equal value.
#[verifier::external_body]
fn share_cache(c: &Arc<Cache>) -> (res: Arc<Cache>)
    ensures
        res == *c,
{
    Arc::clone(c)
}

/// Flags that are all unset.
fn unset_flags(n: usize) -> (res: Vec<bool>)
    ensures
        res.len() == n,
        forall|i: int| 0 <= i < n ==> !(#[trigger] res@[i]),
{
    let mut res: Vec<bool> = Vec::new();
    let mut k: usize = 0;
    while k < n
        invariant
            k <= n,
            res.len() == k,
            forall|i: int| 0 <= i < k ==> !(#[trigger] res@[i]),
        decreases n - k,
    {
        res.push(false);
        k = k + 1;
    }
    res
}

/// Sets every flag that is set in `marks`.
fn union_flags(dead: &mut Vec<bool>, marks: &Vec<bool>)
    requires
        old(dead).len() == marks.len(),
    ensures
        final(dead).len() == old(dead).len(),
        forall|i: int| 0 <= i < marks.len() ==> #[trigger] final(dead)@[i] == (old(dead)@[i] || marks@[i]),
{
    let ghost orig = dead@;
    let mut i: usize = 0;
    while i < marks.len()
        invariant
            i <= marks.len(),
            dead.len() == marks.len(),
            orig.len() == marks.len(),
            forall|k: int| 0 <= k < i ==> #[trigger] dead@[k] == (orig[k] || marks@[k]),
            forall|k: int| i <= k < marks.len() ==> #[trigger] dead@[k] == orig[k],
        decreases marks.len() - i,
    {
        if marks[i] {
            dead.set(i, true);
        }
        i = i + 1;
    }
}

/// Makes vacant the points whose flag is set.
fn clear_flagged(cells: &mut Vec<Color>, flags: &Vec<bool>, size: u8, Ghost(pred): Ghost<spec_fn(Coord) -> bool>)
    requires
        size < 127,
        old(cells).len() == size * size,
        flags.len() == size * size,
        forall|q: Coord| inside(q, size as int) ==> #[trigger] flags@[index_of(q, size as int)] == pred(q),
    ensures
        final(cells)@ == remove_where(old(cells)@, size as int, pred),
{
    let ghost sz = size as int;
    let ghost orig = cells@;
    let n = cells.len();
    let mut i: usize = 0;
    while i < n
        invariant
            i <= n,
            n == sz * sz,
            sz == size as int,
            orig.len() == n,
            cells.len() == n,
            flags.len() == n,
            forall|q: Coord| inside(q, sz) ==> #[trigger] flags@[index_of(q, sz)] == pred(q),
            forall|k: int| 0 <= k < i ==> #[trigger] cells@[k] == remove_where(orig, sz, pred)[k],
            forall|k: int| i <= k < n ==> #[trigger] cells@[k] == orig[k],
        decreases n - i,
    {
        proof {
            lemma_index_of_coord(i as int, sz);
            assert(flags@[index_of(coord_of(i as int, sz), sz)] == pred(coord_of(i as int, sz)));
        }
        if flags[i] {
            cells.set(i, Color::Empty);
        }
        i = i + 1;
    }
    assert(cells@ =~= remove_where(orig, sz, pred));
}

impl Board {
    /// The board's internal tables agree with its size.
    pub closed spec fn well_formed(&self) -> bool {
        &&& self.size < 127
        &&& self.board.len() == self.size * self.size
        &&& self.cache.describes(self.size as int)
        &&& forall|i: int| 0 <= i < self.adv_stones_removed@.len() ==> inside(#[trigger] self.adv_stones_removed@[i], self.size as int)
        &&& forall|i: int| 0 <= i < self.friend_stones_removed@.len() ==> inside(#[trigger] self.friend_stones_removed@[i], self.size as int)
    }

    /// The board's size never exceeds the limit its tables allow.
    pub proof fn lemma_well_formed(&self)
        requires
            self.well_formed(),
        ensures
            self@.size < 127,
            self@.cells.len() == self@.size * self@.size,
            forall|i: int| 0 <= i < self@.adv_stones_removed.len() ==> inside(#[trigger] self@.adv_stones_removed[i], self@.size),
            forall|i: int| 0 <= i < self@.friend_stones_removed.len() ==> inside(#[trigger] self@.friend_stones_removed[i], self@.size),
    {
    }

    pub fn new(size: u8, komi: Komi, ruleset: Ruleset) -> (res: Board)
        requires
            size < 127,
        ensures
            res.well_formed(),
            res@ == empty_board(size as int, komi.0 as int, ruleset),
    {
        proof {
            assert(size * size <= 126 * 126) by (nonlinear_arith)
                requires
                    size < 127,
            ;
        }
        let n = size as usize * size as usize;
        let mut board: Vec<Color> = Vec::new();
        let mut k: usize = 0;
        while k < n
            invariant
                k <= n,
                board.len() == k,
                forall|i: int| 0 <= i < k ==> #[trigger] board@[i] == Color::Empty,
            decreases n - k,
        {
            board.push(Color::Empty);
            k = k + 1;
        }
        let res = Board {
            adv_stones_removed: Vec::new(),
            board,
            cache: Arc::new(Cache::new(size)),
            consecutive_passes: 0,
            friend_stones_removed: Vec::new(),
            ko: None,
            komi,
            previous_player: Color::White,
            resigned_by: Color::Empty,
            ruleset,
            size,
        };
        assert(res@.cells =~= empty_board(size as int, komi.0 as int, ruleset).cells);
        res
    }

    /// A copy of the board sharing the neighbour tables.
    pub fn clone(&self) -> (res: Board)
        ensures
            res@ == self@,
            self.well_formed() ==> res.well_formed(),
    {
        Board {
            adv_stones_removed: copy_coords(&self.adv_stones_removed),
            board: copy_colors(&self.board),
            cache: share_cache(&self.cache),
            consecutive_passes: self.consecutive_passes,
            friend_stones_removed: copy_coords(&self.friend_stones_removed),
            ko: self.ko,
            komi: self.komi,
            previous_player: self.previous_player,
            resigned_by: self.resigned_by,
            ruleset: self.ruleset,
            size: self.size,
        }
    }

    /// The orthogonal neighbours of a point on the board.
    pub fn neighbours(&self, c: Coord) -> (res: &Vec<Coord>)
        requires
            self.well_formed(),
            inside(c, self@.size),
        ensures
            res@ == inside_only(neighbour_candidates(c), self@.size),
    {
        proof {
            lemma_index_bounds(c, self.size as int);
        }
        &self.cache.neighbours[c.to_index(self.size)]
    }

    /// The diagonal neighbours of a point on the board.
    pub fn diagonals(&self, c: Coord) -> (res: &Vec<Coord>)
        requires
            self.well_formed(),
            inside(c, self@.size),
        ensures
            res@ == inside_only(diagonal_candidates(c), self@.size),
    {
        proof {
            lemma_index_bounds(c, self.size as int);
        }
        &self.cache.diagonals[c.to_index(self.size)]
    }

    /// The colour of a point; the point's index must fall within the board.
    pub fn color(&self, c: &Coord) -> (res: Color)
        requires
            c.col >= 1,
            c.row >= 1,
            index_of(*c, self@.size) < self@.cells.len(),
        ensures
            res == self@.cells[index_of(*c, self@.size)],
    {
        self.board[c.to_index(self.size)]
    }

    pub fn komi(&self) -> (res: Komi)
        ensures
            res.0 == self@.komi,
    {
        self.komi
    }

    pub fn set_komi(&mut self, komi: Komi)
        ensures
            final(self)@ == (BoardView { komi: komi.0 as int, ..old(self)@ }),
            old(self).well_formed() ==> final(self).well_formed(),
    {
        self.komi = komi;
    }

    pub fn next_player(&self) -> (res: Color)
        ensures
            res == opposite_color(self@.previous_player),
    {
        self.previous_player.opposite()
    }

    pub fn is_game_over(&self) -> (res: bool)
        ensures
            res == game_over(self@),
    {
        self.consecutive_passes == 2 || self.resigned_by != Color::Empty
    }

    pub fn ruleset(&self) -> (res: Ruleset)
        ensures
            res == self@.ruleset,
    {
        self.ruleset
    }

    pub fn size(&self) -> (res: u8)
        ensures
            res == self@.size,
    {
        self.size
    }

    /// The number of passes since the last other move.
    pub fn consecutive_passes(&self) -> (res: u8)
        ensures
            res == self@.consecutive_passes,
    {
        self.consecutive_passes
    }

    /// The opposing stones that the last play removed.
    pub fn adv_stones_removed(&self) -> (res: &Vec<Coord>)
        ensures
            res@ == self@.adv_stones_removed,
    {
        &self.adv_stones_removed
    }

    /// The own stones that the last suicide removed.
    pub fn friend_stones_removed(&self) -> (res: &Vec<Coord>)
        ensures
            res@ == self@.friend_stones_removed,
    {
        &self.friend_stones_removed
    }

    /// Whether the rules allow a move, and if not, why.
    pub fn is_legal(&self, m: Move) -> (res: Result<(), IllegalMove>)
        requires
            self.well_formed(),
        ensures
            res == legality(self@, m),
    {
        if self.is_game_over() && !self.ruleset.game_over_play() {
            return Err(IllegalMove::GameAlreadyOver);
        }
        if self.previous_player == *m.color() && !self.ruleset.same_player() {
            return Err(IllegalMove::SamePlayerPlayedTwice);
        }
        if m.is_pass() {
            return Ok(());
        }
        if m.is_resign() {
            return Ok(());
        }
        let p = m.coord();
        if !p.is_inside(self.size) {
            return Err(IllegalMove::PlayOutOfBoard);
        }
        proof {
            lemma_index_bounds(p, self.size as int);
        }
        if self.color(&p) != Color::Empty {
            return Err(IllegalMove::IntersectionNotEmpty);
        }
        let color = *m.color();
        let at_ko = match self.ko {
            Some(k) => k == p,
            None => false,
        };
        if at_ko && self.retakes_ko_at(p, color) {
            return Err(IllegalMove::Ko);
        }
        if !self.ruleset.suicide_allowed() && self.is_suicide_at(p, color) {
            return Err(IllegalMove::SuicidePlay);
        }
        Ok(())
    }

    /// Whether playing `color` on `p` retakes a ko.
    fn retakes_ko_at(&self, p: Coord, color: Color) -> (res: bool)
        requires
            self.well_formed(),
            inside(p, self@.size),
        ensures
            res == retakes_ko(self@, p, color),
    {
        let ghost b = self@;
        let nb = self.neighbours(p);
        let opp = color.opposite();
        let mut j: usize = 0;
        while j < nb.len()
            invariant
                self.well_formed(),
                b == self@,
                inside(p, b.size),
                nb@ == inside_only(neighbour_candidates(p), b.size),
                opp == opposite_color(color),
                j <= nb.len(),
                forall|k: int|
                    0 <= k < j ==> !(point_color(b, #[trigger] nb@[k]) == opp && liberty_count(
                        b.cells,
                        b.size,
                        nb@[k],
                    ) == 1 && chain_len(b.cells, b.size, nb@[k]) == 1),
            decreases nb.len() - j,
        {
            let q = nb[j];
            proof {
                lemma_inside_only_contains(neighbour_candidates(p), b.size, q);
                assert(nb@.contains(q));
                lemma_neighbours_exact(p, b.size, q);
                lemma_index_bounds(q, b.size);
            }
            if self.board[q.to_index(self.size)] == opp && self.chain_liberties(q) == 1
                && self.chain_stones(q) == 1 {
                proof {
                    assert(inside(q, b.size) && adjacent(p, q));
                }
                return true;
            }
            j = j + 1;
        }
        proof {
            assert forall|q: Coord|
                !(inside(q, b.size) && #[trigger] adjacent(p, q) && point_color(b, q) == opposite_color(color)
                    && liberty_count(b.cells, b.size, q) == 1 && chain_len(b.cells, b.size, q) == 1) by {
                if inside(q, b.size) && adjacent(p, q) {
                    lemma_neighbours_exact(p, b.size, q);
                    lemma_inside_only_contains(neighbour_candidates(p), b.size, q);
                    let k = choose|k: int| 0 <= k < nb@.len() && nb@[k] == q;
                    assert(!(point_color(b, nb@[k]) == opp && liberty_count(b.cells, b.size, nb@[k]) == 1
                        && chain_len(b.cells, b.size, nb@[k]) == 1));
                }
            }
        }
        false
    }

    /// Whether playing `color` on `p` is suicide.
    fn is_suicide_at(&self, p: Coord, color: Color) -> (res: bool)
        requires
            self.well_formed(),
            inside(p, self@.size),
        ensures
            res == is_suicide(self@, p, color),
    {
        let ghost b = self@;
        let nb = self.neighbours(p);
        let opp = color.opposite();
        let mut occupied = true;
        let mut enemies_keep_libs = true;
        let mut own_without_libs = true;
        let mut j: usize = 0;
        while j < nb.len()
            invariant
                self.well_formed(),
                b == self@,
                inside(p, b.size),
                nb@ == inside_only(neighbour_candidates(p), b.size),
                opp == opposite_color(color),
                j <= nb.len(),
                occupied == forall|k: int| 0 <= k < j ==> point_color(b, #[trigger] nb@[k]) != Color::Empty,
                enemies_keep_libs == forall|k: int|
                    0 <= k < j && point_color(b, #[trigger] nb@[k]) == opp ==> liberty_count(
                        b.cells,
                        b.size,
                        nb@[k],
                    ) > 1,
                own_without_libs == forall|k: int|
                    0 <= k < j && point_color(b, #[trigger] nb@[k]) == color ==> liberty_count(
                        b.cells,
                        b.size,
                        nb@[k],
                    ) <= 1,
            decreases nb.len() - j,
        {
            let q = nb[j];
            proof {
                lemma_inside_only_contains(neighbour_candidates(p), b.size, q);
                assert(nb@.contains(q));
                lemma_neighbours_exact(p, b.size, q);
                lemma_index_bounds(q, b.size);
            }
            let c = self.board[q.to_index(self.size)];
            if c == Color::Empty {
                occupied = false;
            }
            if c == opp && self.chain_liberties(q) <= 1 {
                enemies_keep_libs = false;
            }
            if c == color && self.chain_liberties(q) > 1 {
                own_without_libs = false;
            }
            j = j + 1;
        }
        proof {
            assert((forall|q: Coord| inside(q, b.size) && #[trigger] adjacent(p, q) ==> point_color(b, q) != Color::Empty)
                == occupied) by {
                if occupied {
                    assert forall|q: Coord| inside(q, b.size) && #[trigger] adjacent(p, q) implies point_color(b, q) != Color::Empty by {
                        lemma_neighbours_exact(p, b.size, q);
                        lemma_inside_only_contains(neighbour_candidates(p), b.size, q);
                        let k = choose|k: int| 0 <= k < nb@.len() && nb@[k] == q;
                    }
                } else {
                    let k = choose|k: int| 0 <= k < nb@.len() && !(point_color(b, #[trigger] nb@[k]) != Color::Empty);
                    lemma_inside_only_contains(neighbour_candidates(p), b.size, nb@[k]);
                    assert(nb@.contains(nb@[k]));
                    lemma_neighbours_exact(p, b.size, nb@[k]);
                }
            }
            assert((forall|q: Coord| inside(q, b.size) && #[trigger] adjacent(p, q) && point_color(b, q) == opposite_color(color)
                ==> liberty_count(b.cells, b.size, q) > 1) == enemies_keep_libs) by {
                if enemies_keep_libs {
                    assert forall|q: Coord| inside(q, b.size) && #[trigger] adjacent(p, q) && point_color(b, q) == opposite_color(color)
                        implies liberty_count(b.cells, b.size, q) > 1 by {
                        lemma_neighbours_exact(p, b.size, q);
                        lemma_inside_only_contains(neighbour_candidates(p), b.size, q);
                        let k = choose|k: int| 0 <= k < nb@.len() && nb@[k] == q;
                    }
                } else {
                    let k = choose|k: int| 0 <= k < nb@.len() && !(point_color(b, #[trigger] nb@[k]) == opp
                        ==> liberty_count(b.cells, b.size, nb@[k]) > 1);
                    lemma_inside_only_contains(neighbour_candidates(p), b.size, nb@[k]);
                    assert(nb@.contains(nb@[k]));
                    lemma_neighbours_exact(p, b.size, nb@[k]);
                }
            }
            assert((forall|q: Coord| inside(q, b.size) && #[trigger] adjacent(p, q) && point_color(b, q) == color
                ==> liberty_count(b.cells, b.size, q) <= 1) == own_without_libs) by {
                if own_without_libs {
                    assert forall|q: Coord| inside(q, b.size) && #[trigger] adjacent(p, q) && point_color(b, q) == color
                        implies liberty_count(b.cells, b.size, q) <= 1 by {
                        lemma_neighbours_exact(p, b.size, q);
                        lemma_inside_only_contains(neighbour_candidates(p), b.size, q);
                        let k = choose|k: int| 0 <= k < nb@.len() && nb@[k] == q;
                    }
                } else {
                    let k = choose|k: int| 0 <= k < nb@.len() && !(point_color(b, #[trigger] nb@[k]) == color
                        ==> liberty_count(b.cells, b.size, nb@[k]) <= 1);
                    lemma_inside_only_contains(neighbour_candidates(p), b.size, nb@[k]);
                    assert(nb@.contains(nb@[k]));
                    lemma_neighbours_exact(p, b.size, nb@[k]);
                }
            }
        }
        occupied && enemies_keep_libs && own_without_libs
    }

    /// Plays a move if the rules allow it; otherwise says why not and
    /// leaves the board as it was.
    pub fn play(&mut self, m: Move) -> (res: Result<(), IllegalMove>)
        requires
            old(self).well_formed(),
            m is Pass ==> old(self)@.consecutive_passes < 255,
        ensures
            final(self).well_formed(),
            res == legality(old(self)@, m),
            res is Ok ==> final(self)@ == play_result(old(self)@, m),
            res is Err ==> final(self)@ == old(self)@,
    {
        let legal = self.is_legal(m);
        match legal {
            Ok(()) => {
                self.play_legal_move(m);
                Ok(())
            },
            Err(e) => Err(e),
        }
    }

    /// Plays a move that the rules allow: places the stone, removes the
    /// opposing chains it leaves without liberties, then its own chain if
    /// that has none, and records the ko point.
    pub fn play_legal_move(&mut self, m: Move)
        requires
            old(self).well_formed(),
            legality(old(self)@, m) is Ok,
            m is Pass ==> old(self)@.consecutive_passes < 255,
        ensures
            final(self).well_formed(),
            final(self)@ == play_result(old(self)@, m),
    {
        let ghost b = self@;
        self.previous_player = *m.color();
        if m.is_pass() {
            self.consecutive_passes = self.consecutive_passes + 1;
            return;
        }
        self.consecutive_passes = 0;
        if m.is_resign() {
            self.resigned_by = *m.color();
            return;
        }
        let p = m.coord();
        let color = *m.color();
        let opp = color.opposite();
        let ghost sz = b.size;
        proof {
            lemma_index_bounds(p, sz);
        }
        self.board.set(p.to_index(self.size), color);
        let ghost c1 = self.board@;
        assert(c1 == placed(b, p, color));
        let nb = p.neighbours(self.size);
        let n = self.board.len();
        let mut dead = unset_flags(n);
        proof {
            assert forall|x: Coord| inside(x, sz) implies !(#[trigger] dead@[index_of(x, sz)]) by {
                lemma_index_bounds(x, sz);
            }
        }
        let mut j: usize = 0;
        while j < nb.len()
            invariant
                self.well_formed(),
                self@.size == sz,
                self.board@ == c1,
                inside(p, sz),
                opp == opposite_color(color),
                nb@ == inside_only(neighbour_candidates(p), sz),
                n == c1.len(),
                dead.len() == n,
                j <= nb.len(),
                forall|x: Coord|
                    inside(x, sz) ==> #[trigger] dead@[index_of(x, sz)] == exists|k: int|
                        0 <= k < j && captures(c1, sz, p, color, #[trigger] nb@[k]) && in_chain(
                            c1,
                            sz,
                            nb@[k],
                            x,
                        ),
            decreases nb.len() - j,
        {
            let q = nb[j];
            proof {
                lemma_inside_only_contains(neighbour_candidates(p), sz, q);
                assert(nb@.contains(q));
                lemma_neighbours_exact(p, sz, q);
                lemma_index_bounds(q, sz);
            }
            let ghost dead_before = dead@;
            if self.board[q.to_index(self.size)] == opp {
                let libs = self.chain_liberties(q);
                proof {
                    lemma_count_points_zero(|l: Coord| is_liberty(c1, sz, q, l), sz);
                    if libs == 0 {
                        assert forall|l: Coord| !is_liberty(c1, sz, q, l) by {
                            if is_liberty(c1, sz, q, l) {
                                assert((|l: Coord| is_liberty(c1, sz, q, l))(l));
                            }
                        }
                    } else {
                        let l = choose|l: Coord| inside(l, sz) && (|l: Coord| is_liberty(c1, sz, q, l))(l);
                        assert(is_liberty(c1, sz, q, l));
                    }
                }
                if libs == 0 {
                    let marks = self.marks_of(q);
                    union_flags(&mut dead, &marks);
                }
            }
            proof {
                assert forall|x: Coord| inside(x, sz) implies #[trigger] dead@[index_of(x, sz)] == exists|k: int|
                    0 <= k < j + 1 && captures(c1, sz, p, color, #[trigger] nb@[k]) && in_chain(c1, sz, nb@[k], x) by {
                    lemma_index_bounds(x, sz);
                    assert(dead_before[index_of(x, sz)] == exists|k: int|
                        0 <= k < j && captures(c1, sz, p, color, #[trigger] nb@[k]) && in_chain(c1, sz, nb@[k], x));
                    if dead@[index_of(x, sz)] && !dead_before[index_of(x, sz)] {
                        assert(captures(c1, sz, p, color, nb@[j as int]) && in_chain(c1, sz, nb@[j as int], x));
                    }
                    if !dead_before[index_of(x, sz)] && captures(c1, sz, p, color, nb@[j as int]) && in_chain(c1, sz, nb@[j as int], x) {
                        assert(dead@[index_of(x, sz)]);
                    }
                }
            }
            j = j + 1;
        }
        let ghost dead_pred = |x: Coord| captured(c1, sz, p, color, x);
        proof {
            assert forall|x: Coord| inside(x, sz) implies #[trigger] dead@[index_of(x, sz)] == dead_pred(x) by {
                if captured(c1, sz, p, color, x) {
                    let q = choose|q: Coord| #[trigger] captures(c1, sz, p, color, q) && in_chain(c1, sz, q, x);
                    lemma_neighbours_exact(p, sz, q);
                    lemma_inside_only_contains(neighbour_candidates(p), sz, q);
                    let k = choose|k: int| 0 <= k < nb@.len() && nb@[k] == q;
                    assert(captures(c1, sz, p, color, nb@[k]) && in_chain(c1, sz, nb@[k], x));
                }
            }
        }
        let adv = collect_flags(&dead, self.size, Ghost(dead_pred));
        clear_flagged(&mut self.board, &dead, self.size, Ghost(dead_pred));
        let ghost c2 = self.board@;
        assert(c2 == after_capture(b, p, color));
        let own_libs = self.chain_liberties(p);
        proof {
            lemma_count_points_zero(|l: Coord| is_liberty(c2, sz, p, l), sz);
            if own_libs == 0 {
                assert forall|l: Coord| !is_liberty(c2, sz, p, l) by {
                    if is_liberty(c2, sz, p, l) {
                        assert((|l: Coord| is_liberty(c2, sz, p, l))(l));
                    }
                }
            } else {
                let l = choose|l: Coord| inside(l, sz) && (|l: Coord| is_liberty(c2, sz, p, l))(l);
                assert(is_liberty(c2, sz, p, l));
            }
        }
        if own_libs == 0 {
            let own = self.marks_of(p);
            let ghost own_pred = |x: Coord| in_chain(c2, sz, p, x);
            let friend = collect_flags(&own, self.size, Ghost(own_pred));
            clear_flagged(&mut self.board, &own, self.size, Ghost(own_pred));
            self.friend_stones_removed = friend;
        }
        if adv.len() == 1 && self.friend_stones_removed.len() == 0 {
            self.ko = Some(adv[0]);
        } else {
            self.ko = None;
        }
        self.adv_stones_removed = adv;
    }

    /// Whether a point is an eye of `color`: all its neighbours have that
    /// colour and the opponent holds none of its diagonals on the edge, at
    /// most one in the middle.
    pub fn is_eye(&self, coord: &Coord, color: Color) -> (res: bool)
        requires
            self.well_formed(),
            inside(*coord, self@.size),
        ensures
            res == eye(self@, *coord, color),
    {
        let ghost b = self@;
        let c = *coord;
        let nb = self.neighbours(c);
        let mut j: usize = 0;
        while j < nb.len()
            invariant
                self.well_formed(),
                b == self@,
                c == *coord,
                inside(c, b.size),
                nb@ == inside_only(neighbour_candidates(c), b.size),
                j <= nb.len(),
                forall|k: int| 0 <= k < j ==> point_color(b, #[trigger] nb@[k]) == color,
            decreases nb.len() - j,
        {
            let q = nb[j];
            proof {
                lemma_inside_only_contains(neighbour_candidates(c), b.size, q);
                assert(nb@.contains(q));
                lemma_neighbours_exact(c, b.size, q);
                lemma_index_bounds(q, b.size);
            }
            if self.board[q.to_index(self.size)] != color {
                assert(inside(q, b.size) && adjacent(c, q) && point_color(b, q) != color);
                assert(!eye(b, c, color));
                return false;
            }
            j = j + 1;
        }
        proof {
            assert forall|q: Coord| inside(q, b.size) && #[trigger] adjacent(c, q) implies point_color(b, q) == color by {
                lemma_neighbours_exact(c, b.size, q);
                lemma_inside_only_contains(neighbour_candidates(c), b.size, q);
                let k = choose|k: int| 0 <= k < nb@.len() && nb@[k] == q;
            }
        }
        let diags = self.diagonals(c);
        let opp = color.opposite();
        let ghost pred = |q: Coord| point_color(b, q) == opposite_color(color);
        let mut count: usize = 0;
        let mut none_opposite = true;
        let mut k: usize = 0;
        while k < diags.len()
            invariant
                self.well_formed(),
                b == self@,
                inside(c, b.size),
                diags@ == inside_only(diagonal_candidates(c), b.size),
                opp == opposite_color(color),
                k <= diags.len(),
                pred == (|q: Coord| point_color(b, q) == opposite_color(color)),
                count == count_matching(diags@.subrange(0, k as int), pred),
                count <= k,
                none_opposite == forall|i: int| 0 <= i < k ==> point_color(b, #[trigger] diags@[i]) != opp,
            decreases diags.len() - k,
        {
            let q = diags[k];
            proof {
                lemma_inside_only_contains(diagonal_candidates(c), b.size, q);
                assert(diags@.contains(q));
                lemma_index_bounds(q, b.size);
                assert(diags@.subrange(0, k + 1).drop_last() =~= diags@.subrange(0, k as int));
                assert(count_matching(diags@.subrange(0, k + 1), pred) == count_matching(
                    diags@.subrange(0, k as int),
                    pred,
                ) + if pred(q) {
                    1nat
                } else {
                    0nat
                });
            }
            if self.board[q.to_index(self.size)] == opp {
                count = count + 1;
                none_opposite = false;
            }
            k = k + 1;
        }
        assert(diags@.subrange(0, diags.len() as int) =~= diags@);
        if diags.len() < 4 {
            none_opposite
        } else {
            count <= 1
        }
    }

    /// The vacant points of the board, by column and then by row.
    pub fn vacant(&self) -> (res: Vec<Coord>)
        requires
            self.well_formed(),
        ensures
            res@ == vacant_points(self@),
    {
        let ghost b = self@;
        let flags = self.color_flags(Color::Empty);
        collect_flags(&flags, self.size, Ghost(|c: Coord| point_color(b, c) == Color::Empty))
    }

    /// The number of vacant points of the board.
    pub fn vacant_point_count(&self) -> (res: u16)
        requires
            self.well_formed(),
        ensures
            res == vacant_count(self@),
    {
        let ghost b = self@;
        let flags = self.color_flags(Color::Empty);
        let n = count_flags(&flags, self.size, Ghost(|c: Coord| point_color(b, c) == Color::Empty));
        proof {
            lemma_count_points_bound(|c: Coord| point_color(b, c) == Color::Empty, b.size);
            assert(b.size * b.size <= 126 * 126) by (nonlinear_arith)
                requires
                    0 <= b.size < 127,
            ;
        }
        n as u16
    }

    /// Flags, indexed like the board, of the points of a colour.
    fn color_flags(&self, color: Color) -> (flags: Vec<bool>)
        requires
            self.well_formed(),
        ensures
            flags.len() == self@.cells.len(),
            forall|q: Coord| inside(q, self@.size) ==> #[trigger] flags@[index_of(q, self@.size)] == (point_color(
                self@,
                q,
            ) == color),
    {
        let ghost b = self@;
        let n = self.board.len();
        let mut flags: Vec<bool> = Vec::new();
        let mut i: usize = 0;
        while i < n
            invariant
                i <= n,
                n == b.cells.len(),
                b == self@,
                flags.len() == i,
                forall|k: int| 0 <= k < i ==> #[trigger] flags@[k] == (b.cells[k] == color),
            decreases n - i,
        {
            flags.push(self.board[i] == color);
            i = i + 1;
        }
        proof {
            assert forall|q: Coord| inside(q, b.size) implies #[trigger] flags@[index_of(q, b.size)] == (point_color(b, q) == color) by {
                lemma_index_bounds(q, b.size);
            }
        }
        flags
    }

    /// Flags, indexed like the board, of the vacant points where `color`
    /// may play, leaving out its own eyes when asked to.
    fn playable_flags(&self, color: Color, skip_eyes: bool) -> (flags: Vec<bool>)
        requires
            self.well_formed(),
        ensures
            flags.len() == self@.cells.len(),
            forall|q: Coord| inside(q, self@.size) ==> #[trigger] flags@[index_of(q, self@.size)] == (playable(
                self@,
                color,
                q,
            ) && (skip_eyes ==> !eye(self@, q, color))),
    {
        let ghost b = self@;
        let ghost sz = b.size;
        let n = self.board.len();
        let mut flags: Vec<bool> = Vec::new();
        let mut i: usize = 0;
        while i < n
            invariant
                self.well_formed(),
                i <= n,
                n == b.cells.len(),
                b == self@,
                sz == b.size,
                flags.len() == i,
                forall|k: int| 0 <= k < i ==> #[trigger] flags@[k] == (playable(b, color, coord_of(k, sz)) && (
                skip_eyes ==> !eye(b, coord_of(k, sz), color))),
            decreases n - i,
        {
            proof {
                lemma_index_of_coord(i as int, sz);
            }
            let c = Coord::from_index(i, self.size);
            assert(c == coord_of(i as int, sz));
            let mut ok = false;
            if self.board[i] == Color::Empty {
                ok = match self.is_legal(Move::Play(color, c.col, c.row)) {
                    Ok(()) => true,
                    Err(_) => false,
                };
                if ok && skip_eyes {
                    ok = !self.is_eye(&c, color);
                }
            }
            flags.push(ok);
            i = i + 1;
        }
        proof {
            assert forall|q: Coord| inside(q, sz) implies #[trigger] flags@[index_of(q, sz)] == (playable(b, color, q) && (
            skip_eyes ==> !eye(b, q, color))) by {
                lemma_coord_of_index(q, sz);
            }
        }
        flags
    }

    /// The plays the player to move may make, by column and then by row,
    /// without looking at earlier positions; none once the game is over.
    pub fn legal_moves_without_superko_check(&self) -> (res: Vec<Move>)
        requires
            self.well_formed(),
        ensures
            res@ == legal_plays(self@),
    {
        let ghost b = self@;
        if self.is_game_over() {
            let v: Vec<Move> = Vec::new();
            assert(v@ =~= legal_plays(b));
            return v;
        }
        let color = self.next_player();
        let flags = self.playable_flags(color, false);
        let ghost pred = |c: Coord| playable(b, next_color(b), c);
        assert forall|q: Coord| inside(q, b.size) implies #[trigger] flags@[index_of(q, b.size)] == pred(q) by {}
        let pts = collect_flags(&flags, self.size, Ghost(pred));
        plays_on(&pts, color)
    }

    /// The legal plays that do not fill an own eye.
    pub fn legal_moves_without_eyes(&self) -> (res: Vec<Move>)
        requires
            self.well_formed(),
        ensures
            res@ == legal_plays_without_eyes(self@),
    {
        let ghost b = self@;
        if self.is_game_over() {
            let v: Vec<Move> = Vec::new();
            assert(v@ =~= legal_plays_without_eyes(b));
            return v;
        }
        let color = self.next_player();
        let flags = self.playable_flags(color, true);
        let ghost pred = |c: Coord| playable(b, next_color(b), c) && !eye(b, c, next_color(b));
        assert forall|q: Coord| inside(q, b.size) implies #[trigger] flags@[index_of(q, b.size)] == pred(q) by {}
        let pts = collect_flags(&flags, self.size, Ghost(pred));
        plays_on(&pts, color)
    }

    /// The area of each player: its stones and the vacant points that only
    /// its stones surround, Black's first.
    pub fn score(&self) -> (res: (usize, usize))
        requires
            self.well_formed(),
        ensures
            res.0 == area(self@, Color::Black),
            res.1 == area(self@, Color::White),
    {
        let ghost b = self@;
        let ghost sz = b.size;
        let n = self.board.len();
        let mut black: Vec<bool> = Vec::new();
        let mut white: Vec<bool> = Vec::new();
        let mut i: usize = 0;
        while i < n
            invariant
                self.well_formed(),
                i <= n,
                n == b.cells.len(),
                b == self@,
                sz == b.size,
                black.len() == i,
                white.len() == i,
                forall|k: int| 0 <= k < i ==> #[trigger] black@[k] == owned_by(b, coord_of(k, sz), Color::Black),
                forall|k: int| 0 <= k < i ==> #[trigger] white@[k] == owned_by(b, coord_of(k, sz), Color::White),
            decreases n - i,
        {
            proof {
                lemma_index_of_coord(i as int, sz);
            }
            let c = Coord::from_index(i, self.size);
            assert(c == coord_of(i as int, sz));
            let cell = self.board[i];
            if cell == Color::Empty {
                let tb = self.region_reaches(c, Color::Black);
                let tw = self.region_reaches(c, Color::White);
                black.push(tb && !tw);
                white.push(tw && !tb);
            } else {
                black.push(cell == Color::Black);
                white.push(cell == Color::White);
            }
            i = i + 1;
        }
        let ghost pb = |x: Coord| inside(x, sz) && owned_by(b, x, Color::Black);
        let ghost pw = |x: Coord| inside(x, sz) && owned_by(b, x, Color::White);
        proof {
            assert forall|q: Coord| inside(q, sz) implies #[trigger] black@[index_of(q, sz)] == pb(q) by {
                lemma_coord_of_index(q, sz);
            }
            assert forall|q: Coord| inside(q, sz) implies #[trigger] white@[index_of(q, sz)] == pw(q) by {
                lemma_coord_of_index(q, sz);
            }
        }
        let bs = count_flags(&black, self.size, Ghost(pb));
        let ws = count_flags(&white, self.size, Ghost(pw));
        (bs, ws)
    }

    /// Whether the vacant region of `c` borders a stone of `color`.
    fn region_reaches(&self, c: Coord, color: Color) -> (res: bool)
        requires
            self.well_formed(),
            inside(c, self@.size),
        ensures
            res == reaches(self@, c, color),
    {
        let ghost b = self@;
        let marks = self.marks_of(c);
        let flags = touching_flags(&self.board, self.size, &self.cache.neighbours, &marks, Ghost(c), color);
        let ghost pred = |z: Coord| touches(b.cells, b.size, c, z, color);
        let k = count_flags(&flags, self.size, Ghost(pred));
        proof {
            lemma_count_points_zero(pred, b.size);
            if k == 0 {
                assert forall|z: Coord| !touches(b.cells, b.size, c, z, color) by {
                    if touches(b.cells, b.size, c, z, color) {
                        assert(pred(z));
                    }
                }
            } else {
                let z = choose|z: Coord| inside(z, b.size) && pred(z);
                assert(touches(b.cells, b.size, c, z, color));
            }
        }
        k > 0
    }

    /// The winner: the opponent of a player who resigned, otherwise the
    /// player ahead on area once komi is counted.
    pub fn winner(&self) -> (res: Color)
        requires
            self.well_formed(),
        ensures
            res == winner_of(self@),
    {
        if self.resigned_by == Color::Empty {
            let scores = self.score();
            Score::new(scores, self.komi).color()
        } else {
            self.resigned_by.opposite()
        }
    }

    /// The number of vacant orthogonal neighbours of a point.
    pub fn liberty_count(&self, c: Coord) -> (res: usize)
        requires
            self.well_formed(),
            inside(c, self@.size),
        ensures
            res == count_matching(
                inside_only(neighbour_candidates(c), self@.size),
                |q: Coord| point_color(self@, q) == Color::Empty,
            ),
    {
        let ghost b = self@;
        let ghost pred = |q: Coord| point_color(b, q) == Color::Empty;
        let nb = self.neighbours(c);
        let mut count: usize = 0;
        let mut k: usize = 0;
        while k < nb.len()
            invariant
                self.well_formed(),
                b == self@,
                inside(c, b.size),
                nb@ == inside_only(neighbour_candidates(c), b.size),
                pred == (|q: Coord| point_color(b, q) == Color::Empty),
                k <= nb.len(),
                count == count_matching(nb@.subrange(0, k as int), pred),
                count <= k,
            decreases nb.len() - k,
        {
            let q = nb[k];
            proof {
                lemma_inside_only_contains(neighbour_candidates(c), b.size, q);
                assert(nb@.contains(q));
                lemma_index_bounds(q, b.size);
                assert(nb@.subrange(0, k + 1).drop_last() =~= nb@.subrange(0, k as int));
                assert(count_matching(nb@.subrange(0, k + 1), pred) == count_matching(
                    nb@.subrange(0, k as int),
                    pred,
                ) + if pred(q) {
                    1nat
                } else {
                    0nat
                });
            }
            if self.board[q.to_index(self.size)] == Color::Empty {
                count = count + 1;
            }
            k = k + 1;
        }
        assert(nb@.subrange(0, nb.len() as int) =~= nb@);
        count
    }

    /// The number of opposing neighbours of a play whose chains have a
    /// single liberty.
    pub fn removes_enemy_neighbouring_stones(&self, m: Move) -> (res: usize)
        requires
            self.well_formed(),
            m is Play,
            inside(move_coord(m), self@.size),
        ensures
            res == count_matching(
                inside_only(neighbour_candidates(move_coord(m)), self@.size),
                |q: Coord| point_color(self@, q) == opposite_color(move_color(m)) && liberty_count(
                    self@.cells,
                    self@.size,
                    q,
                ) == 1,
            ),
    {
        let ghost b = self@;
        let c = m.coord();
        let enemy = m.color().opposite();
        let ghost pred = |q: Coord| point_color(b, q) == opposite_color(move_color(m)) && liberty_count(
            b.cells,
            b.size,
            q,
        ) == 1;
        let nb = self.neighbours(c);
        let mut count: usize = 0;
        let mut k: usize = 0;
        while k < nb.len()
            invariant
                self.well_formed(),
                b == self@,
                inside(c, b.size),
                enemy == opposite_color(move_color(m)),
                nb@ == inside_only(neighbour_candidates(c), b.size),
                pred == (|q: Coord| point_color(b, q) == opposite_color(move_color(m)) && liberty_count(
                    b.cells,
                    b.size,
                    q,
                ) == 1),
                k <= nb.len(),
                count == count_matching(nb@.subrange(0, k as int), pred),
                count <= k,
            decreases nb.len() - k,
        {
            let q = nb[k];
            proof {
                lemma_inside_only_contains(neighbour_candidates(c), b.size, q);
                assert(nb@.contains(q));
                lemma_index_bounds(q, b.size);
                assert(nb@.subrange(0, k + 1).drop_last() =~= nb@.subrange(0, k as int));
                assert(count_matching(nb@.subrange(0, k + 1), pred) == count_matching(
                    nb@.subrange(0, k as int),
                    pred,
                ) + if pred(q) {
                    1nat
                } else {
                    0nat
                });
            }
            if self.board[q.to_index(self.size)] == enemy && self.chain_liberties(q) == 1 {
                count = count + 1;
            }
            k = k + 1;
        }
        assert(nb@.subrange(0, nb.len() as int) =~= nb@);
        count
    }

    /// The number of liberties of the chain that a play would form with
    /// its neighbouring chains of the same colour, less one for the point
    /// played.
    pub fn new_chain_liberties(&self, m: Move) -> (res: usize)
        requires
            self.well_formed(),
            m is Play,
            inside(move_coord(m), self@.size),
            count_points(|l: Coord| joined_liberty(self@, move_coord(m), move_color(m), l), self@.size) >= 1,
        ensures
            res == count_points(|l: Coord| joined_liberty(self@, move_coord(m), move_color(m), l), self@.size)
                - 1,
    {
        let ghost b = self@;
        let (stones, libs) = self.joined_flags(m);
        let ghost pred = |l: Coord| joined_liberty(b, move_coord(m), move_color(m), l);
        let n = count_flags(&libs, self.size, Ghost(pred));
        n - 1
    }

    /// The number of stones of the chain that a play would form with its
    /// neighbouring chains of the same colour, the played stone included.
    pub fn new_chain_length(&self, m: Move) -> (res: usize)
        requires
            self.well_formed(),
            m is Play,
            inside(move_coord(m), self@.size),
        ensures
            res == count_points(|x: Coord| joined_stone(self@, move_coord(m), move_color(m), x), self@.size)
                + 1,
    {
        let ghost b = self@;
        let (stones, libs) = self.joined_flags(m);
        let ghost pred = |x: Coord| joined_stone(b, move_coord(m), move_color(m), x);
        let n = count_flags(&stones, self.size, Ghost(pred));
        proof {
            lemma_count_points_bound(pred, b.size);
            assert(b.size * b.size <= 126 * 126) by (nonlinear_arith)
                requires
                    0 <= b.size < 127,
            ;
        }
        n + 1
    }

    /// Flags, indexed like the board, of the stones and of the liberties of
    /// the chain that a play would form with its neighbouring chains.
    fn joined_flags(&self, m: Move) -> (res: (Vec<bool>, Vec<bool>))
        requires
            self.well_formed(),
            m is Play,
            inside(move_coord(m), self@.size),
        ensures
            res.0.len() == self@.cells.len(),
            res.1.len() == self@.cells.len(),
            forall|x: Coord| inside(x, self@.size) ==> #[trigger] res.0@[index_of(x, self@.size)] == joined_stone(
                self@,
                move_coord(m),
                move_color(m),
                x,
            ),
            forall|x: Coord| inside(x, self@.size) ==> #[trigger] res.1@[index_of(x, self@.size)] == joined_liberty(
                self@,
                move_coord(m),
                move_color(m),
                x,
            ),
    {
        let ghost b = self@;
        let ghost sz = b.size;
        let p = m.coord();
        let color = *m.color();
        let nb = self.neighbours(p);
        let n = self.board.len();
        let mut stones = unset_flags(n);
        let mut libs = unset_flags(n);
        proof {
            assert forall|x: Coord| inside(x, sz) implies !(#[trigger] stones@[index_of(x, sz)]) by {
                lemma_index_bounds(x, sz);
            }
            assert forall|x: Coord| inside(x, sz) implies !(#[trigger] libs@[index_of(x, sz)]) by {
                lemma_index_bounds(x, sz);
            }
        }
        let mut j: usize = 0;
        while j < nb.len()
            invariant
                self.well_formed(),
                b == self@,
                sz == b.size,
                p == move_coord(m),
                color == move_color(m),
                inside(p, sz),
                nb@ == inside_only(neighbour_candidates(p), sz),
                n == b.cells.len(),
                stones.len() == n,
                libs.len() == n,
                j <= nb.len(),
                forall|x: Coord|
                    inside(x, sz) ==> #[trigger] stones@[index_of(x, sz)] == exists|k: int|
                        0 <= k < j && point_color(b, #[trigger] nb@[k]) == color && in_chain(b.cells, sz, nb@[k], x),
                forall|x: Coord|
                    inside(x, sz) ==> #[trigger] libs@[index_of(x, sz)] == exists|k: int|
                        0 <= k < j && ((point_color(b, #[trigger] nb@[k]) == color && is_liberty(b.cells, sz, nb@[k], x))
                            || (point_color(b, nb@[k]) == Color::Empty && x == nb@[k])),
            decreases nb.len() - j,
        {
            let q = nb[j];
            proof {
                lemma_inside_only_contains(neighbour_candidates(p), sz, q);
                assert(nb@.contains(q));
                lemma_neighbours_exact(p, sz, q);
                lemma_index_bounds(q, sz);
            }
            let ghost stones_before = stones@;
            let ghost libs_before = libs@;
            let cq = self.board[q.to_index(self.size)];
            let ghost here_stone = |x: Coord| point_color(b, q) == color && in_chain(b.cells, sz, q, x);
            let ghost here_lib = |x: Coord| (point_color(b, q) == color && is_liberty(b.cells, sz, q, x))
                || (point_color(b, q) == Color::Empty && x == q);
            if cq == color {
                let marks = self.marks_of(q);
                let lf = touching_flags(&self.board, self.size, &self.cache.neighbours, &marks, Ghost(q), Color::Empty);
                union_flags(&mut stones, &marks);
                union_flags(&mut libs, &lf);
                let ghost libs_mid = libs@;
                proof {
                    assert forall|x: Coord| inside(x, sz) implies #[trigger] stones@[index_of(x, sz)] == (stones_before[index_of(x, sz)] || here_stone(x)) by {
                        lemma_index_bounds(x, sz);
                    }
                    assert forall|x: Coord| inside(x, sz) implies #[trigger] libs_mid[index_of(x, sz)] == (libs_before[index_of(x, sz)] || is_liberty(b.cells, sz, q, x)) by {
                        lemma_index_bounds(x, sz);
                    }
                }
                if cq == Color::Empty {
                    libs.set(q.to_index(self.size), true);
                }
                proof {
                    assert forall|x: Coord| inside(x, sz) implies #[trigger] libs@[index_of(x, sz)] == (libs_before[index_of(x, sz)] || here_lib(x)) by {
                        lemma_index_bounds(x, sz);
                        if index_of(x, sz) == index_of(q, sz) {
                            lemma_index_injective(x, q, sz);
                        }
                        assert(libs_mid[index_of(x, sz)] == (libs_before[index_of(x, sz)] || is_liberty(b.cells, sz, q, x)));
                    }
                }
            } else if cq == Color::Empty {
                libs.set(q.to_index(self.size), true);
                proof {
                    assert forall|x: Coord| inside(x, sz) implies #[trigger] stones@[index_of(x, sz)] == (stones_before[index_of(x, sz)] || here_stone(x)) by {
                        lemma_index_bounds(x, sz);
                    }
                    assert forall|x: Coord| inside(x, sz) implies #[trigger] libs@[index_of(x, sz)] == (libs_before[index_of(x, sz)] || here_lib(x)) by {
                        lemma_index_bounds(x, sz);
                        if index_of(x, sz) == index_of(q, sz) {
                            lemma_index_injective(x, q, sz);
                        }
                    }
                }
            } else {
                proof {
                    assert forall|x: Coord| inside(x, sz) implies #[trigger] stones@[index_of(x, sz)] == (stones_before[index_of(x, sz)] || here_stone(x)) by {
                    }
                    assert forall|x: Coord| inside(x, sz) implies #[trigger] libs@[index_of(x, sz)] == (libs_before[index_of(x, sz)] || here_lib(x)) by {
                    }
                }
            }
            proof {
                assert forall|x: Coord| inside(x, sz) implies #[trigger] stones@[index_of(x, sz)] == exists|k: int|
                    0 <= k < j + 1 && point_color(b, #[trigger] nb@[k]) == color && in_chain(b.cells, sz, nb@[k], x) by {
                    assert(stones_before[index_of(x, sz)] == exists|k: int|
                        0 <= k < j && point_color(b, #[trigger] nb@[k]) == color && in_chain(b.cells, sz, nb@[k], x));
                    assert(stones@[index_of(x, sz)] == (stones_before[index_of(x, sz)] || here_stone(x)));
                    if here_stone(x) {
                        assert(point_color(b, nb@[j as int]) == color && in_chain(b.cells, sz, nb@[j as int], x));
                    }
                }
                assert forall|x: Coord| inside(x, sz) implies #[trigger] libs@[index_of(x, sz)] == exists|k: int|
                    0 <= k < j + 1 && ((point_color(b, #[trigger] nb@[k]) == color && is_liberty(b.cells, sz, nb@[k], x))
                        || (point_color(b, nb@[k]) == Color::Empty && x == nb@[k])) by {
                    assert(libs_before[index_of(x, sz)] == exists|k: int|
                        0 <= k < j && ((point_color(b, #[trigger] nb@[k]) == color && is_liberty(b.cells, sz, nb@[k], x))
                            || (point_color(b, nb@[k]) == Color::Empty && x == nb@[k])));
                    assert(libs@[index_of(x, sz)] == (libs_before[index_of(x, sz)] || here_lib(x)));
                    if here_lib(x) {
                        assert((point_color(b, nb@[j as int]) == color && is_liberty(b.cells, sz, nb@[j as int], x))
                            || (point_color(b, nb@[j as int]) == Color::Empty && x == nb@[j as int]));
                    }
                }
            }
            j = j + 1;
        }
        proof {
            assert forall|x: Coord| inside(x, sz) implies #[trigger] stones@[index_of(x, sz)] == joined_stone(b, p, color, x) by {
                if joined_stone(b, p, color, x) {
                    let q = choose|q: Coord| inside(q, sz) && #[trigger] adjacent(p, q) && point_color(b, q) == color && in_chain(b.cells, sz, q, x);
                    lemma_neighbours_exact(p, sz, q);
                    lemma_inside_only_contains(neighbour_candidates(p), sz, q);
                    let k = choose|k: int| 0 <= k < nb@.len() && nb@[k] == q;
                    assert(point_color(b, nb@[k]) == color && in_chain(b.cells, sz, nb@[k], x));
                }
                if stones@[index_of(x, sz)] {
                    let k = choose|k: int| 0 <= k < nb@.len() && point_color(b, #[trigger] nb@[k]) == color && in_chain(b.cells, sz, nb@[k], x);
                    let q = nb@[k];
                    lemma_inside_only_contains(neighbour_candidates(p), sz, q);
                    assert(nb@.contains(q));
                    lemma_neighbours_exact(p, sz, q);
                }
            }
            assert forall|x: Coord| inside(x, sz) implies #[trigger] libs@[index_of(x, sz)] == joined_liberty(b, p, color, x) by {
                if joined_liberty(b, p, color, x) {
                    if exists|q: Coord| inside(q, b.size) && #[trigger] adjacent(p, q) && point_color(b, q) == color
                        && is_liberty(b.cells, b.size, q, x) {
                        let q = choose|q: Coord| inside(q, b.size) && #[trigger] adjacent(p, q) && point_color(b, q) == color
                            && is_liberty(b.cells, b.size, q, x);
                        lemma_neighbours_exact(p, sz, q);
                        lemma_inside_only_contains(neighbour_candidates(p), sz, q);
                        let k = choose|k: int| 0 <= k < nb@.len() && nb@[k] == q;
                        assert(point_color(b, nb@[k]) == color && is_liberty(b.cells, sz, nb@[k], x));
                    } else {
                        lemma_neighbours_exact(p, sz, x);
                        lemma_inside_only_contains(neighbour_candidates(p), sz, x);
                        let k = choose|k: int| 0 <= k < nb@.len() && nb@[k] == x;
                        assert(point_color(b, nb@[k]) == Color::Empty && x == nb@[k]);
                    }
                }
                if libs@[index_of(x, sz)] {
                    let k = choose|k: int| 0 <= k < nb@.len() && ((point_color(b, #[trigger] nb@[k]) == color && is_liberty(b.cells, sz, nb@[k], x))
                        || (point_color(b, nb@[k]) == Color::Empty && x == nb@[k]));
                    let q = nb@[k];
                    lemma_inside_only_contains(neighbour_candidates(p), sz, q);
                    assert(nb@.contains(q));
                    lemma_neighbours_exact(p, sz, q);
                }
            }
        }
        (stones, libs)
    }

    /// Marks of the chain of a point of the board.
    fn marks_of(&self, q: Coord) -> (marks: Vec<bool>)
        requires
            self.well_formed(),
            inside(q, self@.size),
        ensures
            marks.len() == self@.cells.len(),
            forall|x: Coord|
                inside(x, self@.size) ==> #[trigger] marks@[index_of(x, self@.size)] == in_chain(
                    self@.cells,
                    self@.size,
                    q,
                    x,
                ),
    {
        chain_marks(&self.board, self.size, &self.cache.neighbours, q)
    }

    /// The number of liberties of the chain of a point of the board.
    fn chain_liberties(&self, q: Coord) -> (res: usize)
        requires
            self.well_formed(),
            inside(q, self@.size),
        ensures
            res == liberty_count(self@.cells, self@.size, q),
    {
        let marks = self.marks_of(q);
        let flags = touching_flags(&self.board, self.size, &self.cache.neighbours, &marks, Ghost(q), Color::Empty);
        let ghost cells = self@.cells;
        let ghost sz = self@.size;
        count_flags(&flags, self.size, Ghost(|l: Coord| is_liberty(cells, sz, q, l)))
    }

    /// The number of stones in the chain of a point of the board.
    fn chain_stones(&self, q: Coord) -> (res: usize)
        requires
            self.well_formed(),
            inside(q, self@.size),
        ensures
            res == chain_len(self@.cells, self@.size, q),
    {
        let marks = self.marks_of(q);
        let ghost cells = self@.cells;
        let ghost sz = self@.size;
        count_flags(&marks, self.size, Ghost(|x: Coord| inside(x, sz) && in_chain(cells, sz, q, x)))
    }
}

/// Plays of `color` on the given points.
fn plays_on(pts: &Vec<Coord>, color: Color) -> (res: Vec<Move>)
    ensures
        res@ == as_plays(pts@, color),
{
    let mut res: Vec<Move> = Vec::new();
    let mut i: usize = 0;
    while i < pts.len()
        invariant
            i <= pts.len(),
            res@ == as_plays(pts@.subrange(0, i as int), color),
        decreases pts.len() - i,
    {
        let p = pts[i];
        res.push(Move::Play(color, p.col, p.row));
        assert(as_plays(pts@.subrange(0, i + 1), color) =~= as_plays(pts@.subrange(0, i as int), color).push(
            Move::Play(color, p.col, p.row),
        ));
        i = i + 1;
    }
    assert(pts@.subrange(0, pts.len() as int) =~= pts@);
    res
}

/// A copy of a list of points.
fn copy_coords(v: &Vec<Coord>) -> (res: Vec<Coord>)
    ensures
        res@ == v@,
{
    let mut res: Vec<Coord> = Vec::new();
    let mut i: usize = 0;
    while i < v.len()
        invariant
            i <= v.len(),
            res@ == v@.subrange(0, i as int),
        decreases v.len() - i,
    {
        res.push(v[i]);
        i = i + 1;
    }
    assert(res@ =~= v@);
    res
}

/// A copy of a list of colours.
fn copy_colors(v: &Vec<Color>) -> (res: Vec<Color>)
    ensures
        res@ == v@,
{
    let mut res: Vec<Color> = Vec::new();
    let mut i: usize = 0;
    while i < v.len()
        invariant
            i <= v.len(),
            res@ == v@.subrange(0, i as int),
        decreases v.len() - i,
    {
        res.push(v[i]);
        i = i + 1;
    }
    assert(res@ =~= v@);
    res
}

} // verus!
