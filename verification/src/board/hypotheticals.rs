//! Questions about a play before it is made: how many liberties and stones
//! the chain it forms would have, what it would capture, and whether it
//! puts its own chain in atari.
use vstd::prelude::*;

use super::coord::adjacent;
use super::coord::index_of;
use super::coord::inside;
use super::coord::inside_only;
use super::coord::neighbour_candidates;
use super::movement::move_color;
use super::movement::move_coord;
use super::opposite_color;
use super::position::chain_len;
use super::position::count_flags;
use super::position::lemma_index_bounds;
use super::position::lemma_index_injective;
use super::position::lemma_inside_only_contains;
use super::position::lemma_neighbours_exact;
use super::position::count_points;
use super::position::lemma_count_points_two;
use super::position::liberty_count;
use super::rules::count_matching;
use super::rules::joined_liberty;
use super::rules::joined_stone;
use super::rules::point_color;
use super::rules::BoardView;
use super::Board;
use super::Color;
use super::Coord;
use super::Move;

verus! {

/// A play of a colour on a point of the board.
pub open spec fn board_play(b: BoardView, m: Move) -> bool {
    m is Play && inside(move_coord(m), b.size)
}

/// The liberties, other than the point played, of the chain that the play
/// would form with its neighbouring chains of the same colour.
pub open spec fn other_liberties(b: BoardView, m: Move) -> nat {
    count_points(
        |l: Coord| joined_liberty(b, move_coord(m), move_color(m), l) && l != move_coord(m),
        b.size,
    )
}

/// The stones of the neighbouring chains of the same colour as the play.
pub open spec fn joined_stones(b: BoardView, m: Move) -> nat {
    count_points(|x: Coord| joined_stone(b, move_coord(m), move_color(m), x), b.size)
}

/// The point played has a neighbour of its own colour.
pub open spec fn touches_own(b: BoardView, m: Move) -> bool {
    exists|q: Coord|
        inside(q, b.size) && #[trigger] adjacent(move_coord(m), q) && point_color(b, q) == move_color(m)
}

/// An opposing neighbour of the point played whose chain is in atari.
pub open spec fn atari_neighbour(b: BoardView, m: Move, q: Coord) -> bool {
    point_color(b, q) == opposite_color(move_color(m)) && liberty_count(b.cells, b.size, q) == 1
}

/// The number of opposing neighbours whose chain is in atari, one per
/// neighbour.
pub open spec fn atari_neighbours(b: BoardView, m: Move) -> nat {
    count_matching(inside_only(neighbour_candidates(move_coord(m)), b.size), |q: Coord| atari_neighbour(b, m, q))
}

/// Some opposing neighbour in atari belongs to a chain of several stones.
pub open spec fn captures_several(b: BoardView, m: Move) -> bool {
    exists|q: Coord|
        inside(q, b.size) && #[trigger] adjacent(move_coord(m), q) && atari_neighbour(b, m, q) && chain_len(
            b.cells,
            b.size,
            q,
        ) > 1
}

/// The number of vacant orthogonal neighbours of the point played.
pub open spec fn vacant_neighbours(b: BoardView, p: Coord) -> nat {
    count_matching(inside_only(neighbour_candidates(p), b.size), |q: Coord| point_color(b, q) == Color::Empty)
}

/// A play does not put its own chain in atari: it keeps two vacant
/// neighbours, or it captures and keeps a vacant neighbour, or it captures
/// more than one stone, or it captures and its chain keeps another liberty,
/// or its chain keeps two other liberties.
pub open spec fn not_self_atari(b: BoardView, m: Move) -> bool {
    let empty = vacant_neighbours(b, move_coord(m));
    let one = atari_neighbours(b, m) >= 1;
    let several = atari_neighbours(b, m) >= 2 || captures_several(b, m);
    ||| empty > 1
    ||| empty > 0 && one
    ||| several
    ||| one && other_liberties(b, m) > 0
    ||| other_liberties(b, m) > 1
}

/// A play whose chain, joined with its neighbouring chains of its colour,
/// keeps two different liberties besides the point played is never a
/// self-atari; so a self-atari leaves that chain at most one such liberty.
pub proof fn lemma_two_liberties_not_self_atari(b: BoardView, m: Move, l1: Coord, l2: Coord)
    requires
        m is Play,
        0 <= b.size <= 255,
        l1 != l2,
        l1 != move_coord(m),
        l2 != move_coord(m),
        joined_liberty(b, move_coord(m), move_color(m), l1),
        joined_liberty(b, move_coord(m), move_color(m), l2),
    ensures
        not_self_atari(b, m),
{
    let pred = |l: Coord| joined_liberty(b, move_coord(m), move_color(m), l) && l != move_coord(m);
    assert(pred(l1) && pred(l2));
    lemma_count_points_two(pred, b.size, l1, l2);
}

/// No element of the row matches, so none is counted.
proof fn lemma_count_matching_none(s: Seq<Coord>, pred: spec_fn(Coord) -> bool)
    requires
        forall|i: int| 0 <= i < s.len() ==> !pred(#[trigger] s[i]),
    ensures
        count_matching(s, pred) == 0,
    decreases s.len(),
{
    if s.len() > 0 {
        lemma_count_matching_none(s.drop_last(), pred);
        assert(!pred(s[s.len() - 1]));
    }
}

/// A play is a self-atari when all its neighbours hold stones, none of
/// them an opposing chain in atari that it would capture, and the chain it
/// joins has no liberty besides the point played.
pub proof fn lemma_closed_play_is_self_atari(b: BoardView, m: Move)
    requires
        m is Play,
        0 <= b.size < 127,
        inside(move_coord(m), b.size),
        forall|l: Coord| #[trigger] joined_liberty(b, move_coord(m), move_color(m), l) ==> l == move_coord(m),
        forall|q: Coord|
            inside(q, b.size) && #[trigger] adjacent(move_coord(m), q) ==> point_color(b, q) != Color::Empty && !(
            point_color(b, q) == opposite_color(move_color(m)) && liberty_count(b.cells, b.size, q) == 1),
    ensures
        !not_self_atari(b, m),
{
    let p = move_coord(m);
    let pred = |l: Coord| joined_liberty(b, p, move_color(m), l) && l != p;
    super::position::lemma_count_points_zero(pred, b.size);
    let nb = inside_only(neighbour_candidates(p), b.size);
    assert forall|i: int| 0 <= i < nb.len() implies inside(#[trigger] nb[i], b.size) && adjacent(p, nb[i]) by {
        lemma_neighbours_exact(p, b.size, nb[i]);
        assert(nb.contains(nb[i]));
    }
    lemma_count_matching_none(nb, |q: Coord| point_color(b, q) == Color::Empty);
    lemma_count_matching_none(nb, |q: Coord| atari_neighbour(b, m, q));
}

impl Board {
    /// Whether the chain that the play would form has more than `limit`
    /// liberties other than the point played.
    pub fn new_chain_liberties_greater_than(&self, m: Move, limit: usize) -> (res: bool)
        requires
            self.well_formed(),
            board_play(self@, m),
        ensures
            res == (other_liberties(self@, m) > limit),
    {
        let ghost b = self@;
        let ghost sz = b.size;
        let p = m.coord();
        let (stones, libs) = self.joined_flags(m);
        let mut others = libs;
        proof {
            lemma_index_bounds(p, sz);
        }
        others.set(p.to_index(self.size), false);
        let ghost pred = |l: Coord| joined_liberty(b, move_coord(m), move_color(m), l) && l != move_coord(m);
        proof {
            assert forall|l: Coord| inside(l, sz) implies #[trigger] others@[index_of(l, sz)] == pred(l) by {
                lemma_index_bounds(l, sz);
                if index_of(l, sz) == index_of(p, sz) {
                    lemma_index_injective(l, p, sz);
                }
            }
        }
        let n = count_flags(&others, self.size, Ghost(pred));
        n > limit
    }

    pub fn new_chain_liberties_greater_than_zero(&self, m: Move) -> (res: bool)
        requires
            self.well_formed(),
            board_play(self@, m),
        ensures
            res == (other_liberties(self@, m) > 0),
    {
        self.new_chain_liberties_greater_than(m, 0)
    }

    pub fn new_chain_liberties_greater_than_one(&self, m: Move) -> (res: bool)
        requires
            self.well_formed(),
            board_play(self@, m),
        ensures
            res == (other_liberties(self@, m) > 1),
    {
        self.new_chain_liberties_greater_than(m, 1)
    }

    /// Whether the neighbouring chains of the play's colour, together with
    /// the stone played, have fewer than `limit + 1` stones; a play with no
    /// neighbour of its colour always passes.
    pub fn new_chain_length_less_than(&self, m: Move, limit: usize) -> (res: bool)
        requires
            self.well_formed(),
            board_play(self@, m),
        ensures
            res == (!touches_own(self@, m) || joined_stones(self@, m) + 1 <= limit),
    {
        let own = self.has_own_neighbour(m);
        if !own {
            return true;
        }
        let length = self.new_chain_length(m);
        length <= limit
    }

    /// Whether a neighbour of the point played has the play's colour.
    fn has_own_neighbour(&self, m: Move) -> (res: bool)
        requires
            self.well_formed(),
            board_play(self@, m),
        ensures
            res == touches_own(self@, m),
    {
        let ghost b = self@;
        let p = m.coord();
        let color = *m.color();
        let nb = self.neighbours(p);
        let mut k: usize = 0;
        while k < nb.len()
            invariant
                self.well_formed(),
                b == self@,
                p == move_coord(m),
                color == move_color(m),
                inside(p, b.size),
                nb@ == inside_only(neighbour_candidates(p), b.size),
                k <= nb.len(),
                forall|j: int| 0 <= j < k ==> point_color(b, #[trigger] nb@[j]) != color,
            decreases nb.len() - k,
        {
            let q = nb[k];
            proof {
                lemma_inside_only_contains(neighbour_candidates(p), b.size, q);
                assert(nb@.contains(q));
                lemma_neighbours_exact(p, b.size, q);
                lemma_index_bounds(q, b.size);
            }
            if self.board[q.to_index(self.size)] == color {
                assert(inside(q, b.size) && adjacent(p, q) && point_color(b, q) == color);
                return true;
            }
            k = k + 1;
        }
        proof {
            if touches_own(b, m) {
                let q = choose|q: Coord| inside(q, b.size) && #[trigger] adjacent(p, q) && point_color(b, q) == color;
                lemma_neighbours_exact(p, b.size, q);
                lemma_inside_only_contains(neighbour_candidates(p), b.size, q);
                let j = choose|j: int| 0 <= j < nb@.len() && nb@[j] == q;
                assert(point_color(b, nb@[j]) != color);
            }
        }
        false
    }

    /// Whether a neighbour in atari of the opposing colour belongs to a
    /// chain of several stones.
    fn captures_several_stones(&self, m: Move) -> (res: bool)
        requires
            self.well_formed(),
            board_play(self@, m),
        ensures
            res == captures_several(self@, m),
    {
        let ghost b = self@;
        let p = m.coord();
        let enemy = m.color().opposite();
        let nb = self.neighbours(p);
        let mut k: usize = 0;
        while k < nb.len()
            invariant
                self.well_formed(),
                b == self@,
                p == move_coord(m),
                enemy == opposite_color(move_color(m)),
                inside(p, b.size),
                nb@ == inside_only(neighbour_candidates(p), b.size),
                k <= nb.len(),
                forall|j: int|
                    0 <= j < k ==> !(atari_neighbour(b, m, #[trigger] nb@[j]) && chain_len(b.cells, b.size, nb@[j]) > 1),
            decreases nb.len() - k,
        {
            let q = nb[k];
            proof {
                lemma_inside_only_contains(neighbour_candidates(p), b.size, q);
                assert(nb@.contains(q));
                lemma_neighbours_exact(p, b.size, q);
                lemma_index_bounds(q, b.size);
            }
            if self.board[q.to_index(self.size)] == enemy {
                if self.chain_liberties(q) == 1 && self.chain_stones(q) > 1 {
                    assert(inside(q, b.size) && adjacent(p, q));
                    return true;
                }
            }
            k = k + 1;
        }
        proof {
            if captures_several(b, m) {
                let q = choose|q: Coord|
                    inside(q, b.size) && #[trigger] adjacent(p, q) && atari_neighbour(b, m, q) && chain_len(
                        b.cells,
                        b.size,
                        q,
                    ) > 1;
                lemma_neighbours_exact(p, b.size, q);
                lemma_inside_only_contains(neighbour_candidates(p), b.size, q);
                let j = choose|j: int| 0 <= j < nb@.len() && nb@[j] == q;
                assert(!(atari_neighbour(b, m, nb@[j]) && chain_len(b.cells, b.size, nb@[j]) > 1));
            }
        }
        false
    }

    /// Whether the play captures: first whether it captures at all, then
    /// whether it captures more than one stone (two opposing neighbours in
    /// atari, or one whose chain has several stones).
    pub fn removes_multiple_enemy_neighbouring_stones(&self, m: Move) -> (res: (bool, bool))
        requires
            self.well_formed(),
            board_play(self@, m),
        ensures
            res.0 == (atari_neighbours(self@, m) >= 1),
            res.1 == (atari_neighbours(self@, m) >= 2 || captures_several(self@, m)),
    {
        let n = self.removes_enemy_neighbouring_stones(m);
        proof {
            let b = self@;
            let f1 = |q: Coord| atari_neighbour(b, m, q);
            let f2 = |q: Coord| point_color(b, q) == opposite_color(move_color(m)) && liberty_count(b.cells, b.size, q) == 1;
            assert(f1 =~= f2);
            assert(n == atari_neighbours(b, m));
        }
        if n >= 2 {
            return (true, true);
        }
        let several = self.captures_several_stones(m);
        (n >= 1, several)
    }

    /// Whether a play keeps its chain out of atari, or captures enough for
    /// it not to be taken back at once.
    pub fn is_not_self_atari(&self, m: &Move) -> (res: bool)
        requires
            self.well_formed(),
            board_play(self@, *m),
        ensures
            res == not_self_atari(self@, *m),
    {
        let empty = self.liberty_count(m.coord());
        if empty > 1 {
            return true;
        }
        let (removes_stone, removes_stones) = self.removes_multiple_enemy_neighbouring_stones(*m);
        if (empty > 0 && removes_stone) || removes_stones {
            return true;
        }
        (removes_stone && self.new_chain_liberties_greater_than_zero(*m)) || self.new_chain_liberties_greater_than_one(*m)
    }
}

} // verus!
