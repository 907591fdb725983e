//! A node of the search tree: a move, how often it was played and won,
//! how many nodes lie below it, and its children.
use vstd::prelude::*;

use crate::board::chains::chain_heads;
use crate::board::chains::numbered_chain;
use crate::board::coord::inside;
use crate::board::coord::lemma_near_points_listed;
use crate::board::coord::manhattan;
use crate::board::coord::manhattan_offsets;
use crate::board::coord::offset_points;
use crate::board::hypotheticals::board_play;
use crate::board::hypotheticals::not_self_atari;
use crate::board::movement::move_color;
use crate::board::movement::move_coord;
use crate::board::opposite_color;
use crate::board::reading::ladder_capture;
use crate::board::rules::next_color;
use crate::board::rules::point_color;
use crate::board::rules::BoardView;
use crate::board::Board;
use crate::board::rules::game_over;
use crate::board::rules::legal_plays_without_eyes;
use crate::board::Color;
use crate::board::Coord;
use crate::board::Move;
use crate::config::TreeConfig;
use crate::engine::prior::border_distance;
use crate::engine::prior::in_empty_area;
use crate::engine::prior::vacant_around;
use crate::game::play_outcome;
use crate::game::playable_moves;
use crate::game::Game;
use crate::game::GameView;

verus! {

/// A node of the search tree.
#[derive(Debug, PartialEq)]
pub struct Node {
    pub children: Vec<Node>,
    pub config: TreeConfig,
    pub descendants: usize,
    pub m: Move,
    pub plays: usize,
    pub wins: usize,
}

/// The content of a node, its children included.
pub ghost struct NodeView {
    pub children: Seq<NodeView>,
    pub config: TreeConfig,
    pub descendants: int,
    pub m: Move,
    pub plays: int,
    pub wins: int,
}

/// The content of a node.
pub open spec fn node_view(n: Node) -> NodeView
    decreases n,
{
    NodeView {
        children: Seq::new(
            n.children@.len(),
            |i: int|
                if 0 <= i < n.children@.len() {
                    node_view(n.children@[i])
                } else {
                    NodeView { children: Seq::empty(), config: n.config, descendants: 0, m: n.m, plays: 0, wins: 0 }
                },
        ),
        config: n.config,
        descendants: n.descendants as int,
        m: n.m,
        plays: n.plays as int,
        wins: n.wins as int,
    }
}

impl View for Node {
    type V = NodeView;

    open spec fn view(&self) -> NodeView {
        node_view(*self)
    }
}

/// The contents of a row of nodes.
pub open spec fn views(s: Seq<Node>) -> Seq<NodeView> {
    s.map_values(|c: Node| node_view(c))
}

/// A node just made for `m`: no children, nothing below it, and the
/// neutral prior plays and wins.
pub open spec fn fresh_node(m: Move, config: TreeConfig) -> NodeView {
    NodeView {
        children: Seq::empty(),
        config,
        descendants: 0,
        m,
        plays: config.priors.neutral_plays as int,
        wins: config.priors.neutral_wins as int,
    }
}

/// A fresh node for each move, in order.
pub open spec fn fresh_nodes(ms: Seq<Move>, config: TreeConfig) -> Seq<NodeView> {
    Seq::new(ms.len(), |i: int| fresh_node(ms[i], config))
}

/// The children a root gets: a fresh node for each move of the game that
/// fills no own eye and that the game allows, none once the game is over.
pub open spec fn root_children(g: GameView, config: TreeConfig) -> Seq<NodeView> {
    if game_over(g.board) {
        Seq::empty()
    } else {
        fresh_nodes(playable_moves(g, legal_plays_without_eyes(g.board)), config)
    }
}

/// `v` with the children of a root of the game, counted below it; the node
/// is kept as it is once the game is over.
pub open spec fn expanded_root(v: NodeView, g: GameView) -> NodeView {
    if game_over(g.board) {
        v
    } else {
        NodeView {
            children: root_children(g, v.config),
            descendants: root_children(g, v.config).len() as int,
            ..v
        }
    }
}

/// The root of a search for `color`: a pass of `color` with one play and
/// one win, expanded for the game.
pub open spec fn root_node(g: GameView, color: Color, config: TreeConfig) -> NodeView {
    expanded_root(NodeView { plays: 1, wins: 1, ..fresh_node(Move::Pass(color), config) }, g)
}

/// The game still allows the move of a child.
pub open spec fn still_legal(g: GameView, c: NodeView) -> bool {
    play_outcome(g, c.m) is Ok
}

/// The children whose move the game still allows, in order.
pub open spec fn kept_children(g: GameView, s: Seq<NodeView>) -> Seq<NodeView>
    decreases s.len(),
{
    if s.len() == 0 {
        s
    } else {
        let rest = kept_children(g, s.drop_last());
        if still_legal(g, s.last()) {
            rest.push(s.last())
        } else {
            rest
        }
    }
}

/// The nodes below the children whose move the game no longer allows.
pub open spec fn dropped_descendants(g: GameView, s: Seq<NodeView>) -> int
    decreases s.len(),
{
    if s.len() == 0 {
        0
    } else {
        dropped_descendants(g, s.drop_last()) + if still_legal(g, s.last()) {
            0
        } else {
            s.last().descendants
        }
    }
}

/// The nodes below all the children.
pub open spec fn all_descendants(s: Seq<NodeView>) -> int
    decreases s.len(),
{
    if s.len() == 0 {
        0
    } else {
        all_descendants(s.drop_last()) + s.last().descendants
    }
}

/// A node whose children may be checked against a game: each child is a
/// play of a player, and the node counts at least the nodes below them.
pub open spec fn prunable(v: NodeView) -> bool {
    &&& forall|i: int|
        0 <= i < v.children.len() ==> #[trigger] v.children[i].m is Play && move_color(v.children[i].m)
            != Color::Empty
    &&& all_descendants(v.children) <= v.descendants
}

/// `v` without the children whose move the game no longer allows, and
/// without the nodes below them.
pub open spec fn pruned(v: NodeView, g: GameView) -> NodeView {
    NodeView {
        children: kept_children(g, v.children),
        descendants: v.descendants - dropped_descendants(g, v.children),
        ..v
    }
}

/// `v` turned into a root for `color`: a pass of `color` with no plays.
pub open spec fn made_root(v: NodeView, color: Color) -> NodeView {
    NodeView { m: Move::Pass(color), plays: 0, wins: 0, ..v }
}

/// The first of the nodes whose move is `m`.
pub open spec fn first_with(s: Seq<NodeView>, m: Move) -> Option<NodeView>
    decreases s.len(),
{
    if s.len() == 0 {
        None
    } else if s[0].m == m {
        Some(s[0])
    } else {
        first_with(s.drop_first(), m)
    }
}

/// The root a search for `color` goes on from after the game's last move:
/// the child of that move made a root and pruned for the game, or a new
/// root where that leaves no children.
pub open spec fn next_root(v: NodeView, g: GameView, color: Color) -> NodeView {
    let found = match g.last_move {
        Some(m) => first_with(v.children, m),
        None => None,
    };
    match found {
        Some(c) => {
            let r = pruned(made_root(c, color), g);
            if r.children.len() == 0 {
                root_node(g, color, v.config)
            } else {
                r
            }
        },
        None => root_node(g, color, v.config),
    }
}

/// Recording a playout that went down `path`: each node on it of the
/// winner's colour gets a win, and each node above the end of the path
/// counts `n` more nodes below it.
pub open spec fn recorded(v: NodeView, path: Seq<usize>, winner: Color, n: int) -> NodeView
    decreases path.len(),
{
    let wins = if move_color(v.m) == winner {
        v.wins + 1
    } else {
        v.wins
    };
    if path.len() == 0 {
        NodeView { wins, ..v }
    } else {
        NodeView {
            wins,
            descendants: v.descendants + n,
            children: v.children.update(
                path[0] as int,
                recorded(v.children[path[0] as int], path.drop_first(), winner, n),
            ),
            ..v
        }
    }
}

/// `path` leads through children of the tree, and recording a playout on
/// it keeps every count within its integer type.
pub open spec fn path_fits(v: NodeView, path: Seq<usize>, winner: Color, n: int) -> bool
    decreases path.len(),
{
    if move_color(v.m) == winner && v.wins >= usize::MAX {
        false
    } else if path.len() == 0 {
        true
    } else if path[0] >= v.children.len() || v.descendants + n > usize::MAX {
        false
    } else {
        path_fits(v.children[path[0] as int], path.drop_first(), winner, n)
    }
}

/// A new leaf for the play `m`: the neutral priors, plus a negative prior
/// for a self-atari, and for a play in an empty area a negative prior on
/// the first two lines and an even one on the third.
pub open spec fn leaf_node(b: BoardView, m: Move, config: TreeConfig) -> NodeView {
    let p = config.priors;
    let base = fresh_node(m, config);
    let atari = if !not_self_atari(b, m) {
        p.self_atari as int
    } else {
        0
    };
    let d = border_distance(move_coord(m), b.size);
    let empty_area = d <= 2 && in_empty_area(b, move_coord(m));
    let empty_plays = if empty_area {
        p.empty as int
    } else {
        0
    };
    let empty_wins = if empty_area && d > 1 {
        p.empty as int
    } else {
        0
    };
    NodeView { plays: base.plays + atari + empty_plays, wins: base.wins + empty_wins, ..base }
}

/// The priors of a new leaf: a self-atari costs plays and never brings
/// wins; a play in an empty area on the first two lines gets plays only,
/// and on the third line as many wins as plays.
pub proof fn lemma_leaf_priors(b: BoardView, m: Move, config: TreeConfig)
    ensures
        leaf_node(b, m, config).wins == config.priors.neutral_wins + (if border_distance(move_coord(m), b.size) == 2
            && in_empty_area(b, move_coord(m)) {
            config.priors.empty as int
        } else {
            0
        }),
        leaf_node(b, m, config).plays == config.priors.neutral_plays + (if !not_self_atari(b, m) {
            config.priors.self_atari as int
        } else {
            0
        }) + (if border_distance(move_coord(m), b.size) <= 2 && in_empty_area(b, move_coord(m)) {
            config.priors.empty as int
        } else {
            0
        }),
{
}

/// A new leaf for a play with a stone within three lines of it has the
/// neutral wins and no more, self-atari or not.
pub proof fn lemma_crowded_leaf_wins(b: BoardView, m: Move, config: TreeConfig, q: Coord)
    requires
        b.size <= 255,
        inside(q, b.size),
        point_color(b, q) != Color::Empty,
        1 <= manhattan(move_coord(m), q) <= 3,
    ensures
        leaf_node(b, m, config).wins == config.priors.neutral_wins,
{
    lemma_near_points_listed(move_coord(m), q, b.size);
    let pts = offset_points(move_coord(m), manhattan_offsets(), b.size);
    let k = choose|k: int| 0 <= k < pts.len() && pts[k] == q;
    assert(point_color(b, pts[k]) != Color::Empty);
    assert(!in_empty_area(b, move_coord(m)));
}

/// A new leaf for each play, in order.
pub open spec fn leaf_nodes(b: BoardView, ms: Seq<Move>, config: TreeConfig) -> Seq<NodeView> {
    Seq::new(ms.len(), |i: int| leaf_node(b, ms[i], config))
}

/// The nodes with `bonus` more plays and wins on the first whose move is
/// `m`.
pub open spec fn bumped(s: Seq<NodeView>, m: Move, bonus: int) -> Seq<NodeView>
    decreases s.len(),
{
    if s.len() == 0 {
        s
    } else if s[0].m == m {
        s.update(0, NodeView { plays: s[0].plays + bonus, wins: s[0].wins + bonus, ..s[0] })
    } else {
        seq![s[0]] + bumped(s.drop_first(), m, bonus)
    }
}

/// The chain numbered `k` is one of `color` with at most two liberties,
/// of one stone if `single` and of several otherwise.
pub open spec fn chain_in_danger(b: BoardView, k: int, color: Color, single: bool) -> bool {
    let c = numbered_chain(b, k);
    &&& c.color == color
    &&& if single {
        c.coords.len() == 1
    } else {
        c.coords.len() > 1
    }
    &&& c.libs.len() <= 2
}

/// The children after the capture priors of the chains numbered below `k`:
/// for each chain in danger that the opponent catches, `bonus` plays and
/// wins on the first child that catches it.
pub open spec fn capture_priors(b: BoardView, s: Seq<NodeView>, color: Color, single: bool, bonus: int, k: int) -> Seq<
    NodeView,
>
    decreases k,
{
    if k <= 0 {
        s
    } else {
        let before = capture_priors(b, s, color, single, bonus, k - 1);
        if chain_in_danger(b, k - 1, color, single) {
            match ladder_capture(b, numbered_chain(b, k - 1)) {
                Some(sol) => bumped(before, sol, bonus),
                None => before,
            }
        } else {
            before
        }
    }
}

/// The children after the priors for catching the chains of the player who
/// just moved: first those of one stone, then those of several.
pub open spec fn primed(b: BoardView, s: Seq<NodeView>, config: TreeConfig) -> Seq<NodeView> {
    let color = opposite_color(next_color(b));
    let n = chain_heads(b).len() as int;
    let singles = capture_priors(b, s, color, true, config.priors.capture_one as int, n);
    capture_priors(b, singles, color, false, config.priors.capture_many as int, n)
}

/// The largest of the priors.
pub open spec fn largest_prior(config: TreeConfig) -> int {
    let p = config.priors;
    let a = if p.neutral_plays >= p.neutral_wins { p.neutral_plays } else { p.neutral_wins };
    let b = if p.self_atari >= p.empty { p.self_atari } else { p.empty };
    let c = if p.capture_one >= p.capture_many { p.capture_one } else { p.capture_many };
    let ab = if a >= b { a } else { b };
    (if ab >= c { ab } else { c }) as int
}

/// Expanding on the board keeps every count of a child within `usize`:
/// a child starts below three priors and gains at most one per chain and
/// pass.
pub open spec fn priors_fit(b: BoardView, config: TreeConfig) -> bool {
    largest_prior(config) * (3 + 2 * chain_heads(b).len()) <= usize::MAX
}

/// `v` after expanding on the board: where the game goes on and the node
/// was played often enough, a leaf for each play that fills no own eye,
/// counted below it; otherwise no children. The children then get the
/// capture priors.
pub open spec fn expanded(v: NodeView, b: BoardView) -> NodeView {
    if !game_over(b) && v.plays >= v.config.expand_after {
        let leaves = leaf_nodes(b, legal_plays_without_eyes(b), v.config);
        NodeView { children: primed(b, leaves, v.config), descendants: leaves.len() as int, ..v }
    } else {
        NodeView { children: Seq::empty(), ..v }
    }
}

/// The capture priors leave no children where there are none.
proof fn lemma_capture_priors_empty(b: BoardView, color: Color, single: bool, bonus: int, k: int)
    ensures
        capture_priors(b, Seq::empty(), color, single, bonus, k) == Seq::<NodeView>::empty(),
    decreases k,
{
    if k > 0 {
        lemma_capture_priors_empty(b, color, single, bonus, k - 1);
    }
}

/// The nodes below a prefix of a row never outnumber those below the row.
proof fn lemma_all_descendants_prefix(s: Seq<NodeView>, i: int)
    requires
        0 <= i <= s.len(),
        forall|j: int| 0 <= j < s.len() ==> #[trigger] s[j].descendants >= 0,
    ensures
        0 <= all_descendants(s.subrange(0, i)) <= all_descendants(s),
    decreases s.len() - i,
{
    if i < s.len() {
        lemma_all_descendants_prefix(s, i + 1);
        assert(s.subrange(0, i + 1).drop_last() =~= s.subrange(0, i));
    } else {
        assert(s.subrange(0, i) =~= s);
    }
    if i > 0 {
        lemma_all_descendants_nonnegative(s.subrange(0, i));
    }
}

/// A row of nodes has no fewer than zero nodes below it.
proof fn lemma_all_descendants_nonnegative(s: Seq<NodeView>)
    requires
        forall|j: int| 0 <= j < s.len() ==> #[trigger] s[j].descendants >= 0,
    ensures
        all_descendants(s) >= 0,
    decreases s.len(),
{
    if s.len() > 0 {
        lemma_all_descendants_nonnegative(s.drop_last());
    }
}

/// The nodes below the dropped children are among those below all of them.
proof fn lemma_dropped_within(g: GameView, s: Seq<NodeView>)
    requires
        forall|j: int| 0 <= j < s.len() ==> #[trigger] s[j].descendants >= 0,
    ensures
        0 <= dropped_descendants(g, s) <= all_descendants(s),
    decreases s.len(),
{
    if s.len() > 0 {
        lemma_dropped_within(g, s.drop_last());
    }
}

/// Every move that `playable_moves` keeps is one the game allows.
proof fn lemma_playable_allowed(g: GameView, s: Seq<Move>)
    ensures
        forall|i: int| 0 <= i < playable_moves(g, s).len() ==> play_outcome(g, #[trigger] playable_moves(g, s)[i]) is Ok,
    decreases s.len(),
{
    if s.len() > 0 {
        lemma_playable_allowed(g, s.drop_last());
    }
}

/// The game allows the move of every child of a root, so that no child
/// repeats a position (superko) or breaks another rule.
pub proof fn lemma_root_children_allowed(g: GameView, color: Color, config: TreeConfig)
    ensures
        forall|i: int|
            0 <= i < root_node(g, color, config).children.len() ==> still_legal(
                g,
                #[trigger] root_node(g, color, config).children[i],
            ),
{
    lemma_playable_allowed(g, legal_plays_without_eyes(g.board));
}

/// The children kept are children the game allows.
proof fn lemma_kept_allowed(g: GameView, s: Seq<NodeView>)
    ensures
        forall|i: int| 0 <= i < kept_children(g, s).len() ==> still_legal(g, #[trigger] kept_children(g, s)[i]),
    decreases s.len(),
{
    if s.len() > 0 {
        lemma_kept_allowed(g, s.drop_last());
        let rest = kept_children(g, s.drop_last());
        assert forall|i: int| 0 <= i < kept_children(g, s).len() implies still_legal(
            g,
            #[trigger] kept_children(g, s)[i],
        ) by {
            if i < rest.len() {
                assert(kept_children(g, s)[i] == rest[i]);
            }
        }
    }
}

/// Once the illegal children are removed, the game allows the move of
/// every child left.
pub proof fn lemma_pruned_children_allowed(v: NodeView, g: GameView)
    ensures
        forall|i: int| 0 <= i < pruned(v, g).children.len() ==> still_legal(g, #[trigger] pruned(v, g).children[i]),
{
    lemma_kept_allowed(g, v.children);
}

/// The first node with a move is one of the nodes.
proof fn lemma_first_with_member(s: Seq<NodeView>, m: Move)
    ensures
        first_with(s, m) matches Some(c) ==> exists|i: int| 0 <= i < s.len() && #[trigger] s[i] == c,
    decreases s.len(),
{
    if s.len() > 0 && s[0].m != m {
        lemma_first_with_member(s.drop_first(), m);
        if let Some(c) = first_with(s.drop_first(), m) {
            let i = choose|i: int| 0 <= i < s.drop_first().len() && #[trigger] s.drop_first()[i] == c;
            assert(s[i + 1] == c);
        }
    }
}

/// Gives the first child played with `m` `bonus` more plays and wins.
fn bump(children: &mut Vec<Node>, m: Move, bonus: usize)
    requires
        forall|i: int|
            0 <= i < old(children)@.len() ==> (#[trigger] old(children)@[i]).plays + bonus <= usize::MAX
                && old(children)@[i].wins + bonus <= usize::MAX,
    ensures
        views(final(children)@) == bumped(views(old(children)@), m, bonus as int),
        final(children)@.len() == old(children)@.len(),
        forall|i: int|
            0 <= i < final(children)@.len() ==> {
                ||| final(children)@[i] == old(children)@[i]
                ||| (#[trigger] final(children)@[i]).plays == old(children)@[i].plays + bonus
                    && final(children)@[i].wins == old(children)@[i].wins + bonus
            },
{
    let ghost s = views(children@);
    assert(s.subrange(0, s.len() as int) =~= s);
    assert(s.subrange(0, 0) + s =~= s);
    let mut i: usize = 0;
    while i < children.len()
        invariant
            i <= children@.len(),
            s == views(children@),
            children@ == old(children)@,
            forall|j: int|
                0 <= j < old(children)@.len() ==> (#[trigger] old(children)@[j]).plays + bonus <= usize::MAX
                    && old(children)@[j].wins + bonus <= usize::MAX,
            forall|j: int| 0 <= j < i ==> (#[trigger] children@[j]).m != m,
            bumped(s, m, bonus as int) == s.subrange(0, i as int) + bumped(s.subrange(i as int, s.len() as int), m, bonus as int),
        decreases children.len() - i,
    {
        let ghost tail = s.subrange(i as int, s.len() as int);
        assert(tail[0] == node_view(children@[i as int]));
        if children[i].m == m {
            assert(old(children)@[i as int].plays + bonus <= usize::MAX);
            let mut c = children.remove(i);
            c.plays = c.plays + bonus;
            c.wins = c.wins + bonus;
            children.insert(i, c);
            proof {
                let nv = node_view(c);
                assert(children@ =~= old(children)@.update(i as int, c));
                assert(nv.children =~= s[i as int].children);
                assert(views(children@) =~= s.update(i as int, nv));
                assert(bumped(tail, m, bonus as int) =~= tail.update(0, nv));
                assert(s.subrange(0, i as int) + tail.update(0, nv) =~= s.update(i as int, nv));
            }
            return;
        }
        proof {
            assert(bumped(tail, m, bonus as int) == seq![tail[0]] + bumped(tail.drop_first(), m, bonus as int));
            assert(tail.drop_first() =~= s.subrange(i + 1, s.len() as int));
            assert(s.subrange(0, i + 1) =~= s.subrange(0, i as int) + seq![tail[0]]);
        }
        i = i + 1;
    }
    assert(s.subrange(i as int, s.len() as int) =~= Seq::<NodeView>::empty());
    assert(s.subrange(0, i as int) =~= s);
}

impl Node {
    /// A node for `m` with no children and the neutral prior counts.
    pub fn new(m: Move, config: TreeConfig) -> (res: Node)
        ensures
            res@ == fresh_node(m, config),
    {
        let res = Node {
            children: Vec::new(),
            config,
            descendants: 0,
            m,
            plays: config.priors.neutral_plays,
            wins: config.priors.neutral_wins,
        };
        assert(res@.children =~= Seq::<NodeView>::empty());
        res
    }

    /// The root of a search for `color` in a game: a pass of `color` with
    /// one play and one win (so that the first selection has a ratio to
    /// work with), with a child for each move the game allows.
    pub fn root(game: &Game, color: Color, config: TreeConfig) -> (res: Node)
        ensures
            res@ == root_node(game@, color, config),
    {
        let mut root = Node::new(Move::Pass(color), config);
        root.plays = 1;
        root.wins = 1;
        assert(root@ == NodeView { plays: 1, wins: 1, ..fresh_node(Move::Pass(color), config) }) by {
            assert(root@.children =~= Seq::<NodeView>::empty());
        }
        root.expand_root(game);
        root
    }

    /// The root to go on from after the game's last move: the child of
    /// that move, made a root for `color` and rid of the children the game
    /// no longer allows, or a new root where no child is left.
    pub fn find_new_root(&self, game: &Game, color: Color) -> (res: Node)
        requires
            forall|i: int| 0 <= i < self@.children.len() ==> prunable(#[trigger] self@.children[i]),
        ensures
            res@ == next_root(self@, game@, color),
    {
        let found = match game.last_move() {
            Some(m) => self.find_child(m),
            None => None,
        };
        match found {
            Some(mut new_root) => {
                proof {
                    lemma_first_with_member(self@.children, game@.last_move->0);
                }
                new_root.make_root(color);
                new_root.remove_illegal_children(game);
                if new_root.has_no_children() {
                    Node::root(game, color, self.config)
                } else {
                    new_root
                }
            },
            None => Node::root(game, color, self.config),
        }
    }

    /// Makes the node a root for `color`: a pass of `color` with no plays,
    /// since its counts so far were those of the opponent.
    pub fn make_root(&mut self, color: Color)
        ensures
            final(self)@ == made_root(old(self)@, color),
    {
        self.plays = 0;
        self.wins = 0;
        self.m = Move::Pass(color);
        assert(self@.children =~= made_root(old(self)@, color).children);
    }

    /// Drops the children whose move the game no longer allows, and the
    /// nodes below them from the count.
    pub fn remove_illegal_children(&mut self, game: &Game)
        requires
            prunable(old(self)@),
        ensures
            final(self)@ == pruned(old(self)@, game@),
    {
        let ghost g = game@;
        let ghost before = self@;
        let ghost kids = before.children;
        assert(views(self.children@) =~= kids);
        proof {
            assert forall|j: int| 0 <= j < kids.len() implies #[trigger] kids[j].descendants >= 0 by {}
            lemma_all_descendants_prefix(kids, kids.len() as int);
        }
        let mut old: Vec<Node> = Vec::new();
        std::mem::swap(&mut old, &mut self.children);
        let n = old.len();
        let mut kept: Vec<Node> = Vec::new();
        let mut dropped: usize = 0;
        let mut i: usize = 0;
        while i < n
            invariant
                i <= n,
                n == kids.len(),
                old.len() == n - i,
                views(old@) == kids.subrange(i as int, n as int),
                views(kept@) == kept_children(g, kids.subrange(0, i as int)),
                dropped == dropped_descendants(g, kids.subrange(0, i as int)),
                all_descendants(kids) <= before.descendants,
                before.descendants <= usize::MAX,
                g == game@,
                prunable(before),
                kids == before.children,
                forall|j: int| 0 <= j < kids.len() ==> #[trigger] kids[j].descendants >= 0,
            decreases n - i,
        {
            let ghost olds = old@;
            let c = old.remove(0);
            let ghost pre = kids.subrange(0, i as int);
            let ghost post = kids.subrange(0, i + 1);
            proof {
                assert(views(olds)[0] == kids.subrange(i as int, n as int)[0]);
                assert(node_view(c) == kids[i as int]);
                assert(old@ =~= olds.subrange(1, olds.len() as int));
                assert forall|j: int| 0 <= j < old@.len() implies #[trigger] views(old@)[j] == kids.subrange(i + 1, n as int)[j] by {
                    assert(views(olds)[j + 1] == kids.subrange(i as int, n as int)[j + 1]);
                }
                assert(views(old@) =~= kids.subrange(i + 1, n as int));
                assert(post.drop_last() =~= pre);
                assert(post.last() == kids[i as int]);
                assert(kids[i as int].m is Play && move_color(kids[i as int].m) != Color::Empty);
                lemma_dropped_within(g, post);
                lemma_all_descendants_prefix(kids, i + 1);
            }
            if game.play(c.m).is_ok() {
                let ghost kv = views(kept@);
                kept.push(c);
                assert(views(kept@) =~= kv.push(node_view(c)));
            } else {
                dropped = dropped + c.descendants;
            }
            i = i + 1;
        }
        assert(kids.subrange(0, n as int) =~= kids);
        self.children = kept;
        proof {
            lemma_dropped_within(g, kids);
        }
        self.descendants = self.descendants - dropped;
        assert(self@.children =~= views(self.children@));
        assert(self@ =~= pruned(before, g));
    }

    /// Gives a root the children of the game's moves, unless the game is
    /// over.
    pub fn expand_root(&mut self, game: &Game)
        ensures
            final(self)@ == expanded_root(old(self)@, game@),
    {
        let ghost before = self@;
        if !game.is_over() {
            let moves = game.legal_moves_without_eyes();
            let mut children: Vec<Node> = Vec::new();
            let mut i: usize = 0;
            while i < moves.len()
                invariant
                    i <= moves.len(),
                    children.len() == i,
                    forall|j: int|
                        0 <= j < i ==> node_view(#[trigger] children@[j]) == fresh_node(moves@[j], before.config),
                    self.config == before.config,
                decreases moves.len() - i,
            {
                children.push(Node::new(moves[i], self.config));
                i = i + 1;
            }
            self.descendants = children.len();
            self.children = children;
            assert(self@.children =~= root_children(game@, before.config));
            assert(self@ =~= expanded_root(before, game@));
        }
    }

    /// Grows the children of a leaf: where the game on the board goes on
    /// and the node was played often enough, a new leaf for each play that
    /// fills no own eye; then the capture priors. Says whether the game
    /// goes on.
    pub fn expand(&mut self, board: &Board) -> (res: bool)
        requires
            board.well_formed(),
            priors_fit(board@, old(self).config),
        ensures
            res == !game_over(board@),
            final(self)@ == expanded(old(self)@, board@),
    {
        let ghost before = self@;
        let ghost b = board@;
        let not_terminal = !board.is_game_over();
        let mut children: Vec<Node> = Vec::new();
        let ghost leaves = leaf_nodes(b, legal_plays_without_eyes(b), before.config);
        if not_terminal && self.plays >= self.config.expand_after {
            let moves = board.legal_moves_without_eyes();
            let sz = board.size();
            proof {
                board.lemma_well_formed();
                crate::board::laws::lemma_eyeless_plays_are_legal(b);
                crate::board::laws::lemma_legal_plays_exact(b);
                assert(largest_prior(before.config) * 3 <= usize::MAX) by (nonlinear_arith)
                    requires
                        largest_prior(before.config) * (3 + 2 * chain_heads(b).len()) <= usize::MAX,
                        largest_prior(before.config) >= 0,
                ;
            }
            let mut i: usize = 0;
            while i < moves.len()
                invariant
                    i <= moves.len(),
                    moves@ == legal_plays_without_eyes(b),
                    board.well_formed(),
                    b == board@,
                    self.config == before.config,
                    largest_prior(before.config) * 3 <= usize::MAX,
                    forall|j: int|
                        0 <= j < moves@.len() ==> legal_plays_without_eyes(b).contains(#[trigger] moves@[j]),
                    forall|j: int|
                        0 <= j < crate::board::rules::legal_plays(b).len() ==> {
                            let m = #[trigger] crate::board::rules::legal_plays(b)[j];
                            &&& m is Play
                            &&& move_color(m) == next_color(b)
                            &&& inside(move_coord(m), b.size)
                        },
                    forall|j: int|
                        0 <= j < legal_plays_without_eyes(b).len() ==> crate::board::rules::legal_plays(b).contains(
                            #[trigger] legal_plays_without_eyes(b)[j],
                        ),
                    children.len() == i,
                    leaves == leaf_nodes(b, moves@, before.config),
                    leaves.len() == moves@.len(),
                    forall|j: int| 0 <= j < i ==> node_view(#[trigger] children@[j]) == leaves[j],
                decreases moves.len() - i,
            {
                let m = moves[i];
                proof {
                    assert(legal_plays_without_eyes(b).contains(m));
                    let j = choose|j: int| 0 <= j < legal_plays_without_eyes(b).len() && legal_plays_without_eyes(b)[j] == m;
                    assert(crate::board::rules::legal_plays(b).contains(legal_plays_without_eyes(b)[j]));
                    let k = choose|k: int| 0 <= k < crate::board::rules::legal_plays(b).len() && crate::board::rules::legal_plays(b)[k] == m;
                    assert(inside(move_coord(crate::board::rules::legal_plays(b)[k]), b.size));
                }
                children.push(self.new_leaf(board, &m));
                i = i + 1;
            }
            self.descendants = children.len();
            assert(views(children@) =~= leaves);
        } else {
            assert(views(children@) =~= Seq::<NodeView>::empty());
        }
        self.priors(&mut children, board);
        self.children = children;
        proof {
            if !(not_terminal && before.plays >= before.config.expand_after) {
                let color = opposite_color(next_color(b));
                let n = chain_heads(b).len() as int;
                lemma_capture_priors_empty(b, color, true, before.config.priors.capture_one as int, n);
                lemma_capture_priors_empty(b, color, false, before.config.priors.capture_many as int, n);
            }
        }
        assert(self@.children =~= views(self.children@));
        assert(self@ =~= expanded(before, b));
        not_terminal
    }

    /// A new leaf for the play `m`, with its priors for a self-atari and
    /// for a play in an empty area near the edge.
    pub fn new_leaf(&self, board: &Board, m: &Move) -> (res: Node)
        requires
            board.well_formed(),
            board_play(board@, *m),
            largest_prior(self.config) * 3 <= usize::MAX,
        ensures
            res@ == leaf_node(board@, *m, self.config),
    {
        let mut node = Node::new(*m, self.config);
        let p = self.config.priors;
        if !board.is_not_self_atari(m) {
            node.plays = node.plays + p.self_atari;
        }
        let distance = m.coord().distance_to_border(board.size());
        if distance <= 2 && vacant_around(board, m) {
            if distance <= 1 {
                node.plays = node.plays + p.empty;
            } else {
                node.plays = node.plays + p.empty;
                node.wins = node.wins + p.empty;
            }
        }
        assert(node@.children =~= Seq::<NodeView>::empty());
        assert(node@ =~= leaf_node(board@, *m, self.config));
        node
    }

    /// Adds the priors for catching the chains of the player who just
    /// moved: for each chain of one stone with at most two liberties that
    /// the opponent catches in a ladder, `capture_one` plays and wins on the
    /// first child that catches it; then `capture_many` likewise for the
    /// chains of several stones.
    pub fn priors(&self, children: &mut Vec<Node>, board: &Board)
        requires
            board.well_formed(),
            priors_fit(board@, self.config),
            forall|i: int|
                0 <= i < old(children)@.len() ==> (#[trigger] old(children)@[i]).plays <= largest_prior(self.config) * 3
                    && old(children)@[i].wins <= largest_prior(self.config) * 3,
        ensures
            views(final(children)@) == primed(board@, views(old(children)@), self.config),
    {
        let ghost b = board@;
        let color = board.next_player().opposite();
        let all = board.chains();
        let p = self.config.priors;
        let ghost lim = largest_prior(self.config);
        let ghost start = views(children@);
        let n = all.len();
        let mut k: usize = 0;
        while k < n
            invariant
                k <= n,
                n == all.len(),
                n == chain_heads(b).len(),
                b == board@,
                board.well_formed(),
                color == opposite_color(next_color(b)),
                forall|i: int| 0 <= i < all.len() ==> (#[trigger] all@[i])@ == numbered_chain(b, i),
                p == self.config.priors,
                lim == largest_prior(self.config),
                lim * (3 + 2 * n) <= usize::MAX,
                views(children@) == capture_priors(b, start, color, true, p.capture_one as int, k as int),
                forall|i: int|
                    0 <= i < children@.len() ==> (#[trigger] children@[i]).plays <= lim * (3 + k)
                        && children@[i].wins <= lim * (3 + k),
            decreases n - k,
        {
            proof {
                assert(lim * (3 + k) + lim <= lim * (3 + k + 1)) by (nonlinear_arith);
                assert(lim * (3 + k + 1) <= lim * (3 + 2 * n)) by (nonlinear_arith)
                    requires
                        k < n,
                        lim >= 0,
                ;
            }
            let c = &all[k];
            if c.color() == color && c.coords().len() == 1 && c.liberties().len() <= 2 {
                match board.capture_ladder(c) {
                    Some(sol) => bump(children, sol, p.capture_one),
                    None => {},
                }
            }
            k = k + 1;
        }
        let ghost middle = views(children@);
        let mut k: usize = 0;
        while k < n
            invariant
                k <= n,
                n == all.len(),
                n == chain_heads(b).len(),
                b == board@,
                board.well_formed(),
                color == opposite_color(next_color(b)),
                forall|i: int| 0 <= i < all.len() ==> (#[trigger] all@[i])@ == numbered_chain(b, i),
                p == self.config.priors,
                lim == largest_prior(self.config),
                lim * (3 + 2 * n) <= usize::MAX,
                middle == capture_priors(b, start, color, true, p.capture_one as int, n as int),
                views(children@) == capture_priors(b, middle, color, false, p.capture_many as int, k as int),
                forall|i: int|
                    0 <= i < children@.len() ==> (#[trigger] children@[i]).plays <= lim * (3 + n + k)
                        && children@[i].wins <= lim * (3 + n + k),
            decreases n - k,
        {
            proof {
                assert(lim * (3 + n + k) + lim <= lim * (3 + n + k + 1)) by (nonlinear_arith);
                assert(lim * (3 + n + k + 1) <= lim * (3 + 2 * n)) by (nonlinear_arith)
                    requires
                        k < n,
                        lim >= 0,
                ;
            }
            let c = &all[k];
            if c.color() == color && c.coords().len() > 1 && c.liberties().len() <= 2 {
                match board.capture_ladder(c) {
                    Some(sol) => bump(children, sol, p.capture_many),
                    None => {},
                }
            }
            k = k + 1;
        }
    }

    pub fn has_no_children(&self) -> (res: bool)
        ensures
            res == (self@.children.len() == 0),
    {
        self.children.len() == 0
    }

    pub fn is_leaf(&self) -> (res: bool)
        ensures
            res == (self@.children.len() == 0),
    {
        self.children.len() == 0
    }

    /// Marks a node where the game ends: every play of it counts, and as a
    /// win only if `is_win`.
    pub fn mark_as_terminal(&mut self, is_win: bool)
        ensures
            final(self)@ == (NodeView {
                plays: usize::MAX as int,
                wins: if is_win {
                    usize::MAX as int
                } else {
                    0
                },
                ..old(self)@
            }),
    {
        let ghost before = self@;
        self.plays = usize::MAX;
        if is_win {
            self.wins = usize::MAX;
        } else {
            self.wins = 0;
        }
        assert(self@.children =~= before.children);
    }

    /// Records a playout that went down `path` from this node and was won
    /// by `winner`, having added `new_nodes` nodes at its end.
    pub fn record_on_path(&mut self, path: &[usize], winner: Color, new_nodes: usize)
        requires
            path_fits(old(self)@, path@, winner, new_nodes as int),
        ensures
            final(self)@ == recorded(old(self)@, path@, winner, new_nodes as int),
    {
        assert(path@.subrange(0, path@.len() as int) =~= path@);
        self.record_from(path, 0, winner, new_nodes);
    }

    /// Records a playout on the part of `path` from its `k`-th step on.
    fn record_from(&mut self, path: &[usize], k: usize, winner: Color, new_nodes: usize)
        requires
            k <= path@.len(),
            path_fits(old(self)@, path@.subrange(k as int, path@.len() as int), winner, new_nodes as int),
        ensures
            final(self)@ == recorded(
                old(self)@,
                path@.subrange(k as int, path@.len() as int),
                winner,
                new_nodes as int,
            ),
        decreases path@.len() - k,
    {
        let ghost before = self@;
        let ghost rest = path@.subrange(k as int, path@.len() as int);
        if *self.m.color() == winner {
            self.wins = self.wins + 1;
        }
        if k < path.len() {
            self.descendants = self.descendants + new_nodes;
            let idx = path[k];
            let ghost kids = self.children@;
            assert(views(kids) =~= before.children);
            let mut child = self.children.remove(idx);
            assert(node_view(child) == before.children[idx as int]);
            assert(rest.drop_first() =~= path@.subrange(k + 1, path@.len() as int));
            child.record_from(path, k + 1, winner, new_nodes);
            self.children.insert(idx, child);
            assert(self.children@ =~= kids.update(idx as int, child));
            assert(self@.children =~= before.children.update(
                idx as int,
                recorded(before.children[idx as int], rest.drop_first(), winner, new_nodes as int),
            ));
        }
        assert(self@ =~= recorded(before, rest, winner, new_nodes as int));
    }

    /// The child played most often, the first of them where several are.
    pub fn best(&self) -> (res: &Node)
        requires
            self.children@.len() > 0,
        ensures
            exists|k: int|
                0 <= k < self.children@.len() && *res == self.children@[k] && (forall|j: int|
                    0 <= j < k ==> #[trigger] self.children@[j].plays < res.plays),
            forall|j: int| 0 <= j < self.children@.len() ==> #[trigger] self.children@[j].plays <= res.plays,
    {
        let mut best: usize = 0;
        let mut i: usize = 1;
        while i < self.children.len()
            invariant
                1 <= i <= self.children@.len(),
                best < i,
                forall|j: int| 0 <= j < best ==> #[trigger] self.children@[j].plays < self.children@[best as int].plays,
                forall|j: int| 0 <= j < i ==> #[trigger] self.children@[j].plays <= self.children@[best as int].plays,
            decreases self.children.len() - i,
        {
            if self.children[i].plays > self.children[best].plays {
                best = i;
            }
            i = i + 1;
        }
        &self.children[best]
    }

    /// Counts a won playout.
    pub fn record_win(&mut self)
        requires
            old(self).wins < usize::MAX,
        ensures
            final(self)@ == (NodeView { wins: old(self)@.wins + 1, ..old(self)@ }),
    {
        let ghost before = self@;
        self.wins = self.wins + 1;
        assert(self@.children =~= before.children);
    }

    /// Counts a playout.
    pub fn record_play(&mut self)
        requires
            old(self).plays < usize::MAX,
        ensures
            final(self)@ == (NodeView { plays: old(self)@.plays + 1, ..old(self)@ }),
    {
        let ghost before = self@;
        self.plays = self.plays + 1;
        assert(self@.children =~= before.children);
    }

    pub fn m(&self) -> (res: Move)
        ensures
            res == self.m,
    {
        self.m
    }

    pub fn plays(&self) -> (res: usize)
        ensures
            res == self.plays,
    {
        self.plays
    }

    pub fn descendants(&self) -> (res: usize)
        ensures
            res == self.descendants,
    {
        self.descendants
    }

    /// The player of the node's move.
    pub fn color(&self) -> (res: Color)
        ensures
            res == move_color(self.m),
    {
        *self.m.color()
    }

    /// A copy of the node and of everything below it.
    pub fn copy(&self) -> (res: Node)
        ensures
            res@ == self@,
        decreases *self,
    {
        let mut kids: Vec<Node> = Vec::new();
        let mut i: usize = 0;
        while i < self.children.len()
            invariant
                i <= self.children.len(),
                kids.len() == i,
                forall|j: int| 0 <= j < i ==> node_view(#[trigger] kids@[j]) == node_view(self.children@[j]),
            decreases self.children.len() - i,
        {
            proof {
                vstd::std_specs::vec::axiom_vec_index_decreases(self.children, i as int);
            }
            let c = self.children[i].copy();
            kids.push(c);
            i = i + 1;
        }
        let res = Node {
            children: kids,
            config: self.config,
            descendants: self.descendants,
            m: self.m,
            plays: self.plays,
            wins: self.wins,
        };
        assert(res@.children =~= self@.children);
        res
    }

    /// A copy of the first child played with `m`, if there is one.
    pub fn find_child(&self, m: Move) -> (res: Option<Node>)
        ensures
            match res {
                Some(c) => first_with(self@.children, m) == Some(c@),
                None => first_with(self@.children, m) is None,
            },
    {
        let ghost kids = self@.children;
        assert(kids.subrange(0, kids.len() as int) =~= kids);
        let mut i: usize = 0;
        while i < self.children.len()
            invariant
                i <= self.children.len(),
                kids == self@.children,
                kids.len() == self.children@.len(),
                first_with(kids, m) == first_with(kids.subrange(i as int, kids.len() as int), m),
            decreases self.children.len() - i,
        {
            let ghost tail = kids.subrange(i as int, kids.len() as int);
            assert(tail[0] == node_view(self.children@[i as int]));
            if self.children[i].m == m {
                return Some(self.children[i].copy());
            }
            assert(tail.drop_first() =~= kids.subrange(i + 1, kids.len() as int));
            i = i + 1;
        }
        None
    }
}

} // verus!
