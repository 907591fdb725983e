use iomrascalai::board::Color::Black;
use iomrascalai::board::Color::White;
use iomrascalai::board::Komi;
use iomrascalai::board::Move::Pass;
use iomrascalai::board::Move::Play;
use iomrascalai::config::TreeConfig;
use iomrascalai::config::UctPriorsConfig;
use iomrascalai::engine::uct::node::Node;
use iomrascalai::game::Game;
use iomrascalai::ruleset::Ruleset::KgsChinese;

fn config() -> TreeConfig {
    TreeConfig {
        expand_after: 1,
        priors: UctPriorsConfig {
            capture_many: 30,
            capture_one: 15,
            empty: 10,
            neutral_plays: 10,
            neutral_wins: 5,
            self_atari: 10,
            use_empty: false,
        },
    }
}

#[test]
fn test_root_expands_the_children() {
    let game = Game::new(2, Komi(5), KgsChinese);
    let root = Node::root(&game, Black, config());
    assert_eq!(4, root.children.len());
}

#[test]
fn test_expand_doesnt_add_children_to_terminal_nodes() {
    let mut game = Game::new(5, Komi(65), KgsChinese);
    game = game.play(Pass(Black)).unwrap();
    game = game.play(Pass(White)).unwrap();
    let mut node = Node::new(Pass(Black), config());
    assert!(!node.expand(&game.board()));
    assert_eq!(0, node.children.len());
}

#[test]
fn test_expand_doesnt_add_children_if_threshold_not_met() {
    let game = Game::new(2, Komi(5), KgsChinese);
    let mut node = Node::new(Pass(Black), config());
    node.plays = 0;
    assert!(node.expand(&game.board()));
    assert_eq!(0, node.children.len());
}

#[test]
fn test_expand_adds_children_if_threshold_is_met() {
    let game = Game::new(2, Komi(5), KgsChinese);
    let mut node = Node::new(Pass(Black), config());
    node.plays = 2;
    node.expand(&game.board());
    assert_eq!(4, node.children.len());
}

#[test]
fn test_expand_sets_the_descendant_count_if_the_node_was_expanded() {
    let game = Game::new(5, Komi(65), KgsChinese);
    let board = game.board();
    let mut node = Node::new(Pass(Black), config());
    node.expand(&board);
    assert_eq!(25, node.descendants);
}

#[test]
fn test_expand_doesnt_add_pass_before_the_endgame() {
    let game = Game::new(5, Komi(65), KgsChinese);
    let board = game.board();
    let mut node = Node::new(Pass(Black), config());
    node.expand(&board);
    let found_pass = node.children.iter().any(|node| node.m().is_pass());
    assert!(!found_pass);
}

#[test]
fn test_the_root_needs_to_be_initialized_with_1_plays_for_correct_uct_calculations() {
    let game = Game::new(2, Komi(5), KgsChinese);
    let root = Node::root(&game, Black, config());
    assert_eq!(1, root.plays);
    assert_eq!(1, root.wins);
}

#[test]
fn record_on_path_only_records_wins_for_the_correct_color() {
    let grandchild = Node::new(Pass(Black), config());
    let mut child = Node::new(Pass(White), config());
    child.children = vec![grandchild];
    let mut root = Node::new(Pass(Black), config());
    root.children = vec![child];

    root.record_on_path(&vec![0, 0], Black, 0);
    assert_eq!(6, root.wins);
    assert_eq!(5, root.children[0].wins);
    assert_eq!(6, root.children[0].children[0].wins);

    root.record_on_path(&vec![0, 0], White, 0);
    assert_eq!(6, root.wins);
    assert_eq!(6, root.children[0].wins);
    assert_eq!(6, root.children[0].children[0].wins);
}

#[test]
fn record_on_path_updates_the_descendant_counts() {
    let mut grandchild = Node::new(Pass(Black), config());
    grandchild.descendants = 5;
    let mut child = Node::new(Pass(White), config());
    child.children = vec![grandchild];
    child.descendants = 1;
    let mut root = Node::new(Pass(Black), config());
    root.children = vec![child];
    root.descendants = 2;

    root.record_on_path(&vec![0, 0], Black, 5);
    assert_eq!(7, root.descendants);
    assert_eq!(6, root.children[0].descendants);
    assert_eq!(5, root.children[0].children[0].descendants);
}

#[test]
fn test_find_child_returns_the_correct_child() {
    let mut root = Node::new(Pass(Black), config());
    let child = Node::new(Play(White, 1, 1), config());
    root.children = vec![Node::new(Play(Black, 5, 5), config()), child.copy(), Node::new(Play(Black, 3, 7), config())];
    assert_eq!(Some(child), root.find_child(Play(White, 1, 1)));
    assert_eq!(None, root.find_child(Play(White, 2, 2)));
}

#[test]
fn test_new_sets_the_descendats_to_zero() {
    let node = Node::new(Pass(Black), config());
    assert_eq!(0, node.descendants);
}

#[test]
fn test_expand_root_sets_the_correct_descendant_count_on_the_root() {
    let game = Game::new(5, Komi(65), KgsChinese);
    let mut root = Node::new(Pass(Black), config());
    root.expand_root(&game);
    assert_eq!(25, root.descendants);
}

#[test]
fn expand_root_doesnt_add_pass_before_the_endgame() {
    let game = Game::new(5, Komi(65), KgsChinese);
    let mut node = Node::new(Pass(Black), config());
    node.expand_root(&game);
    let found_pass = node.children.iter().any(|node| node.m().is_pass());
    assert!(!found_pass);
}

#[test]
fn children_the_game_no_longer_allows_are_removed_with_their_descendants() {
    let game = Game::new(3, Komi(65), KgsChinese).play(Play(Black, 1, 1)).unwrap().play(Play(White, 2, 2)).unwrap();
    let mut a = Node::new(Play(Black, 1, 2), config());
    a.descendants = 3;
    let mut b = Node::new(Play(Black, 2, 2), config());
    b.descendants = 4;
    let mut node = Node::new(Pass(White), config());
    node.children = vec![a, b];
    node.descendants = 9;
    node.remove_illegal_children(&game);
    assert_eq!(node.children.len(), 1);
    assert_eq!(node.children[0].m(), Play(Black, 1, 2));
    assert_eq!(node.descendants, 5);
}

#[test]
fn the_new_root_is_the_child_of_the_last_move_without_its_counts() {
    let game = Game::new(3, Komi(65), KgsChinese);
    let mut root = Node::root(&game, Black, config());
    let after_black = game.play(Play(Black, 1, 1)).unwrap();
    let mut grandchild = Node::new(Play(White, 2, 2), config());
    grandchild.descendants = 2;
    let mut child = Node::new(Play(Black, 1, 1), config());
    child.children = vec![grandchild, Node::new(Play(White, 1, 1), config())];
    child.descendants = 4;
    root.children[0] = child;
    let new_root = root.find_new_root(&after_black, White);
    assert_eq!(new_root.m(), Pass(White));
    assert_eq!(new_root.plays, 0);
    assert_eq!(new_root.wins, 0);
    assert_eq!(new_root.children.len(), 1);
    assert_eq!(new_root.children[0].m(), Play(White, 2, 2));
    assert_eq!(new_root.descendants, 4);
}

#[test]
fn a_new_root_without_children_is_started_afresh() {
    let game = Game::new(3, Komi(65), KgsChinese);
    let root = Node::root(&game, Black, config());
    let after_black = game.play(Play(Black, 2, 2)).unwrap();
    let new_root = root.find_new_root(&after_black, White);
    assert_eq!(new_root.m(), Pass(White));
    assert_eq!(new_root.plays, 1);
    assert_eq!(new_root.children.len(), 8);
    assert_eq!(new_root.descendants, 8);
}

#[test]
fn a_terminal_node_counts_every_play() {
    let mut node = Node::new(Pass(Black), config());
    node.mark_as_terminal(true);
    assert_eq!(node.plays, usize::MAX);
    assert_eq!(node.wins, usize::MAX);
    node.mark_as_terminal(false);
    assert_eq!(node.wins, 0);
}

#[test]
fn the_best_child_is_the_first_played_most() {
    let mut root = Node::new(Pass(Black), config());
    let mut a = Node::new(Play(Black, 1, 1), config());
    a.plays = 3;
    let mut b = Node::new(Play(Black, 2, 2), config());
    b.plays = 7;
    let mut c = Node::new(Play(Black, 3, 3), config());
    c.plays = 7;
    root.children = vec![a, b, c];
    assert_eq!(root.best().m(), Play(Black, 2, 2));
    root.record_play();
    root.record_win();
    assert_eq!(root.plays, 11);
    assert_eq!(root.wins, 6);
}

#[test]
fn a_chain_caught_in_a_ladder_gives_the_catching_child_a_prior() {
    let mut game = Game::new(5, Komi(65), iomrascalai::ruleset::Ruleset::Minimal);
    game = game.play(Play(Black, 1, 1)).unwrap();
    game = game.play(Play(White, 2, 1)).unwrap();
    game = game.play(Play(White, 2, 2)).unwrap();
    game = game.play(Play(Black, 4, 4)).unwrap();
    let board = game.board();
    let mut node = Node::new(Pass(Black), config());
    node.expand(&board);
    let catching = node.children.iter().find(|c| c.m() == Play(White, 1, 2)).unwrap();
    assert_eq!(catching.plays, 10 + 15);
    assert_eq!(catching.wins, 5 + 15);
    let other = node.children.iter().find(|c| c.m() == Play(White, 3, 3)).unwrap();
    assert_eq!(other.plays, 10);
    assert_eq!(other.wins, 5);
}

#[test]
fn the_default_tree_settings_are_those_of_the_search() {
    assert_eq!(TreeConfig::default(), config());
    assert_eq!(UctPriorsConfig::default(), config().priors);
}
