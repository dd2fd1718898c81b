use board_kernel::min_max::{
    negamax, negamax_alpha_beta, Player, TreeGame, TwoPlayerGame, FULL_WINDOW, NO_MOVE, SCORE_LIMIT,
};

fn two_ply_tree() -> TreeGame {
    TreeGame::new(
        vec![0, 0, 0, 0, 3, 12, 2, 8, 1, 14],
        vec![false; 10],
        vec![1, 4, 6, 8, 0, 0, 0, 0, 0, 0],
        vec![3, 2, 2, 2, 0, 0, 0, 0, 0, 0],
    )
    .unwrap()
}

#[test]
fn player_swap() {
    assert_eq!(Player::White.swap(), Player::Black);
    assert_eq!(Player::Black.swap(), Player::White);
    assert_eq!(Player::Nobody.swap(), Player::Nobody);
}

#[test]
fn negamax_picks_the_best_first_move() {
    let mut g = two_ply_tree();
    assert_eq!(negamax(&mut g, 2), (3, Some(1)));
    assert_eq!(g.get_legal_actions(), vec![1, 2, 3]);
    assert_eq!(g.current_player(), Player::White);
}

#[test]
fn alpha_beta_agrees_and_prunes() {
    let mut plain = two_ply_tree();
    let mut pruned = two_ply_tree();
    let a = negamax(&mut plain, 2);
    let b = negamax_alpha_beta(&mut pruned, 2, -FULL_WINDOW, FULL_WINDOW);
    assert_eq!(a.0, b.0);
    assert_eq!(b.1, Some(1));
    assert_eq!(plain.steps(), 9);
    assert_eq!(pruned.steps(), 7);
    assert!(pruned.steps() < plain.steps());
}

#[test]
fn alpha_beta_agrees_at_every_depth() {
    for depth in 0..4 {
        let mut plain = two_ply_tree();
        let mut pruned = two_ply_tree();
        let a = negamax(&mut plain, depth);
        let b = negamax_alpha_beta(&mut pruned, depth, -FULL_WINDOW, FULL_WINDOW);
        assert_eq!(a.0, b.0);
        assert!(pruned.steps() <= plain.steps());
    }
}

#[test]
fn narrow_window_fails_soft() {
    let mut g = two_ply_tree();
    let (v, _) = negamax_alpha_beta(&mut g, 2, 5, 10);
    assert!(v <= 5);
    let mut h = two_ply_tree();
    let (w, _) = negamax_alpha_beta(&mut h, 2, -10, 1);
    assert!(w >= 1);
}

#[test]
fn depth_zero_and_terminal_nodes_are_leaves() {
    let mut g = two_ply_tree();
    assert_eq!(negamax(&mut g, 0), (0, None));
    let mut t = TreeGame::new(vec![7, 1], vec![true, false], vec![1, 0], vec![1, 0]).unwrap();
    assert_eq!(negamax(&mut t, 3), (7, None));
}

#[test]
fn leaf_value_is_seen_from_the_side_to_move() {
    let mut g = TreeGame::new(vec![0, 5], vec![false, false], vec![1, 0], vec![1, 0]).unwrap();
    g.step(1);
    assert_eq!(g.current_player(), Player::Black);
    assert_eq!(negamax(&mut g, 0), (-5, None));
    assert_eq!(negamax(&mut g, 1), (NO_MOVE, None));
    g.undo();
    assert_eq!(negamax(&mut g, 1), (5, Some(1)));
}

#[test]
fn no_move_below_every_evaluation() {
    let mut g = TreeGame::new(vec![4], vec![false], vec![0], vec![0]).unwrap();
    assert_eq!(negamax(&mut g, 2), (NO_MOVE, None));
    assert!(NO_MOVE < -SCORE_LIMIT);
}

#[test]
fn malformed_trees_are_refused() {
    assert!(TreeGame::new(vec![], vec![], vec![], vec![]).is_none());
    assert!(TreeGame::new(vec![0, 1], vec![false], vec![1, 0], vec![1, 0]).is_none());
    assert!(TreeGame::new(vec![SCORE_LIMIT + 1], vec![false], vec![0], vec![0]).is_none());
    assert!(TreeGame::new(vec![0, 1], vec![false, false], vec![1, 0], vec![2, 0]).is_none());
}

#[test]
fn a_node_with_moves_always_names_one() {
    let mut g = TreeGame::new(vec![0, 0, 0], vec![false; 3], vec![1, 2, 0], vec![1, 1, 0]).unwrap();
    assert_eq!(negamax(&mut g, 3), (NO_MOVE, Some(1)));
    let mut h = TreeGame::new(vec![0, 0, 0], vec![false; 3], vec![1, 2, 0], vec![1, 1, 0]).unwrap();
    let (v, a) = negamax_alpha_beta(&mut h, 3, -FULL_WINDOW, FULL_WINDOW);
    assert_eq!(v, NO_MOVE);
    assert_eq!(a, Some(1));
}
