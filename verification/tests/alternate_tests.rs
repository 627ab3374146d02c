use maze_search::alternate::{
    miniMaxAction, miniMaxScore, randomAction, AlternateMazeState, WinningStatus, END_TURN, H, W,
};
use maze_search::character::Character;
use maze_search::choice::{bestMeanIndex, firstMaxCount, firstMaxIndex};
use maze_search::montecarlo::{
    mctsAction, mctsSearch, playout, primitiveMontecarloAction, primitiveMontecarloTally, Node,
    EXPAND_THRESHOLD,
};
use rand::rngs::StdRng;
use rand::SeedableRng;

fn ucb1(w: u64, n: u64, t: u64) -> u64 {
    assert!(n > 0);
    assert!(n <= t);
    assert!(w <= 2 * n);
    let value = 1.0 - (w as f64 / 2.0) / n as f64 + (2.0 * (t as f64).ln() / n as f64).sqrt();
    value.to_bits()
}

fn moved_alternate(state: &AlternateMazeState, action: usize) -> AlternateMazeState {
    let mut next = *state;
    next.advance(action);
    next
}

fn brute_force(state: &AlternateMazeState, depth: usize) -> i32 {
    if state.isDone() || depth == 0 {
        return state.getScore();
    }
    let mut best = i32::MIN;
    for a in state.legalActions() {
        best = best.max(-brute_force(&moved_alternate(state, a), depth - 1));
    }
    best
}

fn first_player_lead(state: &AlternateMazeState) -> i32 {
    if state.isFirstPlayer() {
        state.getScore()
    } else {
        -state.getScore()
    }
}

#[test]
fn character_starts_without_points() {
    let c = Character::new(1, 2);
    assert_eq!(c.y_, 1);
    assert_eq!(c.x_, 2);
    assert_eq!(c.game_score_, 0);
}

#[test]
fn new_alternate_game_has_both_characters_on_the_middle_row() {
    let mut distinct = std::collections::HashSet::new();
    for seed in 0..40usize {
        let state = AlternateMazeState::new(seed);
        let first = state.character(0);
        let second = state.character(1);
        assert_eq!((first.y_, first.x_, first.game_score_), (1, 0, 0));
        assert_eq!((second.y_, second.x_, second.game_score_), (1, 2, 0));
        assert_eq!(state.turn(), 0);
        assert!(state.isFirstPlayer());
        assert!(!state.isDone());
        assert_eq!(state.pointAt(1, 0), 0);
        assert_eq!(state.pointAt(1, 2), 0);
        for y in 0..H {
            for x in 0..W {
                assert!((0..=9).contains(&state.pointAt(y, x)));
                distinct.insert(state.pointAt(y, x));
            }
        }
    }
    assert_eq!(distinct.len(), 10);
}

#[test]
fn alternate_moves_of_the_corner_and_the_edge() {
    let state = AlternateMazeState::new(0);
    assert_eq!(state.legalActions(), vec![0, 2, 3]);
    let next = moved_alternate(&state, 0);
    assert_eq!(next.legalActions(), vec![1, 2, 3]);
}

#[test]
fn alternate_advance_moves_collects_and_hands_over() {
    let state = AlternateMazeState::new(3);
    let gain = state.pointAt(1, 1);
    let next = moved_alternate(&state, 0);
    assert_eq!(next.turn(), 1);
    assert!(!next.isFirstPlayer());
    let mover = next.character(0);
    let waiter = next.character(1);
    assert_eq!((mover.y_, mover.x_, mover.game_score_), (1, 2, 0));
    assert_eq!((waiter.y_, waiter.x_, waiter.game_score_), (1, 1, gain));
    assert_eq!(next.pointAt(1, 1), 0);
    assert_eq!(next.getScore(), -gain);
}

#[test]
fn score_is_first_players_points_minus_second_players() {
    for seed in 0..30usize {
        let mut rng = StdRng::seed_from_u64(seed as u64 + 100);
        let mut state = AlternateMazeState::new(seed);
        let mut collected = [0, 0];
        let mut ply = 0;
        while !state.isDone() {
            let a = randomAction(&state, &mut rng);
            let c = state.character(0);
            let dy = [0, 0, 1, -1];
            let dx = [1, -1, 0, 0];
            let reward = state.pointAt((c.y_ + dy[a]) as usize, (c.x_ + dx[a]) as usize);
            collected[ply % 2] += reward;
            state.advance(a);
            ply += 1;
            let lead = collected[0] - collected[1];
            assert_eq!(first_player_lead(&state), lead);
            assert_eq!(state.getScore(), if ply % 2 == 0 { lead } else { -lead });
        }
        assert_eq!(ply, END_TURN);
    }
}

#[test]
fn winning_status_is_none_until_the_end() {
    let mut state = AlternateMazeState::new(5);
    let mut rng = StdRng::seed_from_u64(1);
    while !state.isDone() {
        assert!(state.getWinningStatus() == WinningStatus::NONE);
        assert_eq!(state.getFirstPlayerScoreForWinRate(), 1);
        let a = randomAction(&state, &mut rng);
        state.advance(a);
    }
    let score = state.getScore();
    let status = state.getWinningStatus();
    if score > 0 {
        assert!(status == WinningStatus::WIN);
        assert_eq!(state.getFirstPlayerScoreForWinRate(), 2);
    } else if score < 0 {
        assert!(status == WinningStatus::LOSE);
        assert_eq!(state.getFirstPlayerScoreForWinRate(), 0);
    } else {
        assert!(status == WinningStatus::DRAW);
        assert_eq!(state.getFirstPlayerScoreForWinRate(), 1);
    }
}

#[test]
fn win_rate_score_is_seen_from_the_first_player() {
    let mut wins = 0;
    let mut losses = 0;
    for seed in 0..60usize {
        let mut rng = StdRng::seed_from_u64(seed as u64);
        let mut state = AlternateMazeState::new(seed);
        for _ in 0..3 {
            let a = randomAction(&state, &mut rng);
            state.advance(a);
        }
        assert!(!state.isFirstPlayer());
        let a = randomAction(&state, &mut rng);
        state.advance(a);
        assert!(state.isDone() && state.isFirstPlayer());
        let lead = first_player_lead(&state);
        let expected = if lead > 0 { 2 } else if lead < 0 { 0 } else { 1 };
        assert_eq!(state.getFirstPlayerScoreForWinRate(), expected);
        if lead > 0 {
            wins += 1;
        }
        if lead < 0 {
            losses += 1;
        }
    }
    assert!(wins > 0 && losses > 0);
}

#[test]
fn alternate_random_action_is_legal() {
    let mut rng = StdRng::seed_from_u64(8);
    let mut seen = std::collections::HashSet::new();
    for seed in 0..40usize {
        let state = AlternateMazeState::new(seed);
        let a = randomAction(&state, &mut rng);
        assert!(state.legalActions().contains(&a));
        seen.insert(a);
    }
    assert_eq!(seen.len(), 3);
}

#[test]
fn minimax_score_is_the_exhaustive_optimum() {
    for seed in 0..15usize {
        let state = AlternateMazeState::new(seed);
        for depth in 0..=END_TURN {
            assert_eq!(miniMaxScore(&state, depth), brute_force(&state, depth));
        }
    }
}

#[test]
fn minimax_score_of_known_games() {
    assert_eq!(miniMaxScore(&AlternateMazeState::new(0), END_TURN), 7);
    assert_eq!(miniMaxScore(&AlternateMazeState::new(6), END_TURN), -1);
    assert_eq!(miniMaxScore(&AlternateMazeState::new(8), END_TURN), 0);
    assert_eq!(miniMaxScore(&AlternateMazeState::new(0), 0), 0);
}

#[test]
fn minimax_action_reaches_the_optimum() {
    for seed in 0..15usize {
        let mut state = AlternateMazeState::new(seed);
        while !state.isDone() {
            let depth = END_TURN - state.turn();
            let action = miniMaxAction(&state, depth);
            assert!(state.legalActions().contains(&action));
            let next = moved_alternate(&state, action);
            assert_eq!(-brute_force(&next, depth - 1), brute_force(&state, depth));
            for a in state.legalActions() {
                if a < action {
                    assert!(-brute_force(&moved_alternate(&state, a), depth - 1) < brute_force(&state, depth));
                }
            }
            state = next;
        }
    }
}

#[test]
fn minimax_does_not_lose_to_random_play() {
    for seed in 0..20usize {
        let mut state = AlternateMazeState::new(seed);
        let promised = miniMaxScore(&state, END_TURN);
        let mut rng = StdRng::seed_from_u64(seed as u64);
        loop {
            let a = miniMaxAction(&state, END_TURN);
            state.advance(a);
            if state.isDone() {
                break;
            }
            let b = randomAction(&state, &mut rng);
            state.advance(b);
            if state.isDone() {
                break;
            }
        }
        let lead = first_player_lead(&state);
        assert!(lead >= promised);
        assert!(lead >= 0);
        assert!(state.getFirstPlayerScoreForWinRate() >= 1);
    }
}

#[test]
fn playout_plays_to_the_end_and_values_the_game_for_the_mover() {
    for seed in 0..40usize {
        let mut rng = StdRng::seed_from_u64(seed as u64);
        let start = AlternateMazeState::new(seed);
        for plies in 0..3usize {
            let mut state = start;
            for _ in 0..plies {
                let a = randomAction(&state, &mut rng);
                state.advance(a);
            }
            let first_to_move = state.isFirstPlayer();
            let value = playout(&mut state, &mut rng);
            assert!(state.isDone());
            let lead = first_player_lead(&state);
            let for_first = if lead > 0 { 2 } else if lead < 0 { 0 } else { 1 };
            assert_eq!(value, if first_to_move { for_first } else { 2 - for_first });
        }
    }
}

#[test]
fn playouts_are_dealt_to_the_moves_in_turn() {
    let state = AlternateMazeState::new(2);
    let moves = state.legalActions().len() as u64;
    assert_eq!(moves, 3);
    for playouts in [0usize, 1, 2, 3, 4, 10, 11, 100] {
        let mut rng = StdRng::seed_from_u64(3);
        let (values, counts) = primitiveMontecarloTally(&state, playouts, &mut rng);
        assert_eq!(values.len(), 3);
        assert_eq!(counts.len(), 3);
        let mut dealt = 0;
        for i in 0..3usize {
            let mut expected = 0;
            for count in 0..playouts {
                if count % 3 == i {
                    expected += 1;
                }
            }
            assert_eq!(counts[i], expected);
            assert!(counts[i] >= playouts as u64 / moves);
            assert!(values[i] <= 2 * counts[i]);
            dealt += counts[i];
        }
        assert_eq!(dealt, playouts as u64);
    }
    let mut rng = StdRng::seed_from_u64(3);
    let (_, counts) = primitiveMontecarloTally(&state, 10, &mut rng);
    assert_eq!(counts, vec![4, 3, 3]);
}

#[test]
fn primitive_montecarlo_gives_a_move_that_was_tried() {
    for seed in 0..20usize {
        let state = AlternateMazeState::new(seed);
        let legal = state.legalActions();
        let mut rng = StdRng::seed_from_u64(seed as u64);
        assert_eq!(primitiveMontecarloAction(&state, 0, &mut rng), legal[0]);
        assert_eq!(primitiveMontecarloAction(&state, 1, &mut rng), legal[0]);
        let a = primitiveMontecarloAction(&state, 2, &mut rng);
        assert!(a == legal[0] || a == legal[1]);
        let b = primitiveMontecarloAction(&state, 200, &mut rng);
        assert!(legal.contains(&b));
    }
}

#[test]
fn primitive_montecarlo_is_fixed_by_the_seed() {
    let state = AlternateMazeState::new(4);
    let a = primitiveMontecarloAction(&state, 300, &mut StdRng::seed_from_u64(9));
    let b = primitiveMontecarloAction(&state, 300, &mut StdRng::seed_from_u64(9));
    assert_eq!(a, b);
}

#[test]
fn primitive_montecarlo_finds_the_winning_last_move() {
    let mut found = 0;
    for seed in 0..40usize {
        let mut rng = StdRng::seed_from_u64(seed as u64);
        let mut state = AlternateMazeState::new(seed);
        for _ in 0..END_TURN - 1 {
            let a = randomAction(&state, &mut rng);
            state.advance(a);
        }
        let mut wins = vec![];
        for a in state.legalActions() {
            wins.push(moved_alternate(&state, a).getScore() < 0);
        }
        if wins.iter().any(|w| *w) && !wins.iter().all(|w| *w) {
            let a = primitiveMontecarloAction(&state, 30, &mut rng);
            assert!(moved_alternate(&state, a).getScore() < 0);
            found += 1;
        }
    }
    assert!(found > 0);
}

#[test]
fn first_max_index_takes_the_first_of_the_greatest() {
    assert_eq!(firstMaxIndex(&vec![3]), 0);
    assert_eq!(firstMaxIndex(&vec![1, 5, 5, 2]), 1);
    assert_eq!(firstMaxIndex(&vec![-4, -9, -4]), 0);
    assert_eq!(firstMaxIndex(&vec![0, 1, 2, 3]), 3);
    assert_eq!(firstMaxCount(&vec![7, 7, 7]), 0);
    assert_eq!(firstMaxCount(&vec![0, 2, 9, 9]), 2);
    assert_eq!(firstMaxCount(&vec![u64::MAX, 0]), 0);
}

#[test]
fn best_mean_index_compares_means_exactly() {
    assert_eq!(bestMeanIndex(&vec![1, 2], &vec![2, 4]), 0);
    assert_eq!(bestMeanIndex(&vec![1, 3], &vec![2, 4]), 1);
    assert_eq!(bestMeanIndex(&vec![3, 1], &vec![4, 2]), 0);
    assert_eq!(bestMeanIndex(&vec![0, 0, 0], &vec![0, 0, 0]), 0);
    assert_eq!(bestMeanIndex(&vec![5, 0, 1], &vec![0, 0, 3]), 2);
    assert_eq!(bestMeanIndex(&vec![0, 0], &vec![0, 5]), 1);
    assert_eq!(bestMeanIndex(&vec![2, 8, 6], &vec![4, 3, 3]), 1);
    let big = u64::MAX;
    assert_eq!(bestMeanIndex(&vec![big - 1, big], &vec![big, big]), 1);
    assert_eq!(bestMeanIndex(&vec![big, big], &vec![big, big - 1]), 1);
}

#[test]
fn new_node_has_no_visits_and_no_children() {
    let state = AlternateMazeState::new(1);
    let node = Node::new(&state);
    assert_eq!(node.visitCount(), 0);
    assert_eq!(node.winCount(), 0);
    assert_eq!(node.childCount(), 0);
}

#[test]
fn leaf_gets_its_children_at_the_threshold() {
    let state = AlternateMazeState::new(1);
    let mut node = Node::new(&state);
    let mut rng = StdRng::seed_from_u64(2);
    let mut worth = 0;
    for playouts in 1..=EXPAND_THRESHOLD {
        assert_eq!(node.childCount(), 0);
        let value = node.evaluate(&mut rng, &ucb1);
        assert!(value <= 2);
        worth += value;
        assert_eq!(node.visitCount(), playouts);
        assert_eq!(node.winCount(), worth);
    }
    assert_eq!(node.childCount(), state.legalActions().len());
    for i in 0..node.childCount() {
        assert_eq!(node.child(i).visitCount(), 0);
    }
    assert_eq!(node.nextChildNode(&ucb1), 0);
    let value = node.evaluate(&mut rng, &ucb1);
    assert_eq!(node.child(0).visitCount(), 1);
    assert_eq!(node.child(0).winCount(), 2 - value);
    assert_eq!(node.nextChildNode(&ucb1), 1);
}

#[test]
fn node_of_a_finished_game_counts_the_result() {
    let mut state = AlternateMazeState::new(6);
    let mut rng = StdRng::seed_from_u64(2);
    while !state.isDone() {
        let a = randomAction(&state, &mut rng);
        state.advance(a);
    }
    let worth = if state.getScore() > 0 { 2 } else if state.getScore() < 0 { 0 } else { 1 };
    let mut node = Node::new(&state);
    for playouts in 1..=25u64 {
        assert_eq!(node.evaluate(&mut rng, &ucb1), worth);
        assert_eq!(node.visitCount(), playouts);
        assert_eq!(node.winCount(), worth * playouts);
        assert_eq!(node.childCount(), 0);
    }
}

fn check_tree(node: &Node, root: bool) {
    assert!(node.winCount() <= 2 * node.visitCount());
    if node.childCount() == 0 {
        return;
    }
    let mut sum = 0;
    for i in 0..node.childCount() {
        sum += node.child(i).visitCount();
        check_tree(node.child(i), false);
    }
    if root {
        assert_eq!(node.visitCount(), sum);
    } else {
        assert_eq!(node.visitCount(), sum + EXPAND_THRESHOLD);
    }
}

#[test]
fn every_playout_of_the_root_goes_into_a_child() {
    for seed in 0..10usize {
        let state = AlternateMazeState::new(seed);
        for playouts in [0usize, 1, 2, 5, 50, 500] {
            let mut rng = StdRng::seed_from_u64(seed as u64);
            let root = mctsSearch(&state, playouts, &mut rng, &ucb1);
            assert_eq!(root.visitCount(), playouts as u64);
            assert_eq!(root.childCount(), state.legalActions().len());
            check_tree(&root, true);
        }
    }
}

#[test]
fn search_tries_every_child_before_it_scores_any() {
    let state = AlternateMazeState::new(3);
    let mut rng = StdRng::seed_from_u64(1);
    let root = mctsSearch(&state, 3, &mut rng, &ucb1);
    for i in 0..3 {
        assert_eq!(root.child(i).visitCount(), 1);
    }
    let root = mctsSearch(&state, 2, &mut rng, &ucb1);
    assert_eq!(root.child(0).visitCount(), 1);
    assert_eq!(root.child(1).visitCount(), 1);
    assert_eq!(root.child(2).visitCount(), 0);
    assert_eq!(root.mostVisitedChild(), 0);
}

#[test]
fn mcts_gives_the_move_of_the_most_visited_child() {
    for seed in 0..10usize {
        let state = AlternateMazeState::new(seed);
        let legal = state.legalActions();
        let root = mctsSearch(&state, 300, &mut StdRng::seed_from_u64(seed as u64), &ucb1);
        let mut best = 0;
        for i in 0..root.childCount() {
            if root.child(i).visitCount() > root.child(best).visitCount() {
                best = i;
            }
        }
        assert_eq!(root.mostVisitedChild(), best);
        let action = mctsAction(&state, 300, &mut StdRng::seed_from_u64(seed as u64), &ucb1);
        assert_eq!(action, legal[best]);
        assert_eq!(mctsAction(&state, 0, &mut StdRng::seed_from_u64(0), &ucb1), legal[0]);
    }
}

#[test]
fn next_child_is_the_first_of_the_best_scored() {
    let state = AlternateMazeState::new(5);
    let mut rng = StdRng::seed_from_u64(5);
    let root = mctsSearch(&state, 40, &mut rng, &ucb1);
    let total: u64 = (0..root.childCount()).map(|i| root.child(i).visitCount()).sum();
    let mut best = 0;
    let mut best_score = 0;
    for i in 0..root.childCount() {
        let c = root.child(i);
        let score = ucb1(c.winCount(), c.visitCount(), total);
        if i == 0 || score > best_score {
            best = i;
            best_score = score;
        }
    }
    assert_eq!(root.nextChildNode(&ucb1), best);
    let constant = |_w: u64, _n: u64, _t: u64| -> u64 { 7 };
    assert_eq!(root.nextChildNode(&constant), 0);
    let by_visits = |_w: u64, n: u64, _t: u64| -> u64 { n };
    assert_eq!(root.nextChildNode(&by_visits), root.mostVisitedChild());
}

#[test]
fn mcts_finds_the_winning_last_move() {
    let mut found = 0;
    for seed in 0..40usize {
        let mut rng = StdRng::seed_from_u64(seed as u64);
        let mut state = AlternateMazeState::new(seed);
        for _ in 0..END_TURN - 1 {
            let a = randomAction(&state, &mut rng);
            state.advance(a);
        }
        let wins: Vec<bool> =
            state.legalActions().iter().map(|a| moved_alternate(&state, *a).getScore() < 0).collect();
        if wins.iter().filter(|w| **w).count() == 1 {
            let a = mctsAction(&state, 200, &mut rng, &ucb1);
            assert!(moved_alternate(&state, a).getScore() < 0);
            found += 1;
        }
    }
    assert!(found > 0);
}
