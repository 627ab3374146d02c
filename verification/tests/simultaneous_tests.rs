use maze_search::duct;
use maze_search::simultaneous::{
    mctsAction, playout, primitiveMontecarloAction, primitiveMontecarloTally, randomAction,
    AlternateMazeState, SimultaneousMazeState, WinningStatus, END_TURN, H, W,
};
use rand::rngs::StdRng;
use rand::SeedableRng;

fn rank(value: f64) -> u64 {
    let bits = value.to_bits();
    if value >= 0.0 {
        bits | (1u64 << 63)
    } else {
        !bits
    }
}

fn duct_ucb1(second: bool, w: u64, n: u64, t: u64) -> u64 {
    assert!(n > 0);
    assert!(n <= t);
    assert!(w <= 2 * n);
    let mut wins = w as f64 / 2.0;
    if second {
        wins = 1.0 - wins;
    }
    rank(wins / n as f64 + (2.0 * (t as f64).ln() / n as f64).sqrt())
}

fn alternate_ucb1(w: u64, n: u64, t: u64) -> u64 {
    assert!(n > 0);
    (1.0 - (w as f64 / 2.0) / n as f64 + (2.0 * (t as f64).ln() / n as f64).sqrt()).to_bits()
}

fn moved_both(state: &SimultaneousMazeState, a0: usize, a1: usize) -> SimultaneousMazeState {
    let mut next = *state;
    next.advance(a0, a1);
    next
}

#[test]
fn new_simultaneous_game_is_the_same_left_and_right() {
    let mut distinct = std::collections::HashSet::new();
    for seed in 0..40usize {
        let state = SimultaneousMazeState::new(seed);
        let first = state.character(0);
        let second = state.character(1);
        assert_eq!((first.y_, first.x_, first.game_score_), (1, 0, 0));
        assert_eq!((second.y_, second.x_, second.game_score_), (1, 2, 0));
        assert_eq!(state.turn(), 0);
        assert_eq!(state.pointAt(1, 0), 0);
        assert_eq!(state.pointAt(1, 2), 0);
        for y in 0..H {
            for x in 0..W {
                assert!((0..=9).contains(&state.pointAt(y, x)));
                assert_eq!(state.pointAt(y, x), state.pointAt(y, W - 1 - x));
                distinct.insert(state.pointAt(y, x));
            }
        }
    }
    assert!(distinct.len() > 5);
}

#[test]
fn each_player_has_its_own_moves() {
    let state = SimultaneousMazeState::new(0);
    assert_eq!(state.legalActions(0), vec![0, 2, 3]);
    assert_eq!(state.legalActions(1), vec![1, 2, 3]);
}

#[test]
fn both_players_collect_when_they_enter_the_same_cell() {
    let mut seen_points = false;
    for seed in 0..20usize {
        let state = SimultaneousMazeState::new(seed);
        let middle = state.pointAt(1, 1);
        let next = moved_both(&state, 0, 1);
        assert_eq!(next.character(0).game_score_, middle);
        assert_eq!(next.character(1).game_score_, middle);
        assert_eq!((next.character(0).y_, next.character(0).x_), (1, 1));
        assert_eq!((next.character(1).y_, next.character(1).x_), (1, 1));
        assert_eq!(next.pointAt(1, 1), 0);
        assert_eq!(next.getScore(), 0);
        assert_eq!(next.turn(), 1);
        seen_points = seen_points || middle > 0;
    }
    assert!(seen_points);
}

#[test]
fn simultaneous_advance_collects_for_each_player() {
    let state = SimultaneousMazeState::new(7);
    let up_left = state.pointAt(0, 0);
    let down_right = state.pointAt(2, 2);
    let next = moved_both(&state, 3, 2);
    assert_eq!(next.character(0).game_score_, up_left);
    assert_eq!(next.character(1).game_score_, down_right);
    assert_eq!(next.getScore(), up_left - down_right);
    assert_eq!(next.pointAt(0, 0), 0);
    assert_eq!(next.pointAt(2, 2), 0);
    assert_eq!(next.pointAt(0, 2), state.pointAt(0, 2));
}

#[test]
fn simultaneous_status_follows_the_scores_at_the_end() {
    let mut results = std::collections::HashSet::new();
    for seed in 0..60usize {
        let mut rng = StdRng::seed_from_u64(seed as u64);
        let mut state = SimultaneousMazeState::new(seed);
        let mut turns = 0;
        while !state.isDone() {
            assert!(state.getWinningStatus() == WinningStatus::NONE);
            assert_eq!(state.getFirstPlayerScoreForWinRate(), 1);
            let a0 = randomAction(&state, 0, &mut rng);
            let a1 = randomAction(&state, 1, &mut rng);
            assert!(state.legalActions(0).contains(&a0));
            assert!(state.legalActions(1).contains(&a1));
            state.advance(a0, a1);
            turns += 1;
        }
        assert_eq!(turns, END_TURN);
        let score = state.getScore();
        let status = state.getWinningStatus();
        if score > 0 {
            assert!(status == WinningStatus::FISRT);
            assert_eq!(state.getFirstPlayerScoreForWinRate(), 2);
        } else if score < 0 {
            assert!(status == WinningStatus::SECOND);
            assert_eq!(state.getFirstPlayerScoreForWinRate(), 0);
        } else {
            assert!(status == WinningStatus::DRAW);
            assert_eq!(state.getFirstPlayerScoreForWinRate(), 1);
        }
        results.insert(state.getFirstPlayerScoreForWinRate());
    }
    assert_eq!(results.len(), 3);
}

#[test]
fn simultaneous_playout_values_the_game_for_the_first_player() {
    for seed in 0..40usize {
        let mut rng = StdRng::seed_from_u64(seed as u64);
        let mut state = SimultaneousMazeState::new(seed);
        let value = playout(&mut state, &mut rng);
        assert!(state.isDone());
        assert_eq!(value, state.getFirstPlayerScoreForWinRate());
    }
}

#[test]
fn simultaneous_tally_has_a_sum_for_every_move() {
    let state = SimultaneousMazeState::new(3);
    for player in 0..2usize {
        for playouts in [0usize, 1, 7, 40] {
            let mut rng = StdRng::seed_from_u64(1);
            let values = primitiveMontecarloTally(&state, player, playouts, &mut rng);
            assert_eq!(values.len(), state.legalActions(player).len());
            for v in values.iter() {
                assert!(*v <= 2 * playouts as u64);
            }
        }
    }
}

#[test]
fn simultaneous_tallies_of_both_players_add_up() {
    let mut state = SimultaneousMazeState::new(3);
    let mut rng = StdRng::seed_from_u64(7);
    for _ in 0..END_TURN - 1 {
        let a0 = randomAction(&state, 0, &mut rng);
        let a1 = randomAction(&state, 1, &mut rng);
        state.advance(a0, a1);
    }
    let playouts = 50usize;
    let first = primitiveMontecarloTally(&state, 0, playouts, &mut StdRng::seed_from_u64(4));
    let second = primitiveMontecarloTally(&state, 1, playouts, &mut StdRng::seed_from_u64(4));
    let all_first: u64 = first.iter().sum();
    let all_second: u64 = second.iter().sum();
    assert!(all_first <= 2 * (playouts * first.len()) as u64);
    assert!(all_second <= 2 * (playouts * second.len()) as u64);
}

#[test]
fn simultaneous_primitive_montecarlo_gives_a_legal_move() {
    for seed in 0..15usize {
        let state = SimultaneousMazeState::new(seed);
        for player in 0..2usize {
            let legal = state.legalActions(player);
            let mut rng = StdRng::seed_from_u64(seed as u64);
            assert_eq!(primitiveMontecarloAction(&state, player, 0, &mut rng), legal[0]);
            let a = primitiveMontecarloAction(&state, player, 60, &mut rng);
            assert!(legal.contains(&a));
        }
    }
}

#[test]
fn simultaneous_primitive_montecarlo_takes_the_better_last_move() {
    let mut found = 0;
    for seed in 0..60usize {
        let mut rng = StdRng::seed_from_u64(seed as u64);
        let mut state = SimultaneousMazeState::new(seed);
        for _ in 0..END_TURN - 1 {
            let a0 = randomAction(&state, 0, &mut rng);
            let a1 = randomAction(&state, 1, &mut rng);
            state.advance(a0, a1);
        }
        let mine = state.legalActions(0);
        let theirs = state.legalActions(1);
        let mut always = vec![];
        let mut never = vec![];
        for a0 in mine.iter() {
            let outcomes: Vec<i32> =
                theirs.iter().map(|a1| moved_both(&state, *a0, *a1).getScore()).collect();
            always.push(outcomes.iter().all(|s| *s > 0));
            never.push(outcomes.iter().all(|s| *s < 0));
        }
        let winners = always.iter().filter(|w| **w).count();
        let losers = never.iter().filter(|w| **w).count();
        if winners == 1 && winners + losers == mine.len() {
            let a = primitiveMontecarloAction(&state, 0, 20, &mut rng);
            let index = mine.iter().position(|m| *m == a).unwrap();
            assert!(always[index]);
            found += 1;
        }
    }
    assert!(found > 0);
}

#[test]
fn alternating_view_puts_the_viewer_first() {
    let mut rng = StdRng::seed_from_u64(2);
    let mut base = SimultaneousMazeState::new(5);
    let a0 = randomAction(&base, 0, &mut rng);
    let a1 = randomAction(&base, 1, &mut rng);
    base.advance(a0, a1);
    for player in 0..2usize {
        let view = AlternateMazeState::new(&base, player);
        assert!(!view.isDone());
        assert_eq!(view.legalActions(), base.legalActions(player));
        assert!(view.getWinningStatus() == WinningStatus::NONE);
    }
}

#[test]
fn alternating_view_lasts_two_moves_a_turn() {
    for played in 0..=END_TURN {
        let mut rng = StdRng::seed_from_u64(played as u64);
        let mut base = SimultaneousMazeState::new(9);
        for _ in 0..played {
            let a0 = randomAction(&base, 0, &mut rng);
            let a1 = randomAction(&base, 1, &mut rng);
            base.advance(a0, a1);
        }
        let mut view = AlternateMazeState::new(&base, 1);
        let mut moves = 0;
        while !view.isDone() {
            let a = view.legalActions()[0];
            view.advance(a);
            moves += 1;
        }
        assert_eq!(moves, 2 * (END_TURN - played));
        assert!(view.getWinningStatus() != WinningStatus::NONE);
    }
}

#[test]
fn alternating_view_of_a_finished_game_tells_the_winner_from_the_viewer() {
    let mut results = std::collections::HashSet::new();
    for seed in 0..60usize {
        let mut rng = StdRng::seed_from_u64(seed as u64);
        let mut base = SimultaneousMazeState::new(seed);
        let _ = playout(&mut base, &mut rng);
        let score = base.getScore();
        let first = AlternateMazeState::new(&base, 0).getWinningStatus();
        let second = AlternateMazeState::new(&base, 1).getWinningStatus();
        if score > 0 {
            assert!(first == WinningStatus::FISRT && second == WinningStatus::SECOND);
        } else if score < 0 {
            assert!(first == WinningStatus::SECOND && second == WinningStatus::FISRT);
        } else {
            assert!(first == WinningStatus::DRAW && second == WinningStatus::DRAW);
        }
        results.insert(score.signum());
    }
    assert_eq!(results.len(), 3);
}

#[test]
fn mcts_on_the_alternating_view_gives_a_legal_move() {
    for seed in 0..8usize {
        let state = SimultaneousMazeState::new(seed);
        for player in 0..2usize {
            let mut rng = StdRng::seed_from_u64(seed as u64);
            let a = mctsAction(&state, player, 200, &mut rng, &alternate_ucb1);
            assert!(state.legalActions(player).contains(&a));
        }
    }
}

fn check_duct_tree(node: &duct::Node, root: bool) {
    assert!(node.winCount() <= 2 * node.visitCount());
    if node.rowCount() == 0 {
        return;
    }
    let mut sum = 0;
    for i in 0..node.rowCount() {
        for j in 0..node.columnCount(i) {
            sum += node.child(i, j).visitCount();
            check_duct_tree(node.child(i, j), false);
        }
    }
    if root {
        assert_eq!(node.visitCount(), sum);
    } else {
        assert_eq!(node.visitCount(), sum + duct::EXPAND_THRESHOLD);
    }
}

#[test]
fn new_duct_node_has_no_visits_and_no_children() {
    let node = duct::Node::new(&SimultaneousMazeState::new(1));
    assert_eq!(node.visitCount(), 0);
    assert_eq!(node.winCount(), 0);
    assert_eq!(node.rowCount(), 0);
}

#[test]
fn duct_leaf_gets_a_child_for_every_pair_of_moves() {
    let state = SimultaneousMazeState::new(1);
    let mut node = duct::Node::new(&state);
    let mut rng = StdRng::seed_from_u64(2);
    let mut worth = 0;
    for playouts in 1..=duct::EXPAND_THRESHOLD {
        assert_eq!(node.rowCount(), 0);
        worth += node.evaluate(&mut rng, &duct_ucb1);
        assert_eq!(node.visitCount(), playouts);
        assert_eq!(node.winCount(), worth);
    }
    assert_eq!(node.rowCount(), state.legalActions(0).len());
    for i in 0..node.rowCount() {
        assert_eq!(node.columnCount(i), state.legalActions(1).len());
    }
    assert_eq!(node.nextChildNode(&duct_ucb1), (0, 0));
    let value = node.evaluate(&mut rng, &duct_ucb1);
    assert_eq!(node.child(0, 0).visitCount(), 1);
    assert_eq!(node.child(0, 0).winCount(), value);
    assert_eq!(node.nextChildNode(&duct_ucb1), (0, 1));
}

#[test]
fn every_playout_of_the_duct_root_goes_into_a_child() {
    for seed in 0..6usize {
        let state = SimultaneousMazeState::new(seed);
        for playouts in [0usize, 1, 8, 9, 10, 200] {
            let mut rng = StdRng::seed_from_u64(seed as u64);
            let root = duct::ductSearch(&state, playouts, &mut rng, &duct_ucb1);
            assert_eq!(root.visitCount(), playouts as u64);
            assert_eq!(root.rowCount(), 3);
            check_duct_tree(&root, true);
        }
    }
}

#[test]
fn duct_tries_every_pair_before_it_scores_any() {
    let state = SimultaneousMazeState::new(2);
    let mut rng = StdRng::seed_from_u64(1);
    let root = duct::ductSearch(&state, 9, &mut rng, &duct_ucb1);
    for i in 0..3 {
        for j in 0..3 {
            assert_eq!(root.child(i, j).visitCount(), 1);
        }
    }
    let root = duct::ductSearch(&state, 4, &mut rng, &duct_ucb1);
    assert_eq!(root.child(1, 0).visitCount(), 1);
    assert_eq!(root.child(1, 1).visitCount(), 0);
    assert_eq!(root.mostVisitedRow(), 0);
    assert_eq!(root.mostVisitedColumn(), 0);
}

#[test]
fn duct_players_pick_their_moves_apart() {
    let state = SimultaneousMazeState::new(2);
    let mut rng = StdRng::seed_from_u64(1);
    let root = duct::ductSearch(&state, 60, &mut rng, &duct_ucb1);
    let rows_only = |second: bool, _w: u64, n: u64, _t: u64| -> u64 {
        if second {
            0
        } else {
            n
        }
    };
    assert_eq!(root.nextChildNode(&rows_only), (root.mostVisitedRow(), 0));
    let columns_only = |second: bool, _w: u64, n: u64, _t: u64| -> u64 {
        if second {
            n
        } else {
            0
        }
    };
    assert_eq!(root.nextChildNode(&columns_only), (0, root.mostVisitedColumn()));
}

#[test]
fn duct_gives_the_move_of_the_most_visited_row_or_column() {
    for seed in 0..6usize {
        let state = SimultaneousMazeState::new(seed);
        let root = duct::ductSearch(&state, 150, &mut StdRng::seed_from_u64(seed as u64), &duct_ucb1);
        let mut rows = vec![0u64; 3];
        let mut columns = vec![0u64; 3];
        for i in 0..3 {
            for j in 0..3 {
                rows[i] += root.child(i, j).visitCount();
                columns[j] += root.child(i, j).visitCount();
            }
        }
        let mut best_row = 0;
        let mut best_column = 0;
        for k in 0..3 {
            if rows[k] > rows[best_row] {
                best_row = k;
            }
            if columns[k] > columns[best_column] {
                best_column = k;
            }
        }
        assert_eq!(root.mostVisitedRow(), best_row);
        assert_eq!(root.mostVisitedColumn(), best_column);
        let a0 = duct::ductAction(&state, 0, 150, &mut StdRng::seed_from_u64(seed as u64), &duct_ucb1);
        let a1 = duct::ductAction(&state, 1, 150, &mut StdRng::seed_from_u64(seed as u64), &duct_ucb1);
        assert_eq!(a0, state.legalActions(0)[best_row]);
        assert_eq!(a1, state.legalActions(1)[best_column]);
    }
}
