use maze_search::maze::{
    beamSearch, beamSearchAction, chokudaiSearchAction, greedyAction, randomAction, Coord, MazeState,
    END_TURN, H, INVALID_ACTION, UNSET_ACTION, W,
};
use rand::rngs::StdRng;
use rand::SeedableRng;

fn moved(state: &MazeState, action: usize) -> MazeState {
    let mut next = *state;
    next.advance(action);
    next
}

#[test]
fn coord_holds_row_and_column() {
    let c = Coord::new(2, 3);
    assert_eq!(c.y_, 2);
    assert_eq!(c.x_, 3);
}

#[test]
fn new_game_puts_points_on_every_cell_but_the_characters() {
    let mut distinct = std::collections::HashSet::new();
    for seed in 0..50usize {
        let state = MazeState::new(seed);
        let c = state.character();
        assert!(0 <= c.y_ && (c.y_ as usize) < H);
        assert!(0 <= c.x_ && (c.x_ as usize) < W);
        assert_eq!(state.turn(), 0);
        assert_eq!(state.gameScore(), 0);
        assert_eq!(state.evaluatedScore(), 0);
        assert_eq!(state.firstAction(), UNSET_ACTION);
        assert!(!state.isDone());
        for y in 0..H {
            for x in 0..W {
                let p = state.pointAt(y, x);
                if y as i32 == c.y_ && x as i32 == c.x_ {
                    assert_eq!(p, 0);
                } else {
                    assert!((1..=9).contains(&p));
                    distinct.insert(p);
                }
            }
        }
    }
    assert_eq!(distinct.len(), 9);
}

#[test]
fn new_game_is_fixed_by_its_seed() {
    let a = MazeState::new(11);
    let b = MazeState::new(11);
    assert_eq!(a.character().y_, 2);
    assert_eq!(a.character().x_, 3);
    let rows = [[6, 8, 6, 4], [9, 4, 6, 9], [4, 2, 9, 0]];
    for y in 0..H {
        for x in 0..W {
            assert_eq!(a.pointAt(y, x), rows[y][x]);
            assert_eq!(b.pointAt(y, x), rows[y][x]);
        }
    }
}

#[test]
fn legal_actions_are_the_moves_that_stay_on_the_board() {
    let dx = [1, -1, 0, 0];
    let dy = [0, 0, 1, -1];
    for seed in 0..50usize {
        let state = MazeState::new(seed);
        let c = state.character();
        let mut expected = vec![];
        for action in 0..4usize {
            let ty = c.y_ + dy[action];
            let tx = c.x_ + dx[action];
            if ty >= 0 && ty < H as i32 && tx >= 0 && tx < W as i32 {
                expected.push(action);
            }
        }
        assert_eq!(state.legalActions(), expected);
        assert!(expected.len() >= 2);
    }
}

#[test]
fn advance_collects_the_points_and_empties_the_cell() {
    let state = MazeState::new(11);
    let next = moved(&state, 1);
    assert_eq!(next.character().y_, 2);
    assert_eq!(next.character().x_, 2);
    assert_eq!(next.gameScore(), 9);
    assert_eq!(next.pointAt(2, 2), 0);
    assert_eq!(next.pointAt(1, 3), 9);
    assert_eq!(next.turn(), 1);
    let back = moved(&next, 0);
    assert_eq!(back.gameScore(), 9);
    assert_eq!(back.character().x_, 3);
    assert_eq!(back.turn(), 2);
}

#[test]
fn game_is_done_after_the_last_turn() {
    let mut state = MazeState::new(3);
    let mut turns = 0;
    while !state.isDone() {
        let a = state.legalActions()[0];
        state.advance(a);
        turns += 1;
    }
    assert_eq!(turns, END_TURN);
    assert_eq!(state.turn(), END_TURN);
}

#[test]
fn evaluate_score_is_the_game_score() {
    let state = MazeState::new(11);
    let mut next = moved(&state, 3);
    assert_eq!(next.evaluatedScore(), 0);
    next.evaluateScore();
    assert_eq!(next.evaluatedScore(), 9);
}

#[test]
fn random_action_is_a_legal_action() {
    let mut rng = StdRng::seed_from_u64(5);
    let mut seen = std::collections::HashSet::new();
    for seed in 0..40usize {
        let state = MazeState::new(seed);
        let a = randomAction(&state, &mut rng);
        assert!(state.legalActions().contains(&a));
        seen.insert(a);
    }
    assert!(seen.len() > 1);
}

#[test]
fn greedy_takes_the_first_of_the_best_moves() {
    for seed in 0..60usize {
        let state = MazeState::new(seed);
        let mut best = usize::MAX;
        let mut best_score = -1;
        for a in state.legalActions() {
            let s = moved(&state, a).gameScore();
            if s > best_score {
                best_score = s;
                best = a;
            }
        }
        assert_eq!(greedyAction(&state), best);
    }
}

#[test]
fn greedy_breaks_the_tie_of_seed_11_by_the_first_move() {
    let state = MazeState::new(11);
    assert_eq!(moved(&state, 1).gameScore(), 9);
    assert_eq!(moved(&state, 3).gameScore(), 9);
    assert_eq!(greedyAction(&state), 1);
}

#[test]
fn greedy_game_of_seed_11() {
    let mut state = MazeState::new(11);
    let mut actions = vec![];
    let mut scores = vec![];
    while !state.isDone() {
        let a = greedyAction(&state);
        actions.push(a);
        state.advance(a);
        scores.push(state.gameScore());
    }
    assert_eq!(actions, vec![1, 3, 0, 3]);
    assert_eq!(scores, vec![9, 15, 24, 28]);
    assert_eq!(state.gameScore(), 28);
}

#[test]
fn beam_search_of_one_level_is_greedy() {
    for seed in 0..40usize {
        let state = MazeState::new(seed);
        for width in 1..4usize {
            assert_eq!(beamSearchAction(&state, width, 1), greedyAction(&state));
        }
    }
}

#[test]
fn beam_search_gives_a_legal_first_move() {
    for seed in 0..30usize {
        let state = MazeState::new(seed);
        for width in 1..5usize {
            for depth in 1..6usize {
                let a = beamSearchAction(&state, width, depth);
                assert!(state.legalActions().contains(&a));
            }
        }
    }
}

#[test]
fn beam_search_without_width_or_depth_gives_no_move() {
    let state = MazeState::new(7);
    assert_eq!(beamSearchAction(&state, 0, 4), INVALID_ACTION);
    assert_eq!(beamSearchAction(&state, 3, 0), INVALID_ACTION);
    let best = beamSearch(&state, 0, 4);
    assert_eq!(best.firstAction(), INVALID_ACTION);
    assert_eq!(best.turn(), 0);
}

#[test]
fn beam_search_on_a_finished_game_gives_no_move() {
    let mut state = MazeState::new(7);
    while !state.isDone() {
        let a = greedyAction(&state);
        state.advance(a);
    }
    assert_eq!(beamSearchAction(&state, 2, 2), INVALID_ACTION);
    assert_eq!(chokudaiSearchAction(&state, 2, 2, 2), INVALID_ACTION);
}

#[test]
fn beam_search_ends_on_the_last_level_it_can_build() {
    let state = MazeState::new(11);
    let best = beamSearch(&state, 2, 10);
    assert_eq!(best.turn(), END_TURN);
    assert!(best.isDone());
    assert_eq!(best.evaluatedScore(), best.gameScore() as i64);
    let shallow = beamSearch(&state, 2, 2);
    assert_eq!(shallow.turn(), 2);
}

#[test]
fn full_width_beam_finds_the_best_game() {
    fn best_total(state: &MazeState) -> i32 {
        if state.isDone() {
            return state.gameScore();
        }
        let mut best = -1;
        for a in state.legalActions() {
            let mut next = *state;
            next.advance(a);
            best = best.max(best_total(&next));
        }
        best
    }
    for seed in 0..20usize {
        let state = MazeState::new(seed);
        let best = beamSearch(&state, 1000, END_TURN as usize);
        assert_eq!(best.gameScore(), best_total(&state));
    }
}

#[test]
fn wider_beam_is_no_worse_with_two_levels() {
    for seed in 0..100usize {
        let state = MazeState::new(seed);
        for depth in 1..3usize {
            let mut last = i64::MIN;
            for width in 1..8usize {
                let score = beamSearch(&state, width, depth).evaluatedScore();
                assert!(score >= last);
                last = score;
            }
        }
    }
}

#[test]
fn chokudai_search_gives_a_legal_first_move() {
    for seed in 0..30usize {
        let state = MazeState::new(seed);
        for width in 1..3usize {
            for depth in 1..5usize {
                for number in 1..4usize {
                    let a = chokudaiSearchAction(&state, width, depth, number);
                    assert!(state.legalActions().contains(&a));
                }
            }
        }
    }
}

#[test]
fn chokudai_search_that_never_expands_gives_no_move() {
    let state = MazeState::new(9);
    assert_eq!(chokudaiSearchAction(&state, 0, 4, 3), INVALID_ACTION);
    assert_eq!(chokudaiSearchAction(&state, 2, 0, 3), INVALID_ACTION);
    assert_eq!(chokudaiSearchAction(&state, 2, 4, 0), INVALID_ACTION);
}

#[test]
fn one_sweep_of_width_one_is_a_beam_of_width_one() {
    for seed in 0..40usize {
        let state = MazeState::new(seed);
        for depth in 1..5usize {
            assert_eq!(
                chokudaiSearchAction(&state, 1, depth, 1),
                beamSearchAction(&state, 1, depth)
            );
        }
    }
}

#[test]
fn searches_leave_the_state_alone() {
    let state = MazeState::new(4);
    let _ = greedyAction(&state);
    let _ = beamSearchAction(&state, 3, 3);
    let _ = chokudaiSearchAction(&state, 2, 3, 2);
    let again = MazeState::new(4);
    assert_eq!(state.turn(), 0);
    assert_eq!(state.gameScore(), 0);
    for y in 0..H {
        for x in 0..W {
            assert_eq!(state.pointAt(y, x), again.pointAt(y, x));
        }
    }
}

#[test]
fn wider_beam_can_be_worse_with_three_levels() {
    let state = MazeState::new(180);
    assert_eq!(beamSearch(&state, 1, 3).evaluatedScore(), 21);
    assert_eq!(beamSearch(&state, 2, 3).evaluatedScore(), 17);
}
