use maze_search::alternate;
use maze_search::auto_move::{hillClimb, randomAction, AutoMoveMazeState, CHARACTER_N};
use maze_search::maze::MazeState;
use maze_search::simultaneous::SimultaneousMazeState;
use maze_search::text::{digit_char, push_decimal, push_point};
use maze_search::wall_maze::{WallMazeState, ZobristTable};
use rand::rngs::StdRng;
use rand::SeedableRng;

#[test]
fn digits_and_numbers_are_written_in_decimal() {
    assert_eq!(digit_char(0), '0');
    assert_eq!(digit_char(7), '7');
    assert_eq!(digit_char(9), '9');
    for n in [0u64, 5, 9, 10, 11, 99, 100, 441, 12345, u64::MAX] {
        let mut s = String::from("n=");
        push_decimal(&mut s, n);
        assert_eq!(s, format!("n={}", n));
    }
}

#[test]
fn empty_cell_is_a_dot() {
    let mut s = String::new();
    push_point(&mut s, 0);
    push_point(&mut s, 4);
    push_point(&mut s, 9);
    assert_eq!(s, ".49");
}

#[test]
fn maze_is_shown_with_turn_score_and_board() {
    let mut state = MazeState::new(11);
    assert_eq!(state.toString(), "turn:\t0\nscore:\t0\n6864\n9469\n429@\n");
    state.advance(1);
    assert_eq!(state.toString(), "turn:\t1\nscore:\t9\n6864\n9469\n42@.\n");
    state.advance(3);
    state.advance(0);
    assert_eq!(state.toString(), "turn:\t3\nscore:\t24\n6864\n94.@\n42..\n");
}

#[test]
fn alternate_maze_is_shown_with_both_players() {
    let mut state = alternate::AlternateMazeState::new(0);
    let text = state.toString();
    let lines: Vec<&str> = text.lines().collect();
    assert_eq!(lines.len(), 6);
    assert_eq!(lines[0], "turn:\t0");
    assert_eq!(lines[1], "score(0)\t 0\ty:1 x:0");
    assert_eq!(lines[2], "score(1)\t 0\ty:1 x:2");
    assert_eq!(lines[4].chars().next(), Some('A'));
    assert_eq!(lines[4].chars().last(), Some('B'));
    assert_eq!(lines[4].chars().count(), 3);
    let gain = state.pointAt(1, 1);
    state.advance(0);
    let text = state.toString();
    let lines: Vec<&str> = text.lines().collect();
    assert_eq!(lines[0], "turn:\t1");
    assert_eq!(lines[1], format!("score(0)\t {}\ty:1 x:1", gain));
    assert_eq!(lines[2], "score(1)\t 0\ty:1 x:2");
    assert_eq!(lines[4], ".AB");
    state.advance(1);
    let text = state.toString();
    let lines: Vec<&str> = text.lines().collect();
    assert_eq!(lines[0], "turn:\t2");
    assert_eq!(lines[4], ".AB.");
    assert!(text.ends_with('\n'));
}

#[test]
fn alternate_maze_shows_who_is_who_after_an_odd_number_of_moves() {
    let mut state = alternate::AlternateMazeState::new(0);
    state.advance(3);
    let text = state.toString();
    let lines: Vec<&str> = text.lines().collect();
    assert_eq!(lines[3].chars().next(), Some('A'));
    assert_eq!(lines[4].chars().last(), Some('B'));
    assert_eq!(lines[4].chars().next(), Some('.'));
}

#[test]
fn simultaneous_maze_is_shown_with_both_players() {
    let mut state = SimultaneousMazeState::new(0);
    let text = state.toString();
    let lines: Vec<&str> = text.lines().collect();
    assert_eq!(lines.len(), 6);
    assert_eq!(lines[0], "turn:\t0");
    assert_eq!(lines[1], "score(0)\t 0");
    assert_eq!(lines[2], "score(1)\t 0");
    assert_eq!(lines[4].chars().next(), Some('A'));
    assert_eq!(lines[4].chars().last(), Some('B'));
    let gain = state.pointAt(1, 1);
    state.advance(0, 1);
    let text = state.toString();
    let lines: Vec<&str> = text.lines().collect();
    assert_eq!(lines[0], "turn:\t1");
    assert_eq!(lines[1], format!("score(0)\t {}", gain));
    assert_eq!(lines[2], format!("score(1)\t {}", gain));
    assert_eq!(lines[4], ".AB.");
}

#[test]
fn wall_maze_is_shown_with_its_walls() {
    let table = ZobristTable::new();
    let state = WallMazeState::new(0, &table);
    let text = state.toString();
    let lines: Vec<&str> = text.lines().collect();
    assert_eq!(lines.len(), 9);
    assert_eq!(lines[0], "turn:\t0");
    assert_eq!(lines[1], "score:\t0");
    let mut characters = 0;
    for y in 0..7 {
        let row: Vec<char> = lines[2 + y].chars().collect();
        assert_eq!(row.len(), 7);
        for x in 0..7 {
            let expected = if state.isWall(y, x) {
                '#'
            } else if state.character().y_ == y as i32 && state.character().x_ == x as i32 {
                characters += 1;
                '@'
            } else if state.pointAt(y, x) > 0 {
                char::from_digit(state.pointAt(y, x) as u32, 10).unwrap()
            } else {
                '.'
            };
            assert_eq!(row[x], expected);
        }
    }
    assert_eq!(characters, 1);
}

#[test]
fn new_auto_move_board_is_full_and_the_characters_wait_in_the_corner() {
    let mut distinct = std::collections::HashSet::new();
    for seed in 0..20usize {
        let state = AutoMoveMazeState::new(seed);
        assert_eq!(state.turn(), 0);
        assert_eq!(state.gameScore(), 0);
        for id in 0..CHARACTER_N {
            assert_eq!((state.character(id).y_, state.character(id).x_), (0, 0));
        }
        for y in 0..5 {
            for x in 0..5 {
                assert!((1..=9).contains(&state.pointAt(y, x)));
                distinct.insert(state.pointAt(y, x));
            }
        }
    }
    assert_eq!(distinct.len(), 9);
}

#[test]
fn auto_move_characters_walk_to_the_richest_neighbour() {
    for seed in 0..20usize {
        let mut state = AutoMoveMazeState::new(seed);
        state.setCharacter(0, 2, 2);
        state.setCharacter(1, 0, 0);
        state.setCharacter(2, 4, 4);
        let before = state;
        state.advance();
        assert_eq!(state.turn(), 1);
        let dy = [0, 0, 1, -1];
        let dx = [1, -1, 0, 0];
        let mut collected = 0;
        let mut board = [[0; 5]; 5];
        for y in 0..5 {
            for x in 0..5 {
                board[y][x] = before.pointAt(y, x);
            }
        }
        let mut places = vec![];
        for id in 0..CHARACTER_N {
            let c = before.character(id);
            let mut best = -1;
            let mut target = (0, 0);
            for a in 0..4 {
                let ty = c.y_ + dy[a];
                let tx = c.x_ + dx[a];
                if ty >= 0 && ty < 5 && tx >= 0 && tx < 5 {
                    let p = before.pointAt(ty as usize, tx as usize);
                    if p > best {
                        best = p;
                        target = (ty, tx);
                    }
                }
            }
            places.push(target);
        }
        for id in 0..CHARACTER_N {
            assert_eq!((state.character(id).y_, state.character(id).x_), places[id]);
            let (y, x) = (places[id].0 as usize, places[id].1 as usize);
            collected += board[y][x];
            board[y][x] = 0;
            assert_eq!(state.pointAt(y, x), 0);
        }
        assert_eq!(state.gameScore(), collected);
    }
}

fn score_by_hand(state: &AutoMoveMazeState) -> i32 {
    let dy = [0, 0, 1, -1];
    let dx = [1, -1, 0, 0];
    let mut board = [[0; 5]; 5];
    for y in 0..5 {
        for x in 0..5 {
            board[y][x] = state.pointAt(y, x);
        }
    }
    let mut places: Vec<(i32, i32)> =
        (0..CHARACTER_N).map(|id| (state.character(id).y_, state.character(id).x_)).collect();
    for p in places.iter() {
        board[p.0 as usize][p.1 as usize] = 0;
    }
    let mut score = state.gameScore();
    for _ in state.turn()..5 {
        for p in places.iter_mut() {
            let mut best = -1;
            let mut target = *p;
            for a in 0..4 {
                let ty = p.0 + dy[a];
                let tx = p.1 + dx[a];
                if ty >= 0 && ty < 5 && tx >= 0 && tx < 5 && board[ty as usize][tx as usize] > best {
                    best = board[ty as usize][tx as usize];
                    target = (ty, tx);
                }
            }
            *p = target;
        }
        for p in places.iter() {
            score += board[p.0 as usize][p.1 as usize];
            board[p.0 as usize][p.1 as usize] = 0;
        }
    }
    score
}

#[test]
fn auto_move_score_plays_the_game_out_from_emptied_cells() {
    let mut scores = std::collections::HashSet::new();
    for seed in 0..20usize {
        let mut state = AutoMoveMazeState::new(seed);
        let mut rng = StdRng::seed_from_u64(seed as u64);
        for _ in 0..5 {
            state.init(&mut rng);
            let score = state.getScore();
            assert_eq!(score, score_by_hand(&state));
            assert!(score > 0 && score <= 135);
            assert_eq!(state.turn(), 0);
            scores.insert(score);
        }
        state.setCharacter(0, 1, 3);
        state.setCharacter(1, 3, 1);
        state.setCharacter(2, 1, 3);
        assert_eq!(state.getScore(), score_by_hand(&state));
        let start = state.cleared();
        assert_eq!(start.pointAt(1, 3), 0);
        assert_eq!(start.pointAt(3, 1), 0);
        assert_eq!(start.pointAt(0, 0), state.pointAt(0, 0));
        assert_eq!(start.gameScore(), 0);
        state.advance();
        assert_eq!(state.getScore(), score_by_hand(&state));
    }
    assert!(scores.len() > 20);
}

#[test]
fn auto_move_is_shown_with_its_characters() {
    let mut state = AutoMoveMazeState::new(3);
    state.setCharacter(0, 0, 0);
    state.setCharacter(1, 0, 0);
    state.setCharacter(2, 4, 4);
    let text = state.toString();
    let lines: Vec<&str> = text.lines().collect();
    assert_eq!(lines.len(), 7);
    assert_eq!(lines[0], "turn:\t0");
    assert_eq!(lines[1], "score:\t0");
    assert_eq!(lines[2].chars().next(), Some('@'));
    assert_eq!(lines[6].chars().last(), Some('@'));
    assert_eq!(text.matches('@').count(), 2);
    assert_eq!(lines[3].len(), 5);
}

#[test]
fn random_placement_and_hill_climbing_keep_the_board() {
    let mut places = std::collections::HashSet::new();
    for seed in 0..20usize {
        let state = AutoMoveMazeState::new(seed);
        let mut rng = StdRng::seed_from_u64(seed as u64);
        let placed = randomAction(&state, &mut rng);
        let best = hillClimb(&state, 30, &mut rng);
        let none = hillClimb(&state, -1, &mut rng);
        for y in 0..5 {
            for x in 0..5 {
                assert_eq!(placed.pointAt(y, x), state.pointAt(y, x));
                assert_eq!(best.pointAt(y, x), state.pointAt(y, x));
                assert_eq!(none.pointAt(y, x), state.pointAt(y, x));
            }
        }
        for id in 0..CHARACTER_N {
            for s in [&placed, &best, &none] {
                let c = s.character(id);
                assert!(0 <= c.y_ && c.y_ < 5 && 0 <= c.x_ && c.x_ < 5);
                places.insert((c.y_, c.x_));
            }
        }
        assert_eq!(best.turn(), 0);
        assert_eq!(best.gameScore(), 0);
    }
    assert!(places.len() > 15);
}

#[test]
fn transition_moves_at_most_one_character() {
    let mut rng = StdRng::seed_from_u64(4);
    let mut state = AutoMoveMazeState::new(1);
    state.init(&mut rng);
    let mut changed = std::collections::HashSet::new();
    for _ in 0..60 {
        let before = state;
        state.transition(&mut rng);
        let mut moved = 0;
        for id in 0..CHARACTER_N {
            let a = before.character(id);
            let b = state.character(id);
            if (a.y_, a.x_) != (b.y_, b.x_) {
                moved += 1;
                changed.insert(id);
            }
        }
        assert!(moved <= 1);
    }
    assert_eq!(changed.len(), CHARACTER_N);
}
