use maze_search::beam::Beam;
use maze_search::wall_maze::{
    beamSearch, beamSearchAction, randomAction, Coord, DistanceCoord, WallMazeState, ZobristTable,
    END_TURN, H, INVALID_ACTION, POINT_KEYS, W,
};
use rand::rngs::StdRng;
use rand::{Rng, SeedableRng};

fn moved_wall(state: &WallMazeState, action: usize, table: &ZobristTable) -> WallMazeState {
    let mut next = *state;
    next.advance(action, table);
    next
}

fn same_board(a: &WallMazeState, b: &WallMazeState) -> bool {
    if a.character().y_ != b.character().y_ || a.character().x_ != b.character().x_ {
        return false;
    }
    for y in 0..H {
        for x in 0..W {
            if a.pointAt(y, x) != b.pointAt(y, x) || a.isWall(y, x) != b.isWall(y, x) {
                return false;
            }
        }
    }
    true
}

fn distance_by_queue(state: &WallMazeState) -> i32 {
    let dy = [0, 0, 1, -1];
    let dx = [1, -1, 0, 0];
    let mut queue = std::collections::VecDeque::new();
    let mut seen = vec![vec![false; W]; H];
    let c = state.character();
    queue.push_back((c.y_, c.x_, 0));
    seen[c.y_ as usize][c.x_ as usize] = true;
    while let Some((y, x, d)) = queue.pop_front() {
        if state.pointAt(y as usize, x as usize) > 0 {
            return d;
        }
        for a in 0..4 {
            let ty = y + dy[a];
            let tx = x + dx[a];
            if ty >= 0 && ty < H as i32 && tx >= 0 && tx < W as i32 {
                if !state.isWall(ty as usize, tx as usize) && !seen[ty as usize][tx as usize] {
                    seen[ty as usize][tx as usize] = true;
                    queue.push_back((ty, tx, d + 1));
                }
            }
        }
    }
    (H * W) as i32
}

#[test]
fn distance_coord_starts_at_zero() {
    let c = Coord::new(3, 4);
    let d = DistanceCoord::newFromCoord(&c);
    assert_eq!((d.y_, d.x_, d.distance_), (3, 4, 0));
    let e = DistanceCoord::new(1, 2, 5);
    assert_eq!((e.y_, e.x_, e.distance_), (1, 2, 5));
}

#[test]
fn new_wall_maze_keeps_the_character_off_the_walls() {
    let table = ZobristTable::new();
    let mut walls = 0;
    let mut places = std::collections::HashSet::new();
    for seed in 0..60usize {
        let state = WallMazeState::new(seed, &table);
        let c = state.character();
        assert!(0 <= c.y_ && c.y_ < H as i32 && 0 <= c.x_ && c.x_ < W as i32);
        places.insert((c.y_, c.x_));
        assert!(!state.isWall(c.y_ as usize, c.x_ as usize));
        assert_eq!(state.pointAt(c.y_ as usize, c.x_ as usize), 0);
        assert_eq!(state.turn(), 0);
        assert_eq!(state.gameScore(), 0);
        for y in 0..H {
            for x in 0..W {
                assert!((0..=9).contains(&state.pointAt(y, x)));
                if state.isWall(y, x) {
                    walls += 1;
                }
                if y % 2 == 1 && x % 2 == 1 && !(y as i32 == c.y_ && x as i32 == c.x_) {
                    assert!(state.isWall(y, x));
                }
            }
        }
    }
    assert!(walls > 60 * 9);
    assert!(places.len() > 20);
}

#[test]
fn wall_maze_moves_stop_at_walls_and_edges() {
    let table = ZobristTable::new();
    let dy = [0, 0, 1, -1];
    let dx = [1, -1, 0, 0];
    for seed in 0..60usize {
        let state = WallMazeState::new(seed, &table);
        let c = state.character();
        let mut expected = vec![];
        for a in 0..4usize {
            let ty = c.y_ + dy[a];
            let tx = c.x_ + dx[a];
            if ty >= 0 && ty < H as i32 && tx >= 0 && tx < W as i32 {
                if !state.isWall(ty as usize, tx as usize) {
                    expected.push(a);
                }
            }
        }
        assert_eq!(state.legalActions(), expected);
    }
}

#[test]
fn wall_maze_advance_collects_and_empties() {
    let table = ZobristTable::new();
    for seed in 0..30usize {
        let state = WallMazeState::new(seed, &table);
        for a in state.legalActions() {
            let dy = [0, 0, 1, -1];
            let dx = [1, -1, 0, 0];
            let ty = (state.character().y_ + dy[a]) as usize;
            let tx = (state.character().x_ + dx[a]) as usize;
            let next = moved_wall(&state, a, &table);
            assert_eq!(next.gameScore(), state.pointAt(ty, tx));
            assert_eq!(next.pointAt(ty, tx), 0);
            assert_eq!((next.character().y_ as usize, next.character().x_ as usize), (ty, tx));
            assert_eq!(next.turn(), 1);
        }
    }
}

#[test]
fn table_is_the_same_whenever_it_is_made() {
    let one = ZobristTable::new();
    let two = ZobristTable::new();
    for seed in 0..10usize {
        let a = WallMazeState::new(seed, &one);
        let b = WallMazeState::new(seed, &two);
        assert_eq!(a.hash(), b.hash());
        for action in a.legalActions() {
            assert_eq!(moved_wall(&a, action, &one).hash(), moved_wall(&b, action, &two).hash());
        }
    }
}

#[test]
fn hash_does_not_depend_on_the_way() {
    let table = ZobristTable::new();
    let back = [1, 0, 3, 2];
    let mut checked = 0;
    for seed in 0..60usize {
        let state = WallMazeState::new(seed, &table);
        for a in state.legalActions() {
            let short = moved_wall(&state, a, &table);
            let there = moved_wall(&state, a, &table);
            let home = moved_wall(&there, back[a], &table);
            let long = moved_wall(&home, a, &table);
            assert!(same_board(&short, &long));
            assert_eq!(short.hash(), long.hash());
            assert_ne!(short.turn(), long.turn());
            assert_ne!(short.hash(), state.hash());
            checked += 1;
        }
    }
    assert!(checked > 60);
}

#[test]
fn hash_of_two_ways_round_a_square_is_the_same_once_the_square_is_empty() {
    let table = ZobristTable::new();
    let mut checked = 0;
    for seed in 0..200usize {
        let state = WallMazeState::new(seed, &table);
        let legal = state.legalActions();
        if !(legal.contains(&0) && legal.contains(&2)) {
            continue;
        }
        let right = moved_wall(&state, 0, &table);
        let down = moved_wall(&state, 2, &table);
        if !(right.legalActions().contains(&2) && down.legalActions().contains(&0)) {
            continue;
        }
        let mut one = moved_wall(&right, 2, &table);
        let mut other = moved_wall(&down, 0, &table);
        assert_eq!(one.character().y_, other.character().y_);
        assert_eq!(one.character().x_, other.character().x_);
        assert_eq!(same_board(&one, &other), one.hash() == other.hash());
        for a in [1usize, 3, 0, 2] {
            one = moved_wall(&one, a, &table);
        }
        for a in [3usize, 1, 2, 0] {
            other = moved_wall(&other, a, &table);
        }
        assert!(same_board(&one, &other));
        assert_eq!(one.hash(), other.hash());
        checked += 1;
    }
    assert!(checked > 5);
}

#[test]
fn different_positions_have_different_hashes() {
    let table = ZobristTable::new();
    let mut states: Vec<WallMazeState> = vec![];
    for seed in 0..12usize {
        let mut level = vec![WallMazeState::new(seed, &table)];
        for _ in 0..3 {
            let mut next = vec![];
            for s in level.iter() {
                for a in s.legalActions() {
                    next.push(moved_wall(s, a, &table));
                }
            }
            states.extend(level);
            level = next;
        }
        states.extend(level);
    }
    assert!(states.len() > 200);
    let mut equal_pairs = 0;
    for i in 0..states.len() {
        for j in 0..i {
            let same = same_board(&states[i], &states[j]);
            assert_eq!(same, states[i].hash() == states[j].hash());
            if same {
                equal_pairs += 1;
            }
        }
    }
    assert!(equal_pairs > 0);
}

#[test]
fn distance_is_that_of_the_nearest_points() {
    let table = ZobristTable::new();
    let mut distances = std::collections::HashSet::new();
    for seed in 0..80usize {
        let mut rng = StdRng::seed_from_u64(seed as u64);
        let mut state = WallMazeState::new(seed, &table);
        for _ in 0..12 {
            let d = state.getDistanceToNearestPoint();
            assert_eq!(d, distance_by_queue(&state));
            distances.insert(d);
            if state.legalActions().is_empty() {
                break;
            }
            let a = randomAction(&state, &mut rng);
            state.advance(a, &table);
        }
    }
    assert!(distances.contains(&1));
    assert!(distances.contains(&2));
}

#[test]
fn evaluation_weighs_points_against_distance() {
    let table = ZobristTable::new();
    for seed in 0..30usize {
        let state = WallMazeState::new(seed, &table);
        for a in state.legalActions() {
            let mut next = moved_wall(&state, a, &table);
            assert_eq!(next.evaluatedScore(), 0);
            next.evaluateScore();
            assert_eq!(
                next.evaluatedScore(),
                next.gameScore() * 49 - next.getDistanceToNearestPoint()
            );
        }
    }
}

#[test]
fn wall_random_action_is_legal() {
    let table = ZobristTable::new();
    let mut rng = StdRng::seed_from_u64(3);
    let mut seen = std::collections::HashSet::new();
    for seed in 0..60usize {
        let state = WallMazeState::new(seed, &table);
        if state.legalActions().is_empty() {
            continue;
        }
        let a = randomAction(&state, &mut rng);
        assert!(state.legalActions().contains(&a));
        seen.insert(a);
    }
    assert_eq!(seen.len(), 4);
}

#[test]
fn wall_beam_search_gives_a_legal_first_move() {
    let table = ZobristTable::new();
    for seed in 0..30usize {
        let state = WallMazeState::new(seed, &table);
        for width in [1usize, 2, 5] {
            for depth in [1usize, 2, 6] {
                let a = beamSearchAction(&state, width, depth, &table);
                if state.legalActions().is_empty() {
                    assert_eq!(a, INVALID_ACTION);
                } else {
                    assert!(state.legalActions().contains(&a));
                }
            }
        }
    }
}

#[test]
fn wall_beam_search_without_width_or_depth_gives_no_move() {
    let table = ZobristTable::new();
    let state = WallMazeState::new(1, &table);
    assert_eq!(beamSearchAction(&state, 0, 3, &table), INVALID_ACTION);
    assert_eq!(beamSearchAction(&state, 3, 0, &table), INVALID_ACTION);
    let best = beamSearch(&state, 0, 3, &table);
    assert_eq!(best.turn(), 0);
    assert_eq!(best.hash(), state.hash());
}

#[test]
fn wall_beam_search_of_one_level_takes_the_best_evaluated_move() {
    let table = ZobristTable::new();
    for seed in 0..40usize {
        let state = WallMazeState::new(seed, &table);
        let mut best = INVALID_ACTION;
        let mut best_score = i32::MIN;
        for a in state.legalActions() {
            let mut next = moved_wall(&state, a, &table);
            next.evaluateScore();
            if best == INVALID_ACTION || next.evaluatedScore() > best_score {
                best = a;
                best_score = next.evaluatedScore();
            }
        }
        assert_eq!(beamSearchAction(&state, 4, 1, &table), best);
        if best != INVALID_ACTION {
            assert_eq!(beamSearch(&state, 4, 1, &table).evaluatedScore(), best_score);
        }
    }
}

#[test]
fn wall_beam_search_plays_a_whole_game() {
    let table = ZobristTable::new();
    let mut state = WallMazeState::new(2, &table);
    let mut turns = 0;
    while !state.isDone() {
        let a = beamSearchAction(&state, 3, 4, &table);
        if a == INVALID_ACTION {
            break;
        }
        assert!(state.legalActions().contains(&a));
        state.advance(a, &table);
        turns += 1;
    }
    assert_eq!(turns, END_TURN);
    assert!(state.gameScore() > 0);
}

#[test]
fn beam_hands_out_the_best_first_and_equals_in_their_order() {
    let mut beam: Beam<u32> = Beam::new();
    assert!(beam.is_empty());
    beam.push(5, 50);
    beam.push(9, 90);
    beam.push(5, 51);
    beam.push(1, 10);
    beam.push(9, 91);
    beam.push(7, 70);
    assert_eq!(beam.len(), 6);
    assert_eq!(beam.peek().item, 90);
    let mut out = vec![];
    while !beam.is_empty() {
        let top = beam.pop();
        out.push((top.score, top.item));
    }
    assert_eq!(out, vec![(9, 90), (9, 91), (7, 70), (5, 50), (5, 51), (1, 10)]);
}

fn chosen_keys() -> (Vec<u64>, Vec<u64>) {
    let point_keys: Vec<u64> =
        (0..POINT_KEYS as u64).map(|k| (k + 1).wrapping_mul(0x9E37_79B9_7F4A_7C15)).collect();
    let character_keys: Vec<u64> =
        (0..(H * W) as u64).map(|k| !(k + 7).wrapping_mul(0xC2B2_AE3D_27D4_EB4F)).collect();
    (point_keys, character_keys)
}

fn hash_by_hand(state: &WallMazeState, point_keys: &Vec<u64>, character_keys: &Vec<u64>) -> u64 {
    let c = state.character();
    let mut hash = character_keys[c.y_ as usize * W + c.x_ as usize];
    for y in 0..H {
        for x in 0..W {
            let p = state.pointAt(y, x) as usize;
            if p > 0 {
                hash ^= point_keys[(y * W + x) * 9 + p - 1];
            }
        }
    }
    hash
}

#[test]
fn table_takes_as_many_keys_as_it_has() {
    let (point_keys, character_keys) = chosen_keys();
    assert_eq!(POINT_KEYS, 441);
    assert!(ZobristTable::fromKeys(&point_keys, &character_keys).is_some());
    assert!(ZobristTable::fromKeys(&point_keys[1..].to_vec(), &character_keys).is_none());
    assert!(ZobristTable::fromKeys(&point_keys, &character_keys[1..].to_vec()).is_none());
    assert!(ZobristTable::fromKeys(&character_keys, &point_keys).is_none());
    assert!(ZobristTable::fromKeys(&vec![], &vec![]).is_none());
}

#[test]
fn hash_is_the_keys_of_the_board_and_the_place_combined() {
    let (point_keys, character_keys) = chosen_keys();
    let table = ZobristTable::fromKeys(&point_keys, &character_keys).unwrap();
    for seed in 0..30usize {
        let mut rng = StdRng::seed_from_u64(seed as u64);
        let mut state = WallMazeState::new(seed, &table);
        assert_eq!(state.hash(), hash_by_hand(&state, &point_keys, &character_keys));
        for _ in 0..10 {
            if state.legalActions().is_empty() {
                break;
            }
            let a = randomAction(&state, &mut rng);
            state.advance(a, &table);
            assert_eq!(state.hash(), hash_by_hand(&state, &point_keys, &character_keys));
        }
    }
}

#[test]
fn hash_of_a_board_with_one_cell_of_points_left() {
    let mut point_keys = vec![0u64; POINT_KEYS];
    let mut character_keys = vec![0u64; H * W];
    for y in 0..H {
        for x in 0..W {
            character_keys[y * W + x] = 1u64 << (y * W + x);
            for p in 1..10 {
                point_keys[(y * W + x) * 9 + p - 1] = (p as u64) << 56;
            }
        }
    }
    let table = ZobristTable::fromKeys(&point_keys, &character_keys).unwrap();
    let state = WallMazeState::new(5, &table);
    let c = state.character();
    let mut points = 0u64;
    for y in 0..H {
        for x in 0..W {
            points ^= (state.pointAt(y, x) as u64) << 56;
        }
    }
    assert_eq!(state.hash(), (1u64 << (c.y_ as usize * W + c.x_ as usize)) | points);
}

#[test]
fn table_is_drawn_from_the_seed_zero_cell_after_cell() {
    let mut rng = StdRng::seed_from_u64(0);
    let point_keys: Vec<u64> = (0..POINT_KEYS).map(|_| rng.gen()).collect();
    let mut rng = StdRng::seed_from_u64(0);
    let character_keys: Vec<u64> = (0..H * W).map(|_| rng.gen()).collect();
    let by_hand = ZobristTable::fromKeys(&point_keys, &character_keys).unwrap();
    let table = ZobristTable::new();
    for seed in 0..20usize {
        let mut a = WallMazeState::new(seed, &table);
        let mut b = WallMazeState::new(seed, &by_hand);
        assert_eq!(a.hash(), b.hash());
        assert_eq!(a.hash(), hash_by_hand(&a, &point_keys, &character_keys));
        for _ in 0..6 {
            if a.legalActions().is_empty() {
                break;
            }
            let action = a.legalActions()[0];
            a.advance(action, &table);
            b.advance(action, &by_hand);
            assert_eq!(a.hash(), b.hash());
        }
    }
}
