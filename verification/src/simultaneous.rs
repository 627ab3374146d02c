//! The two-player maze with simultaneous moves: both characters move at
//! once on one board, each collecting the points of the cell it enters.
use crate::alternate;
use crate::alternate::AlternateView;
use crate::character::{Character, Piece};
use crate::choice::{counts, firstMaxCount, first_max, is_first_max, lemma_first_max};
use crate::grid::{dx, dy, lemma_moves_below, moves_below, on_board, step_x, step_y, ACTION_COUNT};
use crate::montecarlo::scorer_ok;
use crate::random::{random_i32, random_index, seeded_rng};
use crate::text::{decimal, point_text, push_char, push_decimal, push_point, row_text, rows_text};
use rand::rngs::StdRng;
use vstd::prelude::*;
use vstd::string::StringExecFns;

verus! {

/// Rows of the board.
pub const H: usize = 3;

/// Columns of the board.
pub const W: usize = 3;

/// Number of turns of a game; in each both players move.
pub const END_TURN: usize = 4;

/// Largest number of points a cell holds.
pub const MAX_POINT: i32 = 9;

/// How a game stands.
#[derive(Debug, Clone, Copy, PartialEq, Eq, Structural)]
pub enum WinningStatus {
    FISRT,
    SECOND,
    DRAW,
    NONE,
}

/// A position of the simultaneous maze.
#[derive(Debug, Clone, Copy)]
pub struct SimultaneousMazeState {
    points_: [[i32; W]; H],
    turn_: usize,
    characters_: [Character; 2],
}

/// What a `SimultaneousMazeState` stands for.
pub struct SimultaneousView {
    /// Points by row and column.
    pub points: Seq<Seq<int>>,
    pub turn: int,
    /// The characters of the first and of the second player.
    pub players: Seq<Piece>,
}

impl SimultaneousView {
    /// The board has its size, every cell holds 0 to 9 points, both
    /// characters stand on emptied cells of the board, and neither has
    /// collected more than 9 points per turn played.
    pub open spec fn wf(self) -> bool {
        &&& self.points.len() == H
        &&& forall|y: int| 0 <= y < H ==> (#[trigger] self.points[y]).len() == W
        &&& forall|y: int, x: int|
            0 <= y < H && 0 <= x < W ==> 0 <= #[trigger] self.points[y][x] <= MAX_POINT
        &&& 0 <= self.turn <= END_TURN
        &&& self.players.len() == 2
        &&& forall|p: int|
            0 <= p < 2 ==> {
                &&& on_board((#[trigger] self.players[p]).y, self.players[p].x, H as int, W as int)
                &&& self.points[self.players[p].y][self.players[p].x] == 0
                &&& 0 <= self.players[p].score <= MAX_POINT * self.turn
            }
    }

    /// The game is over when the last turn was played.
    pub open spec fn done(self) -> bool {
        self.turn == END_TURN
    }

    /// A move is possible for a player when it keeps its character on the board.
    pub open spec fn can_move(self, player: int, action: int) -> bool {
        0 <= action < ACTION_COUNT && on_board(
            self.players[player].y + dy(action),
            self.players[player].x + dx(action),
            H as int,
            W as int,
        )
    }

    /// The possible moves of a player, in ascending order.
    pub open spec fn legal(self, player: int) -> Seq<usize> {
        moves_below(|a: int| self.can_move(player, a), ACTION_COUNT as int)
    }

    /// The character of `player` after `action`, with the points of the
    /// cell it enters.
    pub open spec fn moved(self, player: int, action: int) -> Piece {
        let y = self.players[player].y + dy(action);
        let x = self.players[player].x + dx(action);
        Piece { y, x, score: self.players[player].score + self.points[y][x] }
    }

    /// The position after the first player plays `action0` and the second
    /// `action1`: both characters move, each collects the points of the cell
    /// it enters, even where both enter the same cell, and the cells are
    /// emptied.
    pub open spec fn step(self, action0: int, action1: int) -> SimultaneousView {
        let first = self.moved(0, action0);
        let second = self.moved(1, action1);
        let emptied = self.points.update(first.y, self.points[first.y].update(first.x, 0));
        SimultaneousView {
            points: emptied.update(second.y, emptied[second.y].update(second.x, 0)),
            turn: self.turn + 1,
            players: seq![first, second],
        }
    }

    /// The lead of the first player over the second.
    pub open spec fn score(self) -> int {
        self.players[0].score - self.players[1].score
    }

    /// How the game stands; `NONE` while it goes on.
    pub open spec fn status(self) -> WinningStatus {
        if !self.done() {
            WinningStatus::NONE
        } else if self.players[0].score > self.players[1].score {
            WinningStatus::FISRT
        } else if self.players[0].score < self.players[1].score {
            WinningStatus::SECOND
        } else {
            WinningStatus::DRAW
        }
    }

    /// The worth of the position to the first player in half points: 2 for
    /// a lead, 0 for a deficit, 1 for equal scores.
    pub open spec fn worth(self) -> int {
        if self.players[0].score > self.players[1].score {
            2
        } else if self.players[0].score < self.players[1].score {
            0
        } else {
            1
        }
    }

    /// What the score of `player` is shown as.
    pub open spec fn score_text(self, player: int) -> Seq<char> {
        "score("@ + decimal(player as nat) + ")\t "@ + decimal(self.players[player].score as nat)
            + "\n"@
    }

    /// What the cell `(y, x)` is shown as: `A` for the first player and `B`
    /// for the second, both where they share the cell; else the digit of
    /// its points, or a dot where it is empty.
    pub open spec fn cell_text(self, y: int, x: int) -> Seq<char> {
        let first = self.players[0].y == y && self.players[0].x == x;
        let second = self.players[1].y == y && self.players[1].x == x;
        if first && second {
            seq!['A', 'B']
        } else if first {
            seq!['A']
        } else if second {
            seq!['B']
        } else {
            point_text(self.points[y][x])
        }
    }

    /// What the position is shown as: the turn, the scores, and the board
    /// row by row.
    pub open spec fn text(self) -> Seq<char> {
        "turn:\t"@ + decimal(self.turn as nat) + "\n"@ + self.score_text(0) + self.score_text(1)
            + rows_text(|y: int, x: int| self.cell_text(y, x), H as int, W as int)
    }

    /// The game as one of alternating moves, seen by `player`: that player
    /// is to move, the other follows, and each turn counts as two moves.
    pub open spec fn alternating(self, player: int) -> AlternateView {
        AlternateView {
            points: self.points,
            turn: 2 * self.turn,
            end_turn: 2 * END_TURN as int,
            mover: self.players[player],
            waiter: self.players[1 - player],
        }
    }
}

/// A step from a valid position that is not over, by possible moves, gives a
/// valid position.
pub proof fn lemma_step_wf(v: SimultaneousView, action0: int, action1: int)
    requires
        v.wf(),
        !v.done(),
        v.can_move(0, action0),
        v.can_move(1, action1),
    ensures
        v.step(action0, action1).wf(),
{
    let n = v.step(action0, action1);
    let first = v.moved(0, action0);
    let second = v.moved(1, action1);
    assert(v.players[0].score <= MAX_POINT * v.turn);
    assert(v.players[1].score <= MAX_POINT * v.turn);
    assert(0 <= v.points[first.y][first.x] <= MAX_POINT);
    assert(0 <= v.points[second.y][second.x] <= MAX_POINT);
    assert forall|i: int| 0 <= i < H implies (#[trigger] n.points[i]).len() == W by {
        assert(v.points[i].len() == W);
    }
    assert forall|i: int, j: int| 0 <= i < H && 0 <= j < W implies 0 <= #[trigger] n.points[i][j]
        <= MAX_POINT by {
        assert(0 <= v.points[i][j] <= MAX_POINT);
    }
    assert forall|p: int| 0 <= p < 2 implies {
        &&& on_board((#[trigger] n.players[p]).y, n.players[p].x, H as int, W as int)
        &&& n.points[n.players[p].y][n.players[p].x] == 0
        &&& 0 <= n.players[p].score <= MAX_POINT * n.turn
    } by {}
}

/// On every cell of the board at least two moves are possible.
pub proof fn lemma_two_moves(v: SimultaneousView, player: int)
    requires
        v.wf(),
        0 <= player < 2,
    ensures
        v.legal(player).len() >= 2,
        forall|a: usize| v.legal(player).contains(a) <==> v.can_move(player, a as int),
        forall|i: int|
            0 <= i < v.legal(player).len() ==> v.can_move(player, #[trigger] v.legal(player)[i] as int),
{
    let allowed = |a: int| v.can_move(player, a);
    lemma_moves_below(allowed, 4);
    reveal_with_fuel(moves_below, 5);
    assert(on_board(v.players[player].y, v.players[player].x, H as int, W as int));
    assert forall|i: int| 0 <= i < v.legal(player).len() implies v.can_move(
        player,
        #[trigger] v.legal(player)[i] as int,
    ) by {
        assert(v.legal(player).contains(v.legal(player)[i]));
    }
}

impl View for SimultaneousMazeState {
    type V = SimultaneousView;

    closed spec fn view(&self) -> SimultaneousView {
        SimultaneousView {
            points: Seq::new(H as nat, |y: int| Seq::new(W as nat, |x: int| self.points_[y][x] as int)),
            turn: self.turn_ as int,
            players: seq![self.characters_[0]@, self.characters_[1]@],
        }
    }
}

impl SimultaneousMazeState {
    /// Validity of a state: that of what it stands for.
    pub open spec fn wf(&self) -> bool {
        self@.wf()
    }

    /// A fresh game drawn from `seed`: the characters at both ends of the
    /// middle row, 0 to 9 points on every other cell, the same on the left
    /// as on the right, nothing played yet.
    pub fn new(seed: usize) -> (state: Self)
        ensures
            state.wf(),
            state@.turn == 0,
            state@.players[0] == (Piece { y: H as int / 2, x: W as int / 2 - 1, score: 0 }),
            state@.players[1] == (Piece { y: H as int / 2, x: W as int / 2 + 1, score: 0 }),
    {
        let mut rng = seeded_rng(seed as u64);
        let first = Character::new((H / 2) as i32, (W / 2) as i32 - 1);
        let second = Character::new((H / 2) as i32, (W / 2) as i32 + 1);
        let mut points: [[i32; W]; H] = [[0; W]; H];
        let mut y: usize = 0;
        while y < H
            invariant
                y <= H,
                first@ == (Piece { y: 1, x: 0, score: 0 }),
                second@ == (Piece { y: 1, x: 2, score: 0 }),
                points[1][0] == 0,
                points[1][2] == 0,
                forall|i: int, j: int| 0 <= i < H && 0 <= j < W ==> 0 <= #[trigger] points[i][j] <= 9,
            decreases H - y,
        {
            let mut x: usize = 0;
            while x < W
                invariant
                    y < H,
                    x <= W,
                    first@ == (Piece { y: 1, x: 0, score: 0 }),
                    second@ == (Piece { y: 1, x: 2, score: 0 }),
                    points[1][0] == 0,
                    points[1][2] == 0,
                    forall|i: int, j: int|
                        0 <= i < H && 0 <= j < W ==> 0 <= #[trigger] points[i][j] <= 9,
                decreases W - x,
            {
                let point = random_i32(&mut rng, 0, 10);
                let on_first = first.y_ == y as i32 && first.x_ == x as i32;
                let on_second = second.y_ == y as i32 && second.x_ == x as i32;
                if !on_first && !on_second {
                    points[y][x] = point;
                    points[y][W - 1 - x] = point;
                }
                x = x + 1;
            }
            y = y + 1;
        }
        SimultaneousMazeState { points_: points, turn_: 0, characters_: [first, second] }
    }

    /// Whether the last turn was played.
    pub fn isDone(&self) -> (done: bool)
        ensures
            done == self@.done(),
    {
        self.turn_ == END_TURN
    }

    /// Number of turns played.
    pub fn turn(&self) -> (turn: usize)
        ensures
            turn == self@.turn,
    {
        self.turn_
    }

    /// Adds to `s` the score of `player_id`.
    fn push_score(&self, s: &mut String, player_id: usize)
        requires
            self@.wf(),
            player_id < 2,
        ensures
            final(s)@ == old(s)@ + self@.score_text(player_id as int),
    {
        assert(0 <= self@.players[player_id as int].score);
        s.append("score(");
        push_decimal(s, player_id as u64);
        s.append(")\t ");
        push_decimal(s, self.characters_[player_id].game_score_ as u64);
        s.append("\n");
        assert(s@ =~= old(s)@ + self@.score_text(player_id as int));
    }

    /// The position as text: the turn, the scores, and the board row by row.
    pub fn toString(&self) -> (s: String)
        requires
            self@.wf(),
        ensures
            s@ == self@.text(),
    {
        let mut s = String::new();
        s.append("turn:\t");
        push_decimal(&mut s, self.turn_ as u64);
        s.append("\n");
        self.push_score(&mut s, 0);
        self.push_score(&mut s, 1);
        let ghost cell = |y: int, x: int| self@.cell_text(y, x);
        let ghost head = s@;
        let mut h: usize = 0;
        while h < H
            invariant
                h <= H,
                self@.wf(),
                cell == (|y: int, x: int| self@.cell_text(y, x)),
                s@ == head + rows_text(cell, h as int, W as int),
            decreases H - h,
        {
            let ghost before = s@;
            let mut w: usize = 0;
            while w < W
                invariant
                    h < H,
                    w <= W,
                    self@.wf(),
                    cell == (|y: int, x: int| self@.cell_text(y, x)),
                    s@ == before + row_text(cell, h as int, w as int),
                decreases W - w,
            {
                let ghost row = s@;
                let first = self.characters_[0].y_ == h as i32 && self.characters_[0].x_ == w as i32;
                let second = self.characters_[1].y_ == h as i32 && self.characters_[1].x_ == w as i32;
                if first {
                    push_char(&mut s, 'A');
                }
                if second {
                    push_char(&mut s, 'B');
                }
                if !first && !second {
                    assert(self.points_[h as int][w as int] as int == self@.points[h as int][w as int]);
                    assert(0 <= self@.points[h as int][w as int] <= MAX_POINT);
                    push_point(&mut s, self.points_[h][w]);
                }
                assert(s@ =~= row + cell(h as int, w as int));
                assert(s@ =~= before + row_text(cell, h as int, w + 1));
                w = w + 1;
            }
            push_char(&mut s, '\n');
            assert(s@ =~= head + rows_text(cell, h + 1, W as int));
            h = h + 1;
        }
        s
    }

    /// The character of `player_id`.
    pub fn character(&self, player_id: usize) -> (c: Character)
        requires
            player_id < 2,
        ensures
            c@ == self@.players[player_id as int],
    {
        self.characters_[player_id]
    }

    /// Points on the cell `(y, x)`.
    pub fn pointAt(&self, y: usize, x: usize) -> (point: i32)
        requires
            y < H,
            x < W,
        ensures
            point == self@.points[y as int][x as int],
    {
        self.points_[y][x]
    }

    /// Plays `action0` for the first player and `action1` for the second.
    pub fn advance(&mut self, action0: usize, action1: usize)
        requires
            old(self).wf(),
            !old(self)@.done(),
            old(self)@.can_move(0, action0 as int),
            old(self)@.can_move(1, action1 as int),
        ensures
            final(self)@ == old(self)@.step(action0 as int, action1 as int),
            final(self).wf(),
    {
        proof {
            lemma_step_wf(self@, action0 as int, action1 as int);
            assert(on_board(self@.players[0].y, self@.players[0].x, H as int, W as int));
            assert(on_board(self@.players[1].y, self@.players[1].x, H as int, W as int));
            assert(self@.players[0].score <= MAX_POINT * self@.turn);
            assert(self@.players[1].score <= MAX_POINT * self@.turn);
        }
        let mut first = self.characters_[0];
        first.x_ = first.x_ + step_x(action0);
        first.y_ = first.y_ + step_y(action0);
        let point0 = self.points_[first.y_ as usize][first.x_ as usize];
        assert(point0 as int == old(self)@.points[first.y_ as int][first.x_ as int]);
        if point0 > 0 {
            first.game_score_ = first.game_score_ + point0;
        }
        let mut second = self.characters_[1];
        second.x_ = second.x_ + step_x(action1);
        second.y_ = second.y_ + step_y(action1);
        let point1 = self.points_[second.y_ as usize][second.x_ as usize];
        assert(point1 as int == old(self)@.points[second.y_ as int][second.x_ as int]);
        if point1 > 0 {
            second.game_score_ = second.game_score_ + point1;
        }
        self.points_[first.y_ as usize][first.x_ as usize] = 0;
        self.points_[second.y_ as usize][second.x_ as usize] = 0;
        self.characters_ = [first, second];
        self.turn_ = self.turn_ + 1;
        proof {
            let n = old(self)@.step(action0 as int, action1 as int);
            assert(self@.points =~~= n.points);
            assert(self@.players =~= n.players);
        }
    }

    /// The possible moves of a player, in ascending order.
    pub fn legalActions(&self, player_id: usize) -> (actions: Vec<usize>)
        requires
            self.wf(),
            player_id < 2,
        ensures
            actions@ == self@.legal(player_id as int),
    {
        let mut actions: Vec<usize> = Vec::new();
        let ghost allowed = |a: int| self@.can_move(player_id as int, a);
        let character = self.characters_[player_id];
        assert(character@ == self@.players[player_id as int]);
        assert(on_board(character@.y, character@.x, H as int, W as int));
        let mut action: usize = 0;
        while action < 4
            invariant
                action <= 4,
                self.wf(),
                player_id < 2,
                character@ == self@.players[player_id as int],
                on_board(character@.y, character@.x, H as int, W as int),
                allowed == (|a: int| self@.can_move(player_id as int, a)),
                actions@ == moves_below(allowed, action as int),
            decreases 4 - action,
        {
            let ty = character.y_ + step_y(action);
            let tx = character.x_ + step_x(action);
            if ty >= 0 && ty < H as i32 && tx >= 0 && tx < W as i32 {
                actions.push(action);
            }
            action = action + 1;
        }
        actions
    }

    /// How the game stands; `NONE` while it goes on.
    pub fn getWinningStatus(&self) -> (status: WinningStatus)
        ensures
            status == self@.status(),
    {
        if self.isDone() {
            if self.characters_[0].game_score_ > self.characters_[1].game_score_ {
                WinningStatus::FISRT
            } else if self.characters_[0].game_score_ < self.characters_[1].game_score_ {
                WinningStatus::SECOND
            } else {
                WinningStatus::DRAW
            }
        } else {
            WinningStatus::NONE
        }
    }

    /// What the game is worth to the first player, in half points: 2 where
    /// that player has won, 0 where it has lost, 1 for a draw and for a game
    /// that goes on.
    pub fn getFirstPlayerScoreForWinRate(&self) -> (half_points: u64)
        ensures
            half_points == (if self@.done() {
                self@.worth()
            } else {
                1
            }),
    {
        match self.getWinningStatus() {
            WinningStatus::FISRT => 2,
            WinningStatus::SECOND => 0,
            _ => 1,
        }
    }

    /// The lead of the first player over the second.
    pub fn getScore(&self) -> (score: i32)
        requires
            self.wf(),
        ensures
            score == self@.score(),
    {
        proof {
            assert(0 <= self@.players[0].score <= MAX_POINT * self@.turn);
            assert(0 <= self@.players[1].score <= MAX_POINT * self@.turn);
        }
        self.characters_[0].game_score_ - self.characters_[1].game_score_
    }
}

/// A possible move of `player_id`, picked by a number drawn from `rng`.
pub fn randomAction(state: &SimultaneousMazeState, player_id: usize, rng: &mut StdRng) -> (action:
    usize)
    requires
        state.wf(),
        player_id < 2,
    ensures
        state@.can_move(player_id as int, action as int),
{
    let legal_actions = state.legalActions(player_id);
    proof {
        lemma_two_moves(state@, player_id as int);
    }
    let id = random_index(rng, legal_actions.len());
    legal_actions[id]
}

/// Plays random moves of both players from `state` to the end of the game
/// and gives what the game is then worth to the first player, in half
/// points: 2 for a win, 0 for a loss, 1 for a draw.
pub fn playout(state: &mut SimultaneousMazeState, rng: &mut StdRng) -> (value: u64)
    requires
        old(state).wf(),
    ensures
        final(state).wf(),
        final(state)@.done(),
        value == final(state)@.worth(),
        value <= 2,
    decreases END_TURN - old(state)@.turn,
{
    match state.getWinningStatus() {
        WinningStatus::FISRT => 2,
        WinningStatus::SECOND => 0,
        WinningStatus::DRAW => 1,
        WinningStatus::NONE => {
            let action0 = randomAction(state, 0, rng);
            let action1 = randomAction(state, 1, rng);
            state.advance(action0, action1);
            playout(state, rng)
        },
    }
}

/// For every possible move of `player_id`, the half points that
/// `playout_number` random playouts after it were worth to that player, the
/// other player's move drawn anew before each.
pub fn primitiveMontecarloTally(
    state: &SimultaneousMazeState,
    player_id: usize,
    playout_number: usize,
    rng: &mut StdRng,
) -> (values: Vec<u64>)
    requires
        state.wf(),
        !state@.done(),
        player_id < 2,
        2 * playout_number <= u64::MAX,
    ensures
        values.len() == state@.legal(player_id as int).len(),
        forall|i: int| 0 <= i < values.len() ==> #[trigger] values[i] <= 2 * playout_number,
{
    let my_legal_actions = state.legalActions(player_id);
    let opp_legal_actions = state.legalActions((player_id + 1) % 2);
    proof {
        lemma_two_moves(state@, player_id as int);
        lemma_two_moves(state@, (player_id + 1) % 2);
    }
    let mut values: Vec<u64> = Vec::new();
    let mut i: usize = 0;
    while i < my_legal_actions.len()
        invariant
            i <= my_legal_actions.len(),
            state.wf(),
            !state@.done(),
            player_id < 2,
            2 * playout_number <= u64::MAX,
            my_legal_actions@ == state@.legal(player_id as int),
            opp_legal_actions@ == state@.legal((player_id + 1) % 2),
            opp_legal_actions.len() >= 2,
            forall|k: int|
                0 <= k < my_legal_actions.len() ==> state@.can_move(
                    player_id as int,
                    #[trigger] my_legal_actions[k] as int,
                ),
            forall|k: int|
                0 <= k < opp_legal_actions.len() ==> state@.can_move(
                    (player_id + 1) % 2,
                    #[trigger] opp_legal_actions[k] as int,
                ),
            values.len() == i,
            forall|k: int| 0 <= k < i ==> #[trigger] values[k] <= 2 * playout_number,
        decreases my_legal_actions.len() - i,
    {
        let mut value: u64 = 0;
        let mut j: usize = 0;
        while j < playout_number
            invariant
                j <= playout_number,
                i < my_legal_actions.len(),
                state.wf(),
                !state@.done(),
                player_id < 2,
                2 * playout_number <= u64::MAX,
                opp_legal_actions.len() >= 2,
                state@.can_move(player_id as int, my_legal_actions[i as int] as int),
                forall|k: int|
                    0 <= k < opp_legal_actions.len() ==> state@.can_move(
                        (player_id + 1) % 2,
                        #[trigger] opp_legal_actions[k] as int,
                    ),
                value <= 2 * j,
            decreases playout_number - j,
        {
            let mut next_state = state.clone();
            let opp_action = opp_legal_actions[random_index(rng, opp_legal_actions.len())];
            if player_id == 0 {
                next_state.advance(my_legal_actions[i], opp_action);
            } else {
                next_state.advance(opp_action, my_legal_actions[i]);
            }
            let player0_win_rate = playout(&mut next_state, rng);
            let win_rate = if player_id == 0 {
                player0_win_rate
            } else {
                2 - player0_win_rate
            };
            value = value + win_rate;
            j = j + 1;
        }
        values.push(value);
        i = i + 1;
    }
    values
}

/// Primitive Monte Carlo search for `player_id`: plays `playout_number`
/// random playouts after each of its possible moves and gives the move
/// whose playouts were worth most to that player; of several such moves,
/// the first.
pub fn primitiveMontecarloAction(
    state: &SimultaneousMazeState,
    player_id: usize,
    playout_number: usize,
    rng: &mut StdRng,
) -> (action: usize)
    requires
        state.wf(),
        !state@.done(),
        player_id < 2,
        2 * playout_number <= u64::MAX,
    ensures
        state@.can_move(player_id as int, action as int),
        playout_number == 0 ==> action == state@.legal(player_id as int)[0],
{
    let my_legal_actions = state.legalActions(player_id);
    proof {
        lemma_two_moves(state@, player_id as int);
    }
    let values = primitiveMontecarloTally(state, player_id, playout_number, rng);
    let best = firstMaxCount(&values);
    proof {
        if playout_number == 0 {
            lemma_first_max(counts(values@));
            assert(is_first_max(counts(values@), 0)) by {
                assert forall|j: int| 0 <= j < values.len() implies #[trigger] counts(values@)[j]
                    == 0 by {
                    assert(values[j] <= 2 * playout_number);
                }
            }
        }
    }
    my_legal_actions[best]
}

/// The simultaneous maze played as a game of alternating moves, as one of
/// the players sees it: that player moves first, then the other, and two
/// moves make a turn.
#[derive(Debug, Clone, Copy)]
pub struct AlternateMazeState {
    game: alternate::AlternateMazeState,
}

impl View for AlternateMazeState {
    type V = AlternateView;

    closed spec fn view(&self) -> AlternateView {
        self.game@
    }
}

impl AlternateMazeState {
    /// Validity of a state: that of what it stands for.
    pub open spec fn wf(&self) -> bool {
        self@.wf()
    }

    /// The position `base_state` as `player_id` sees it.
    pub fn new(base_state: &SimultaneousMazeState, player_id: usize) -> (state: Self)
        requires
            base_state.wf(),
            player_id < 2,
        ensures
            state@ == base_state@.alternating(player_id as int),
            state.wf(),
    {
        proof {
            assert(0 <= base_state@.players[0].score <= MAX_POINT * base_state@.turn);
            assert(0 <= base_state@.players[1].score <= MAX_POINT * base_state@.turn);
            assert(on_board(base_state@.players[0].y, base_state@.players[0].x, H as int, W as int));
            assert(on_board(base_state@.players[1].y, base_state@.players[1].x, H as int, W as int));
        }
        let game = if player_id == 0 {
            alternate::AlternateMazeState::assemble(
                base_state.points_,
                base_state.turn_ * 2,
                END_TURN * 2,
                base_state.characters_[0],
                base_state.characters_[1],
            )
        } else {
            alternate::AlternateMazeState::assemble(
                base_state.points_,
                base_state.turn_ * 2,
                END_TURN * 2,
                base_state.characters_[1],
                base_state.characters_[0],
            )
        };
        proof {
            assert(game@.points =~~= base_state@.points);
        }
        AlternateMazeState { game }
    }

    /// Whether the last move was played.
    pub fn isDone(&self) -> (done: bool)
        ensures
            done == self@.done(),
    {
        self.game.isDone()
    }

    /// Plays `action` for the character to move.
    pub fn advance(&mut self, action: usize)
        requires
            old(self).wf(),
            !old(self)@.done(),
            old(self)@.can_move(action as int),
        ensures
            final(self)@ == old(self)@.step(action as int),
            final(self).wf(),
    {
        self.game.advance(action);
    }

    /// The possible moves of the character to move, in ascending order.
    pub fn legalActions(&self) -> (actions: Vec<usize>)
        requires
            self.wf(),
        ensures
            actions@ == self@.legal(),
    {
        self.game.legalActions()
    }

    /// How the game stands for the player to move: `FISRT` where that
    /// player has won, `SECOND` where the other has; `NONE` while it goes on.
    pub fn getWinningStatus(&self) -> (status: WinningStatus)
        ensures
            status == match self@.status() {
                alternate::WinningStatus::WIN => WinningStatus::FISRT,
                alternate::WinningStatus::LOSE => WinningStatus::SECOND,
                alternate::WinningStatus::DRAW => WinningStatus::DRAW,
                alternate::WinningStatus::NONE => WinningStatus::NONE,
            },
    {
        match self.game.getWinningStatus() {
            alternate::WinningStatus::WIN => WinningStatus::FISRT,
            alternate::WinningStatus::LOSE => WinningStatus::SECOND,
            alternate::WinningStatus::DRAW => WinningStatus::DRAW,
            alternate::WinningStatus::NONE => WinningStatus::NONE,
        }
    }
}

/// Monte Carlo tree search for `player_id` on the simultaneous maze played
/// as a game of alternating moves: gives the move of that player whose child
/// the most of `playout_number` playouts went into; of several such moves,
/// the first.
pub fn mctsAction<F: Fn(u64, u64, u64) -> u64>(
    base_state: &SimultaneousMazeState,
    player_id: usize,
    playout_number: usize,
    rng: &mut StdRng,
    ucb1: &F,
) -> (action: usize)
    requires
        base_state.wf(),
        !base_state@.done(),
        player_id < 2,
        2 * playout_number <= u64::MAX,
        scorer_ok(ucb1),
    ensures
        base_state@.can_move(player_id as int, action as int),
{
    let state = AlternateMazeState::new(base_state, player_id);
    crate::montecarlo::mctsAction(&state.game, playout_number, rng, ucb1)
}

} // verus!
