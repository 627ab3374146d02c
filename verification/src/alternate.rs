//! The two-player maze with alternating moves: two characters walk one
//! board in turn, each collecting the points of the cells it enters, and the
//! game is won by the one that has collected more when the turns are up.
use crate::character::{Character, Piece};
use crate::choice::{first_max, is_first_max, lemma_first_max, lemma_first_max_push};
use crate::grid::{dx, dy, lemma_moves_below, moves_below, on_board, step_x, step_y, ACTION_COUNT};
use crate::random::{random_i32, random_index, seeded_rng};
use crate::text::{decimal, point_text, push_char, push_decimal, push_point, row_text, rows_text};
use rand::rngs::StdRng;
use vstd::prelude::*;
use vstd::string::StringExecFns;

verus! {

/// Rows of the board.
pub const H: usize = 3;

/// Columns of the board.
pub const W: usize = 3;

/// Number of moves of a game, both players counted.
pub const END_TURN: usize = 4;

/// Largest number of points a cell holds.
pub const MAX_POINT: i32 = 9;

/// Bound of the scores that minimax compares: no game reaches it.
pub const INF: i32 = 100000000;

/// How a game stands for the player to move.
#[derive(Debug, Clone, Copy, PartialEq, Eq, Structural)]
pub enum WinningStatus {
    WIN,
    LOSE,
    DRAW,
    NONE,
}

/// A position of the alternating maze. The character to move comes first.
#[derive(Debug, Clone, Copy)]
pub struct AlternateMazeState {
    points_: [[i32; W]; H],
    turn_: usize,
    end_turn_: usize,
    characters_: [Character; 2],
}

/// What an `AlternateMazeState` stands for.
pub struct AlternateView {
    /// Points by row and column.
    pub points: Seq<Seq<int>>,
    /// Moves played, both players counted.
    pub turn: int,
    /// Moves after which the game is over.
    pub end_turn: int,
    /// The character to move.
    pub mover: Piece,
    /// The character that moved last.
    pub waiter: Piece,
}

impl AlternateView {
    /// The board has its size, every cell holds 0 to 9 points, both
    /// characters stand on emptied cells of the board, the game lasts one or
    /// two moves per player and turn, and no more than 9 points were
    /// collected per move played.
    pub open spec fn wf(self) -> bool {
        &&& self.points.len() == H
        &&& forall|y: int| 0 <= y < H ==> (#[trigger] self.points[y]).len() == W
        &&& forall|y: int, x: int|
            0 <= y < H && 0 <= x < W ==> 0 <= #[trigger] self.points[y][x] <= MAX_POINT
        &&& (self.end_turn == END_TURN || self.end_turn == 2 * END_TURN)
        &&& 0 <= self.turn <= self.end_turn
        &&& on_board(self.mover.y, self.mover.x, H as int, W as int)
        &&& on_board(self.waiter.y, self.waiter.x, H as int, W as int)
        &&& self.points[self.mover.y][self.mover.x] == 0
        &&& self.points[self.waiter.y][self.waiter.x] == 0
        &&& 0 <= self.mover.score
        &&& 0 <= self.waiter.score
        &&& self.mover.score + self.waiter.score <= MAX_POINT * self.turn
    }

    /// The game is over when the last move was played.
    pub open spec fn done(self) -> bool {
        self.turn == self.end_turn
    }

    /// Whether the player that began the game is to move.
    pub open spec fn first_to_move(self) -> bool {
        self.turn % 2 == 0
    }

    /// A move is possible when it keeps the character to move on the board.
    pub open spec fn can_move(self, action: int) -> bool {
        0 <= action < ACTION_COUNT && on_board(
            self.mover.y + dy(action),
            self.mover.x + dx(action),
            H as int,
            W as int,
        )
    }

    /// The possible moves, in ascending order.
    pub open spec fn legal(self) -> Seq<usize> {
        moves_below(|a: int| self.can_move(a), ACTION_COUNT as int)
    }

    /// The points that `action` collects.
    pub open spec fn reward(self, action: int) -> int {
        self.points[self.mover.y + dy(action)][self.mover.x + dx(action)]
    }

    /// The position after `action`: the character to move goes, collects the
    /// points of the cell it enters and empties it; then the other is to move.
    pub open spec fn step(self, action: int) -> AlternateView {
        let y = self.mover.y + dy(action);
        let x = self.mover.x + dx(action);
        AlternateView {
            points: self.points.update(y, self.points[y].update(x, 0)),
            turn: self.turn + 1,
            mover: self.waiter,
            waiter: Piece { y, x, score: self.mover.score + self.points[y][x] },
            ..self
        }
    }

    /// The lead of the player to move over the other.
    pub open spec fn score(self) -> int {
        self.mover.score - self.waiter.score
    }

    /// The lead of the player that began the game over the other.
    pub open spec fn first_player_lead(self) -> int {
        if self.first_to_move() {
            self.score()
        } else {
            -self.score()
        }
    }

    /// How the game stands for the player to move; `NONE` while it goes on.
    pub open spec fn status(self) -> WinningStatus {
        if !self.done() {
            WinningStatus::NONE
        } else if self.mover.score > self.waiter.score {
            WinningStatus::WIN
        } else if self.mover.score < self.waiter.score {
            WinningStatus::LOSE
        } else {
            WinningStatus::DRAW
        }
    }

    /// The character of the player that began the game (`player` 0) or of
    /// the other (1).
    pub open spec fn piece_of(self, player: int) -> Piece {
        if self.first_to_move() == (player == 0) {
            self.mover
        } else {
            self.waiter
        }
    }

    /// What the score and the place of `player` are shown as.
    pub open spec fn score_text(self, player: int) -> Seq<char> {
        "score("@ + decimal(player as nat) + ")\t "@ + decimal(self.piece_of(player).score as nat)
            + "\ty:"@ + decimal(self.piece_of(player).y as nat) + " x:"@ + decimal(
            self.piece_of(player).x as nat,
        ) + "\n"@
    }

    /// The letter of the character to move: `A` for the player that began
    /// the game, `B` for the other.
    pub open spec fn mover_letter(self) -> char {
        if self.first_to_move() {
            'A'
        } else {
            'B'
        }
    }

    /// The letter of the character that moved last.
    pub open spec fn waiter_letter(self) -> char {
        if self.first_to_move() {
            'B'
        } else {
            'A'
        }
    }

    /// What the cell `(y, x)` is shown as: the letters of the characters on
    /// it, the one to move first; else the digit of its points, or a dot
    /// where it is empty.
    pub open spec fn cell_text(self, y: int, x: int) -> Seq<char> {
        let first = self.mover.y == y && self.mover.x == x;
        let second = self.waiter.y == y && self.waiter.x == x;
        if first && second {
            seq![self.mover_letter(), self.waiter_letter()]
        } else if first {
            seq![self.mover_letter()]
        } else if second {
            seq![self.waiter_letter()]
        } else {
            point_text(self.points[y][x])
        }
    }

    /// What the position is shown as: the turn, the scores and places of
    /// both players, and the board row by row.
    pub open spec fn text(self) -> Seq<char> {
        "turn:\t"@ + decimal(self.turn as nat) + "\n"@ + self.score_text(0) + self.score_text(1)
            + rows_text(|y: int, x: int| self.cell_text(y, x), H as int, W as int)
    }

    /// The worth of the game to the player to move in half points: 2 for a
    /// lead, 0 for a deficit, 1 for equal scores.
    pub open spec fn worth(self) -> int {
        if self.mover.score > self.waiter.score {
            2
        } else if self.mover.score < self.waiter.score {
            0
        } else {
            1
        }
    }
}

/// A step from a valid position that is not over, by a possible move, gives a
/// valid position.
pub proof fn lemma_step_wf(v: AlternateView, action: int)
    requires
        v.wf(),
        !v.done(),
        v.can_move(action),
    ensures
        v.step(action).wf(),
        0 <= v.reward(action) <= MAX_POINT,
{
    let y = v.mover.y + dy(action);
    let x = v.mover.x + dx(action);
    let n = v.step(action);
    assert(0 <= v.points[y][x] <= MAX_POINT);
    assert forall|i: int| 0 <= i < H implies (#[trigger] n.points[i]).len() == W by {
        assert(v.points[i].len() == W);
    }
    assert forall|i: int, j: int| 0 <= i < H && 0 <= j < W implies 0 <= #[trigger] n.points[i][j]
        <= MAX_POINT by {
        assert(0 <= v.points[i][j] <= MAX_POINT);
    }
}

/// On every cell of the board at least two moves are possible.
pub proof fn lemma_two_moves(v: AlternateView)
    requires
        v.wf(),
    ensures
        v.legal().len() >= 2,
        forall|a: usize| v.legal().contains(a) <==> v.can_move(a as int),
        forall|i: int| 0 <= i < v.legal().len() ==> v.can_move(#[trigger] v.legal()[i] as int),
{
    let allowed = |a: int| v.can_move(a);
    lemma_moves_below(allowed, 4);
    reveal_with_fuel(moves_below, 5);
    assert forall|i: int| 0 <= i < v.legal().len() implies v.can_move(
        #[trigger] v.legal()[i] as int,
    ) by {
        assert(v.legal().contains(v.legal()[i]));
    }
}

impl View for AlternateMazeState {
    type V = AlternateView;

    closed spec fn view(&self) -> AlternateView {
        AlternateView {
            points: Seq::new(H as nat, |y: int| Seq::new(W as nat, |x: int| self.points_[y][x] as int)),
            turn: self.turn_ as int,
            end_turn: self.end_turn_ as int,
            mover: self.characters_[0]@,
            waiter: self.characters_[1]@,
        }
    }
}

impl AlternateMazeState {
    /// Validity of a state: that of what it stands for.
    pub open spec fn wf(&self) -> bool {
        self@.wf()
    }

    /// A fresh game drawn from `seed`: the characters at both ends of the
    /// middle row, 0 to 9 points on every other cell, nothing played yet.
    pub fn new(seed: usize) -> (state: Self)
        ensures
            state.wf(),
            state@.turn == 0,
            state@.end_turn == END_TURN,
            state@.mover == (Piece { y: H as int / 2, x: W as int / 2 - 1, score: 0 }),
            state@.waiter == (Piece { y: H as int / 2, x: W as int / 2 + 1, score: 0 }),
    {
        let mut rng = seeded_rng(seed as u64);
        let first = Character::new((H / 2) as i32, (W / 2) as i32 - 1);
        let second = Character::new((H / 2) as i32, (W / 2) as i32 + 1);
        let mut points: [[i32; W]; H] = [[0; W]; H];
        let mut y: usize = 0;
        while y < H
            invariant
                y <= H,
                first@ == (Piece { y: 1, x: 0, score: 0 }),
                second@ == (Piece { y: 1, x: 2, score: 0 }),
                points[1][0] == 0,
                points[1][2] == 0,
                forall|i: int, j: int| 0 <= i < H && 0 <= j < W ==> 0 <= #[trigger] points[i][j] <= 9,
            decreases H - y,
        {
            let mut x: usize = 0;
            while x < W
                invariant
                    y < H,
                    x <= W,
                    first@ == (Piece { y: 1, x: 0, score: 0 }),
                    second@ == (Piece { y: 1, x: 2, score: 0 }),
                    points[1][0] == 0,
                    points[1][2] == 0,
                    forall|i: int, j: int|
                        0 <= i < H && 0 <= j < W ==> 0 <= #[trigger] points[i][j] <= 9,
                decreases W - x,
            {
                let point = random_i32(&mut rng, 0, 10);
                let on_first = first.y_ == y as i32 && first.x_ == x as i32;
                let on_second = second.y_ == y as i32 && second.x_ == x as i32;
                if !on_first && !on_second {
                    points[y][x] = point;
                }
                x = x + 1;
            }
            y = y + 1;
        }
        AlternateMazeState {
            points_: points,
            turn_: 0,
            end_turn_: END_TURN,
            characters_: [first, second],
        }
    }

    /// The position with the given board and characters, the first of them
    /// to move, after `turn` of `end_turn` moves.
    pub(crate) fn assemble(
        points: [[i32; W]; H],
        turn: usize,
        end_turn: usize,
        mover: Character,
        waiter: Character,
    ) -> (state: Self)
        ensures
            state@ == (AlternateView {
                points: Seq::new(H as nat, |y: int| Seq::new(W as nat, |x: int| points[y][x] as int)),
                turn: turn as int,
                end_turn: end_turn as int,
                mover: mover@,
                waiter: waiter@,
            }),
    {
        AlternateMazeState { points_: points, turn_: turn, end_turn_: end_turn, characters_: [mover, waiter] }
    }

    /// Number of moves played.
    pub fn turn(&self) -> (turn: usize)
        ensures
            turn == self@.turn,
    {
        self.turn_
    }

    /// The character to move (`index` 0) or the one that moved last (1).
    pub fn character(&self, index: usize) -> (c: Character)
        requires
            index < 2,
        ensures
            c@ == if index == 0 {
                self@.mover
            } else {
                self@.waiter
            },
    {
        self.characters_[index]
    }

    /// Points on the cell `(y, x)`.
    pub fn pointAt(&self, y: usize, x: usize) -> (point: i32)
        requires
            y < H,
            x < W,
        ensures
            point == self@.points[y as int][x as int],
    {
        self.points_[y][x]
    }

    /// Adds to `s` the score and the place of `player_id`.
    fn push_score(&self, s: &mut String, player_id: usize)
        requires
            self@.wf(),
            player_id < 2,
        ensures
            final(s)@ == old(s)@ + self@.score_text(player_id as int),
    {
        let actual_player_id = if self.turn_ % 2 == 1 {
            (player_id + 1) % 2
        } else {
            player_id
        };
        let chara = self.characters_[actual_player_id];
        assert(chara@ == self@.piece_of(player_id as int));
        s.append("score(");
        push_decimal(s, player_id as u64);
        s.append(")\t ");
        push_decimal(s, chara.game_score_ as u64);
        s.append("\ty:");
        push_decimal(s, chara.y_ as u64);
        s.append(" x:");
        push_decimal(s, chara.x_ as u64);
        s.append("\n");
        assert(s@ =~= old(s)@ + self@.score_text(player_id as int));
    }

    /// The position as text: the turn, the scores and places of both
    /// players, and the board row by row.
    pub fn toString(&self) -> (s: String)
        requires
            self@.wf(),
        ensures
            s@ == self@.text(),
    {
        let mut s = String::new();
        s.append("turn:\t");
        push_decimal(&mut s, self.turn_ as u64);
        s.append("\n");
        self.push_score(&mut s, 0);
        self.push_score(&mut s, 1);
        let ghost cell = |y: int, x: int| self@.cell_text(y, x);
        let ghost head = s@;
        let mut h: usize = 0;
        while h < H
            invariant
                h <= H,
                self@.wf(),
                cell == (|y: int, x: int| self@.cell_text(y, x)),
                s@ == head + rows_text(cell, h as int, W as int),
            decreases H - h,
        {
            let ghost before = s@;
            let mut w: usize = 0;
            while w < W
                invariant
                    h < H,
                    w <= W,
                    self@.wf(),
                    cell == (|y: int, x: int| self@.cell_text(y, x)),
                    s@ == before + row_text(cell, h as int, w as int),
                decreases W - w,
            {
                let ghost row = s@;
                let first = self.characters_[0].y_ == h as i32 && self.characters_[0].x_ == w as i32;
                let second = self.characters_[1].y_ == h as i32 && self.characters_[1].x_ == w as i32;
                let even = self.turn_ % 2 == 0;
                if first {
                    push_char(&mut s, if even {
                        'A'
                    } else {
                        'B'
                    });
                }
                if second {
                    push_char(&mut s, if even {
                        'B'
                    } else {
                        'A'
                    });
                }
                if !first && !second {
                    assert(self.points_[h as int][w as int] as int == self@.points[h as int][w as int]);
                    assert(0 <= self@.points[h as int][w as int] <= MAX_POINT);
                    push_point(&mut s, self.points_[h][w]);
                }
                assert(s@ =~= row + cell(h as int, w as int));
                assert(s@ =~= before + row_text(cell, h as int, w + 1));
                w = w + 1;
            }
            push_char(&mut s, '\n');
            assert(s@ =~= head + rows_text(cell, h + 1, W as int));
            h = h + 1;
        }
        s
    }

    /// Whether the player that began the game is to move.
    pub fn isFirstPlayer(&self) -> (first: bool)
        ensures
            first == self@.first_to_move(),
    {
        self.turn_ % 2 == 0
    }

    /// Whether the last move was played.
    pub fn isDone(&self) -> (done: bool)
        ensures
            done == self@.done(),
    {
        self.turn_ == self.end_turn_
    }

    /// Plays `action` for the character to move.
    pub fn advance(&mut self, action: usize)
        requires
            old(self).wf(),
            !old(self)@.done(),
            old(self)@.can_move(action as int),
        ensures
            final(self)@ == old(self)@.step(action as int),
            final(self).wf(),
    {
        proof {
            lemma_step_wf(self@, action as int);
        }
        let mut character = self.characters_[0];
        character.x_ = character.x_ + step_x(action);
        character.y_ = character.y_ + step_y(action);
        let y = character.y_ as usize;
        let x = character.x_ as usize;
        let point = self.points_[y][x];
        assert(point as int == old(self)@.points[y as int][x as int]);
        if point > 0 {
            character.game_score_ = character.game_score_ + point;
            self.points_[y][x] = 0;
        }
        self.turn_ = self.turn_ + 1;
        self.characters_ = [self.characters_[1], character];
        proof {
            let n = old(self)@.step(action as int);
            assert(self@.points =~~= n.points);
        }
    }

    /// The possible moves of the character to move, in ascending order.
    pub fn legalActions(&self) -> (actions: Vec<usize>)
        requires
            self.wf(),
        ensures
            actions@ == self@.legal(),
    {
        let mut actions: Vec<usize> = Vec::new();
        let ghost allowed = |a: int| self@.can_move(a);
        let character = self.characters_[0];
        let mut action: usize = 0;
        while action < 4
            invariant
                action <= 4,
                self.wf(),
                character == self.characters_[0],
                allowed == (|a: int| self@.can_move(a)),
                actions@ == moves_below(allowed, action as int),
            decreases 4 - action,
        {
            let ty = character.y_ + step_y(action);
            let tx = character.x_ + step_x(action);
            if ty >= 0 && ty < H as i32 && tx >= 0 && tx < W as i32 {
                actions.push(action);
            }
            action = action + 1;
        }
        actions
    }

    /// How the game stands for the player to move; `NONE` while it goes on.
    pub fn getWinningStatus(&self) -> (status: WinningStatus)
        ensures
            status == self@.status(),
    {
        if self.isDone() {
            if self.characters_[0].game_score_ > self.characters_[1].game_score_ {
                WinningStatus::WIN
            } else if self.characters_[0].game_score_ < self.characters_[1].game_score_ {
                WinningStatus::LOSE
            } else {
                WinningStatus::DRAW
            }
        } else {
            WinningStatus::NONE
        }
    }

    /// The lead of the player to move over the other.
    pub fn getScore(&self) -> (score: i32)
        requires
            self.wf(),
        ensures
            score == self@.score(),
    {
        self.characters_[0].game_score_ - self.characters_[1].game_score_
    }

    /// What the game is worth to the player that began it, in half points:
    /// 2 where that player has won, 0 where it has lost, 1 for a draw and
    /// for a game that goes on.
    pub fn getFirstPlayerScoreForWinRate(&self) -> (half_points: u64)
        ensures
            half_points == (if !self@.done() {
                1
            } else if self@.first_to_move() {
                self@.worth()
            } else {
                2 - self@.worth()
            }),
    {
        match self.getWinningStatus() {
            WinningStatus::WIN => {
                if self.isFirstPlayer() {
                    2
                } else {
                    0
                }
            },
            WinningStatus::LOSE => {
                if self.isFirstPlayer() {
                    0
                } else {
                    2
                }
            },
            _ => 1,
        }
    }
}

/// Whether `moves` can be played from `v` one after the other.
pub open spec fn playable(v: AlternateView, moves: Seq<usize>) -> bool
    decreases moves.len(),
{
    moves.len() == 0 || (!v.done() && v.can_move(moves[0] as int) && playable(
        v.step(moves[0] as int),
        moves.drop_first(),
    ))
}

/// The position after `moves` were played from `v`.
pub open spec fn played(v: AlternateView, moves: Seq<usize>) -> AlternateView
    decreases moves.len(),
{
    if moves.len() == 0 {
        v
    } else {
        played(v.step(moves[0] as int), moves.drop_first())
    }
}

/// The points that the player who began the game (`first`), or the other,
/// collects while `moves` are played from `v`.
pub open spec fn collected(v: AlternateView, moves: Seq<usize>, first: bool) -> int
    decreases moves.len(),
{
    if moves.len() == 0 {
        0
    } else {
        (if v.first_to_move() == first {
            v.reward(moves[0] as int)
        } else {
            0
        }) + collected(v.step(moves[0] as int), moves.drop_first(), first)
    }
}

/// The game is zero-sum: over any moves played, the lead of the player that
/// began the game grows by what that player collects and shrinks by what the
/// other collects. The score of a position is this lead, seen from the
/// player to move.
pub proof fn lemma_zero_sum(v: AlternateView, moves: Seq<usize>)
    requires
        v.wf(),
        playable(v, moves),
    ensures
        played(v, moves).wf(),
        played(v, moves).turn == v.turn + moves.len(),
        played(v, moves).first_player_lead() == v.first_player_lead() + collected(v, moves, true)
            - collected(v, moves, false),
        played(v, moves).score() == if played(v, moves).first_to_move() {
            played(v, moves).first_player_lead()
        } else {
            -played(v, moves).first_player_lead()
        },
    decreases moves.len(),
{
    if moves.len() > 0 {
        lemma_step_wf(v, moves[0] as int);
        lemma_zero_sum(v.step(moves[0] as int), moves.drop_first());
    }
}

/// The value of `v` to the player to move when both players play their best
/// for `depth` more moves: the score of `v` where the game is over, no
/// depth is left or no move is possible, else the best of the values that
/// the moves lead to, each seen from the other side.
pub open spec fn negamax(v: AlternateView, depth: nat) -> int
    decreases depth, v.legal().len() + 1,
{
    if v.done() || depth == 0 || v.legal().len() == 0 {
        v.score()
    } else {
        best_reply(v, depth, v.legal().len() as int)
    }
}

/// The best value among the first `n` possible moves of `v` with `depth`
/// moves to go; `-INF` where there is no move or no depth.
pub open spec fn best_reply(v: AlternateView, depth: nat, n: int) -> int
    decreases depth, n,
{
    if n <= 0 || depth == 0 {
        -INF
    } else {
        let before = best_reply(v, depth, n - 1);
        let value = -negamax(v.step(v.legal()[n - 1] as int), (depth - 1) as nat);
        if value > before {
            value
        } else {
            before
        }
    }
}

/// The values that the possible moves of `v` lead to, in their order.
pub open spec fn replies(v: AlternateView, depth: nat) -> Seq<int> {
    Seq::new(v.legal().len(), |i: int| -negamax(v.step(v.legal()[i] as int), (depth - 1) as nat))
}

/// The value of a valid position lies within 9 points per move of the game,
/// and is the greatest of the values its moves lead to.
pub proof fn lemma_negamax(v: AlternateView, depth: nat)
    requires
        v.wf(),
    ensures
        -MAX_POINT * v.end_turn <= negamax(v, depth) <= MAX_POINT * v.end_turn,
        !v.done() && depth > 0 ==> negamax(v, depth) == replies(v, depth)[first_max(
            replies(v, depth),
        )],
    decreases depth, v.legal().len() + 1,
{
    lemma_two_moves(v);
    if !v.done() && depth > 0 {
        lemma_best_reply(v, depth, v.legal().len() as int);
        assert(replies(v, depth).take(v.legal().len() as int) =~= replies(v, depth));
    }
}

/// The best value among the first `n` moves is the first maximum of their
/// values, and lies within 9 points per move of the game.
pub proof fn lemma_best_reply(v: AlternateView, depth: nat, n: int)
    requires
        v.wf(),
        !v.done(),
        depth > 0,
        1 <= n <= v.legal().len(),
    ensures
        -MAX_POINT * v.end_turn <= best_reply(v, depth, n) <= MAX_POINT * v.end_turn,
        best_reply(v, depth, n) == replies(v, depth).take(n)[first_max(replies(v, depth).take(n))],
        0 <= first_max(replies(v, depth).take(n)) < n,
    decreases depth, n,
{
    lemma_two_moves(v);
    let action = v.legal()[n - 1];
    lemma_step_wf(v, action as int);
    lemma_negamax(v.step(action as int), (depth - 1) as nat);
    let value = -negamax(v.step(action as int), (depth - 1) as nat);
    let all = replies(v, depth);
    assert(all[n - 1] == value);
    if n > 1 {
        lemma_best_reply(v, depth, n - 1);
        lemma_first_max_push(all.take(n - 1), value);
        assert(all.take(n - 1).push(value) =~= all.take(n));
    } else {
        assert(best_reply(v, depth, 0) == -INF);
        assert(all.take(1).len() == 1);
    }
}

/// The value of a position is no less than what any possible move leads to,
/// seen from the other side.
pub proof fn lemma_negamax_bounds_replies(v: AlternateView, depth: nat, action: usize)
    requires
        v.wf(),
        !v.done(),
        depth > 0,
        v.can_move(action as int),
    ensures
        negamax(v, depth) >= -negamax(v.step(action as int), (depth - 1) as nat),
{
    lemma_two_moves(v);
    lemma_negamax(v, depth);
    let all = replies(v, depth);
    lemma_first_max(all);
    assert(v.legal().contains(action));
    let i = choose|i: int| 0 <= i < v.legal().len() && v.legal()[i] == action;
    assert(all[i] == -negamax(v.step(action as int), (depth - 1) as nat));
}

/// Minimax holds what it promises: after its move and any reply of the
/// other player, the position is worth to the player no less than before.
pub proof fn lemma_minimax_keeps_value(v: AlternateView, depth: nat, reply: usize)
    requires
        v.wf(),
        !v.done(),
        depth >= 2,
        !v.step(v.legal()[first_max(replies(v, depth))] as int).done(),
        v.step(v.legal()[first_max(replies(v, depth))] as int).can_move(reply as int),
    ensures
        negamax(
            v.step(v.legal()[first_max(replies(v, depth))] as int).step(reply as int),
            (depth - 2) as nat,
        ) >= negamax(v, depth),
{
    lemma_two_moves(v);
    lemma_negamax(v, depth);
    let all = replies(v, depth);
    lemma_first_max(all);
    let best = first_max(all);
    let action = v.legal()[best];
    lemma_step_wf(v, action as int);
    let after = v.step(action as int);
    assert(all[best] == -negamax(after, (depth - 1) as nat));
    lemma_negamax_bounds_replies(after, (depth - 1) as nat, reply);
}

/// A possible move of the character to move, picked by a number drawn from
/// `rng`.
pub fn randomAction(state: &AlternateMazeState, rng: &mut StdRng) -> (action: usize)
    requires
        state.wf(),
    ensures
        state@.can_move(action as int),
{
    let legal_actions = state.legalActions();
    proof {
        lemma_two_moves(state@);
    }
    let id = random_index(rng, legal_actions.len());
    legal_actions[id]
}

/// The value of `state` to the player to move when both play their best for
/// `depth` more moves.
pub fn miniMaxScore(state: &AlternateMazeState, depth: usize) -> (score: i32)
    requires
        state.wf(),
    ensures
        score == negamax(state@, depth as nat),
    decreases depth,
{
    if state.isDone() || depth == 0 {
        return state.getScore();
    }
    let legal_actions = state.legalActions();
    if legal_actions.len() == 0 {
        return state.getScore();
    }
    proof {
        lemma_two_moves(state@);
    }
    let mut best_score = -INF;
    let mut i: usize = 0;
    while i < legal_actions.len()
        invariant
            i <= legal_actions.len(),
            state.wf(),
            !state@.done(),
            depth > 0,
            legal_actions@ == state@.legal(),
            forall|k: int|
                0 <= k < state@.legal().len() ==> state@.can_move(#[trigger] state@.legal()[k] as int),
            best_score == best_reply(state@, depth as nat, i as int),
        decreases legal_actions.len() - i,
    {
        let action = legal_actions[i];
        let mut next_state = state.clone();
        next_state.advance(action);
        proof {
            lemma_negamax(next_state@, (depth - 1) as nat);
        }
        let score = -miniMaxScore(&next_state, depth - 1);
        if score > best_score {
            best_score = score;
        }
        i = i + 1;
    }
    best_score
}

/// The first of the possible moves that lead to the best value for the
/// player to move when both play their best for `depth` moves. The value it
/// leads to is the value of `state`.
pub fn miniMaxAction(state: &AlternateMazeState, depth: usize) -> (action: usize)
    requires
        state.wf(),
        !state@.done(),
        depth >= 1,
    ensures
        action == state@.legal()[first_max(replies(state@, depth as nat))],
        state@.can_move(action as int),
        -negamax(state@.step(action as int), (depth - 1) as nat) == negamax(state@, depth as nat),
{
    let legal_actions = state.legalActions();
    proof {
        lemma_two_moves(state@);
        lemma_negamax(state@, depth as nat);
        lemma_first_max(replies(state@, depth as nat));
    }
    let ghost all = replies(state@, depth as nat);
    let mut best_index: usize = 0;
    let mut best_score = -INF;
    let mut i: usize = 0;
    while i < legal_actions.len()
        invariant
            i <= legal_actions.len(),
            state.wf(),
            !state@.done(),
            depth >= 1,
            legal_actions@ == state@.legal(),
            legal_actions.len() >= 2,
            all == replies(state@, depth as nat),
            forall|k: int|
                0 <= k < state@.legal().len() ==> state@.can_move(#[trigger] state@.legal()[k] as int),
            i == 0 ==> best_index == 0 && best_score == -INF,
            i > 0 ==> best_index == first_max(all.take(i as int)) && best_index < i && best_score
                == all[best_index as int],
        decreases legal_actions.len() - i,
    {
        let action = legal_actions[i];
        let mut next_state = state.clone();
        next_state.advance(action);
        proof {
            lemma_negamax(next_state@, (depth - 1) as nat);
        }
        let score = -miniMaxScore(&next_state, depth - 1);
        proof {
            assert(score == all[i as int]);
            if i > 0 {
                lemma_first_max_push(all.take(i as int), score as int);
                assert(all.take(i as int).push(score as int) =~= all.take(i + 1));
            } else {
                assert(all.take(1).len() == 1);
            }
        }
        if score > best_score {
            best_score = score;
            best_index = i;
        }
        i = i + 1;
    }
    assert(all.take(legal_actions.len() as int) =~= all);
    legal_actions[best_index]
}

} // verus!
