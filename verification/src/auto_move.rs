//! The maze that plays itself: three characters are placed on the board,
//! then each walks to the richest neighbouring cell turn after turn. What
//! is searched for is the placement that collects the most.
pub use crate::grid::Coord;
use crate::grid::{dx, dy, on_board, step_x, step_y, ACTION_COUNT};
use crate::random::{random_i32, random_usize, seeded_rng};
use crate::text::{decimal, point_text, push_char, push_decimal, push_point, row_text, rows_text};
use rand::rngs::StdRng;
use vstd::prelude::*;
use vstd::string::StringExecFns;

verus! {

/// Rows of the board.
pub const H: usize = 5;

/// Columns of the board.
pub const W: usize = 5;

/// Number of turns of a game.
pub const END_TURN: i32 = 5;

/// Number of characters.
pub const CHARACTER_N: usize = 3;

/// Largest number of points a cell holds.
pub const MAX_POINT: i32 = 9;

/// A position of the maze that plays itself.
#[derive(Debug, Clone, Copy)]
pub struct AutoMoveMazeState {
    points_: [[i32; W]; H],
    turn_: i32,
    characters_: [Coord; CHARACTER_N],
    game_score_: i32,
    evaluated_score_: i32,
}

/// A cell by row and column.
pub struct Place {
    pub y: int,
    pub x: int,
}

/// What an `AutoMoveMazeState` stands for.
pub struct AutoMoveView {
    /// Points by row and column.
    pub points: Seq<Seq<int>>,
    pub turn: int,
    /// Where the characters stand.
    pub characters: Seq<Place>,
    pub game_score: int,
    pub evaluated_score: int,
}

/// Validity of a board: it has its size and every cell holds 0 to 9 points.
pub open spec fn board_ok(points: Seq<Seq<int>>) -> bool {
    &&& points.len() == H
    &&& forall|y: int| 0 <= y < H ==> (#[trigger] points[y]).len() == W
    &&& forall|y: int, x: int| 0 <= y < H && 0 <= x < W ==> 0 <= #[trigger] points[y][x] <= MAX_POINT
}

/// The characters are as many as they should be, each on the board.
pub open spec fn placed_ok(characters: Seq<Place>) -> bool {
    &&& characters.len() == CHARACTER_N
    &&& forall|i: int|
        0 <= i < CHARACTER_N ==> on_board(
            (#[trigger] characters[i]).y,
            characters[i].x,
            H as int,
            W as int,
        )
}

/// The move among the first `n` that leads from `(y, x)` to the cell of the
/// board with the most points; of several such moves, the first; -1 where no
/// move stays on the board.
pub open spec fn best_move(points: Seq<Seq<int>>, y: int, x: int, n: int) -> int
    decreases n,
{
    if n <= 0 {
        -1
    } else {
        let best = best_move(points, y, x, n - 1);
        let action = n - 1;
        let ty = y + dy(action);
        let tx = x + dx(action);
        if on_board(ty, tx, H as int, W as int) && (best < 0 || points[ty][tx] > points[y + dy(best)][x
            + dx(best)]) {
            action
        } else {
            best
        }
    }
}

/// Where a character at `place` walks to: the richest neighbouring cell.
pub open spec fn walked(points: Seq<Seq<int>>, place: Place) -> Place {
    let action = best_move(points, place.y, place.x, ACTION_COUNT as int);
    Place { y: place.y + dy(action), x: place.x + dx(action) }
}

/// The board after the first `n` characters have collected the points of
/// their cells, one after the other.
pub open spec fn gathered_board(points: Seq<Seq<int>>, characters: Seq<Place>, n: int) -> Seq<
    Seq<int>,
>
    decreases n,
{
    if n <= 0 {
        points
    } else {
        let before = gathered_board(points, characters, n - 1);
        let c = characters[n - 1];
        before.update(c.y, before[c.y].update(c.x, 0))
    }
}

/// The points that the first `n` characters collect from their cells, one
/// after the other: of two on one cell only the first collects.
pub open spec fn gathered_points(points: Seq<Seq<int>>, characters: Seq<Place>, n: int) -> int
    decreases n,
{
    if n <= 0 {
        0
    } else {
        let c = characters[n - 1];
        gathered_points(points, characters, n - 1) + gathered_board(points, characters, n - 1)[c.y][c.x]
    }
}

/// The placements `before` and `after` differ at most in character `moved`.
pub open spec fn same_but(before: Seq<Place>, after: Seq<Place>, moved: int) -> bool {
    &&& 0 <= moved < CHARACTER_N
    &&& before.len() == after.len()
    &&& forall|i: int| 0 <= i < before.len() && i != moved ==> after[i] == before[i]
}

impl AutoMoveView {
    /// The board and the characters are valid, and no more than 9 points
    /// per character, 27 in all, were collected per turn played.
    pub open spec fn wf(self) -> bool {
        &&& board_ok(self.points)
        &&& placed_ok(self.characters)
        &&& 0 <= self.turn <= END_TURN
        &&& 0 <= self.game_score <= 27 * self.turn
    }

    /// The game is over when the last turn was played.
    pub open spec fn done(self) -> bool {
        self.turn == END_TURN
    }

    /// Where the characters stand after each has walked.
    pub open spec fn walk(self) -> Seq<Place> {
        Seq::new(CHARACTER_N as nat, |i: int| walked(self.points, self.characters[i]))
    }

    /// The position after one turn: every character walks to its richest
    /// neighbouring cell, then each in turn collects the points of its cell.
    pub open spec fn step(self) -> AutoMoveView {
        let characters = self.walk();
        AutoMoveView {
            points: gathered_board(self.points, characters, CHARACTER_N as int),
            turn: self.turn + 1,
            characters,
            game_score: self.game_score + gathered_points(self.points, characters, CHARACTER_N as int),
            ..self
        }
    }

    /// The position with the cells of the characters emptied.
    pub open spec fn cleared(self) -> AutoMoveView {
        AutoMoveView {
            points: gathered_board(self.points, self.characters, CHARACTER_N as int),
            ..self
        }
    }

    /// The points collected when the game is played to its end.
    pub open spec fn final_score(self) -> int
        decreases END_TURN - self.turn,
    {
        if self.turn >= END_TURN {
            self.game_score
        } else {
            self.step().final_score()
        }
    }

    /// The score of a placement: what is collected when the characters
    /// start from emptied cells and the game is played to its end.
    pub open spec fn score(self) -> int {
        self.cleared().final_score()
    }

    /// Whether one of the first `n` characters stands on the cell `(y, x)`.
    pub open spec fn taken(self, y: int, x: int, n: int) -> bool
        decreases n,
    {
        n > 0 && (self.taken(y, x, n - 1) || (self.characters[n - 1].y == y && self.characters[n
            - 1].x == x))
    }

    /// What the cell `(y, x)` is shown as: `@` where a character stands,
    /// else the digit of its points, or a dot where it is empty.
    pub open spec fn cell_text(self, y: int, x: int) -> Seq<char> {
        if self.taken(y, x, CHARACTER_N as int) {
            seq!['@']
        } else {
            point_text(self.points[y][x])
        }
    }

    /// What the position is shown as: the turn, the score, and the board
    /// row by row.
    pub open spec fn text(self) -> Seq<char> {
        "turn:\t"@ + decimal(self.turn as nat) + "\n"@ + "score:\t"@ + decimal(
            self.game_score as nat,
        ) + "\n"@ + rows_text(|y: int, x: int| self.cell_text(y, x), H as int, W as int)
    }
}

/// A move that stays on the board is found from every cell, and the
/// richest neighbouring cell is on the board.
pub proof fn lemma_best_move(points: Seq<Seq<int>>, y: int, x: int)
    requires
        on_board(y, x, H as int, W as int),
    ensures
        0 <= best_move(points, y, x, 4) < 4,
        on_board(walked(points, Place { y, x }).y, walked(points, Place { y, x }).x, H as int, W as int),
{
    reveal_with_fuel(best_move, 5);
}

/// Collecting keeps a valid board valid, and each character collects at most 9 points.
pub proof fn lemma_gathered(points: Seq<Seq<int>>, characters: Seq<Place>, n: int)
    requires
        board_ok(points),
        placed_ok(characters),
        0 <= n <= CHARACTER_N,
    ensures
        board_ok(gathered_board(points, characters, n)),
        0 <= gathered_points(points, characters, n) <= MAX_POINT * n,
    decreases n,
{
    if n > 0 {
        lemma_gathered(points, characters, n - 1);
        let before = gathered_board(points, characters, n - 1);
        let after = gathered_board(points, characters, n);
        let c = characters[n - 1];
        assert(0 <= before[c.y][c.x] <= MAX_POINT);
        assert forall|y: int| 0 <= y < H implies (#[trigger] after[y]).len() == W by {
            assert(before[y].len() == W);
        }
        assert forall|y: int, x: int| 0 <= y < H && 0 <= x < W implies 0 <= #[trigger] after[y][x]
            <= MAX_POINT by {
            assert(0 <= before[y][x] <= MAX_POINT);
        }
    }
}

/// A turn from a valid position that is not over gives a valid position.
pub proof fn lemma_step_wf(v: AutoMoveView)
    requires
        v.wf(),
        !v.done(),
    ensures
        v.step().wf(),
{
    let characters = v.walk();
    assert forall|i: int| 0 <= i < CHARACTER_N implies on_board(
        (#[trigger] characters[i]).y,
        characters[i].x,
        H as int,
        W as int,
    ) by {
        lemma_best_move(v.points, v.characters[i].y, v.characters[i].x);
    }
    lemma_gathered(v.points, characters, CHARACTER_N as int);
}

/// The score of a valid placement lies within what the characters can collect.
pub proof fn lemma_final_score(v: AutoMoveView)
    requires
        v.wf(),
    ensures
        0 <= v.final_score() <= 27 * END_TURN,
    decreases END_TURN - v.turn,
{
    if v.turn < END_TURN {
        lemma_step_wf(v);
        lemma_final_score(v.step());
    }
}

impl View for AutoMoveMazeState {
    type V = AutoMoveView;

    closed spec fn view(&self) -> AutoMoveView {
        AutoMoveView {
            points: Seq::new(H as nat, |y: int| Seq::new(W as nat, |x: int| self.points_[y][x] as int)),
            turn: self.turn_ as int,
            characters: Seq::new(
                CHARACTER_N as nat,
                |i: int| Place { y: self.characters_[i].y_ as int, x: self.characters_[i].x_ as int },
            ),
            game_score: self.game_score_ as int,
            evaluated_score: self.evaluated_score_ as int,
        }
    }
}

impl AutoMoveMazeState {
    /// Validity of a state: that of what it stands for.
    pub open spec fn wf(&self) -> bool {
        self@.wf()
    }

    /// A fresh board drawn from `seed`: 1 to 9 points on every cell, the
    /// characters in the first corner, nothing played yet.
    pub fn new(seed: usize) -> (state: Self)
        ensures
            state.wf(),
            state@.turn == 0,
            state@.game_score == 0,
            forall|i: int| 0 <= i < CHARACTER_N ==> #[trigger] state@.characters[i] == (Place { y: 0, x: 0 }),
            forall|y: int, x: int| 0 <= y < H && 0 <= x < W ==> 1 <= #[trigger] state@.points[y][x],
    {
        let mut rng = seeded_rng(seed as u64);
        let mut points: [[i32; W]; H] = [[0; W]; H];
        let mut y: usize = 0;
        while y < H
            invariant
                y <= H,
                forall|i: int, j: int| 0 <= i < H && 0 <= j < W ==> 0 <= #[trigger] points[i][j] <= 9,
                forall|i: int, j: int| 0 <= i < y && 0 <= j < W ==> 1 <= #[trigger] points[i][j],
            decreases H - y,
        {
            let mut x: usize = 0;
            while x < W
                invariant
                    y < H,
                    x <= W,
                    forall|i: int, j: int|
                        0 <= i < H && 0 <= j < W ==> 0 <= #[trigger] points[i][j] <= 9,
                    forall|i: int, j: int| 0 <= i < y && 0 <= j < W ==> 1 <= #[trigger] points[i][j],
                    forall|j: int| 0 <= j < x ==> 1 <= #[trigger] points[y as int][j],
                decreases W - x,
            {
                points[y][x] = random_i32(&mut rng, 0, 9) + 1;
                x = x + 1;
            }
            y = y + 1;
        }
        AutoMoveMazeState {
            points_: points,
            turn_: 0,
            characters_: [Coord { y_: 0, x_: 0 }; CHARACTER_N],
            game_score_: 0,
            evaluated_score_: 0,
        }
    }

    /// Puts a character on the cell `(y, x)`.
    pub fn setCharacter(&mut self, character_id: usize, y: i32, x: i32)
        requires
            old(self).wf(),
            character_id < CHARACTER_N,
            on_board(y as int, x as int, H as int, W as int),
        ensures
            final(self).wf(),
            final(self)@ == (AutoMoveView {
                characters: old(self)@.characters.update(
                    character_id as int,
                    Place { y: y as int, x: x as int },
                ),
                ..old(self)@
            }),
    {
        self.characters_[character_id] = Coord { y_: y, x_: x };
        proof {
            assert(self@.characters =~= old(self)@.characters.update(
                character_id as int,
                Place { y: y as int, x: x as int },
            ));
            assert(self@.points =~~= old(self)@.points);
        }
    }

    /// Whether the last turn was played.
    pub fn isDone(&self) -> (done: bool)
        ensures
            done == self@.done(),
    {
        self.turn_ == END_TURN
    }

    /// Number of turns played.
    pub fn turn(&self) -> (turn: i32)
        ensures
            turn == self@.turn,
    {
        self.turn_
    }

    /// Points collected so far.
    pub fn gameScore(&self) -> (score: i32)
        ensures
            score == self@.game_score,
    {
        self.game_score_
    }

    /// Where character number `character_id` stands.
    pub fn character(&self, character_id: usize) -> (c: Coord)
        requires
            character_id < CHARACTER_N,
        ensures
            c.y_ == self@.characters[character_id as int].y,
            c.x_ == self@.characters[character_id as int].x,
    {
        self.characters_[character_id]
    }

    /// Points on the cell `(y, x)`.
    pub fn pointAt(&self, y: usize, x: usize) -> (point: i32)
        requires
            y < H,
            x < W,
        ensures
            point == self@.points[y as int][x as int],
    {
        self.points_[y][x]
    }

    /// The position as text: the turn, the score, and the board row by row.
    pub fn toString(&self) -> (s: String)
        requires
            self@.wf(),
        ensures
            s@ == self@.text(),
    {
        let mut s = String::new();
        s.append("turn:\t");
        push_decimal(&mut s, self.turn_ as u64);
        s.append("\n");
        s.append("score:\t");
        push_decimal(&mut s, self.game_score_ as u64);
        s.append("\n");
        let ghost cell = |y: int, x: int| self@.cell_text(y, x);
        let ghost head = s@;
        let mut h: usize = 0;
        while h < H
            invariant
                h <= H,
                self@.wf(),
                cell == (|y: int, x: int| self@.cell_text(y, x)),
                s@ == head + rows_text(cell, h as int, W as int),
            decreases H - h,
        {
            let ghost before = s@;
            let mut w: usize = 0;
            while w < W
                invariant
                    h < H,
                    w <= W,
                    self@.wf(),
                    cell == (|y: int, x: int| self@.cell_text(y, x)),
                    s@ == before + row_text(cell, h as int, w as int),
                decreases W - w,
            {
                let ghost row = s@;
                let mut is_written = false;
                let mut id: usize = 0;
                while id < CHARACTER_N
                    invariant
                        id <= CHARACTER_N,
                        h < H,
                        w < W,
                        is_written == self@.taken(h as int, w as int, id as int),
                    decreases CHARACTER_N - id,
                {
                    let character = self.characters_[id];
                    assert(self@.characters[id as int] == (Place {
                        y: character.y_ as int,
                        x: character.x_ as int,
                    }));
                    if character.y_ == h as i32 && character.x_ == w as i32 {
                        is_written = true;
                    }
                    id = id + 1;
                }
                if is_written {
                    push_char(&mut s, '@');
                } else {
                    assert(self.points_[h as int][w as int] as int == self@.points[h as int][w as int]);
                    assert(0 <= self@.points[h as int][w as int] <= MAX_POINT);
                    push_point(&mut s, self.points_[h][w]);
                }
                assert(s@ =~= row + cell(h as int, w as int));
                assert(s@ =~= before + row_text(cell, h as int, w + 1));
                w = w + 1;
            }
            push_char(&mut s, '\n');
            assert(s@ =~= head + rows_text(cell, h + 1, W as int));
            h = h + 1;
        }
        s
    }

    /// Walks a character to its richest neighbouring cell.
    fn movePlayer(&mut self, character_id: usize)
        requires
            old(self).wf(),
            character_id < CHARACTER_N,
        ensures
            final(self).wf(),
            final(self)@ == (AutoMoveView {
                characters: old(self)@.characters.update(
                    character_id as int,
                    walked(old(self)@.points, old(self)@.characters[character_id as int]),
                ),
                ..old(self)@
            }),
    {
        let character = self.characters_[character_id];
        let ghost points = self@.points;
        let ghost y = character.y_ as int;
        let ghost x = character.x_ as int;
        proof {
            assert(self@.characters[character_id as int] == (Place { y, x }));
            assert(on_board(y, x, H as int, W as int));
            lemma_best_move(points, y, x);
        }
        let mut best_point: i32 = 0;
        let mut best_action_index: usize = 0;
        let mut found = false;
        let mut action: usize = 0;
        while action < 4
            invariant
                action <= 4,
                self@ == old(self)@,
                self.wf(),
                points == self@.points,
                y == character.y_,
                x == character.x_,
                on_board(y, x, H as int, W as int),
                !found ==> best_move(points, y, x, action as int) < 0,
                found ==> best_action_index == best_move(points, y, x, action as int)
                    && best_action_index < action && on_board(
                    y + dy(best_action_index as int),
                    x + dx(best_action_index as int),
                    H as int,
                    W as int,
                ) && best_point == points[y + dy(best_action_index as int)][x + dx(
                    best_action_index as int,
                )],
            decreases 4 - action,
        {
            let ty = character.y_ + step_y(action);
            let tx = character.x_ + step_x(action);
            if ty >= 0 && ty < H as i32 && tx >= 0 && tx < W as i32 {
                let point = self.points_[ty as usize][tx as usize];
                assert(point as int == points[ty as int][tx as int]);
                if !found || point > best_point {
                    best_point = point;
                    best_action_index = action;
                    found = true;
                }
            }
            action = action + 1;
        }
        let moved = Coord {
            y_: character.y_ + step_y(best_action_index),
            x_: character.x_ + step_x(best_action_index),
        };
        self.characters_[character_id] = moved;
        proof {
            assert(self@.characters =~= old(self)@.characters.update(
                character_id as int,
                walked(points, Place { y, x }),
            ));
            assert(self@.points =~~= old(self)@.points);
        }
    }

    /// Plays a turn: every character walks, then each collects in turn.
    pub fn advance(&mut self)
        requires
            old(self).wf(),
            !old(self)@.done(),
        ensures
            final(self)@ == old(self)@.step(),
            final(self).wf(),
    {
        let ghost start = self@;
        proof {
            lemma_step_wf(start);
        }
        let mut character_id: usize = 0;
        while character_id < CHARACTER_N
            invariant
                character_id <= CHARACTER_N,
                self.wf(),
                start == old(self)@,
                self@.points == start.points,
                self@.turn == start.turn,
                self@.game_score == start.game_score,
                self@.evaluated_score == start.evaluated_score,
                self@.characters.len() == CHARACTER_N,
                forall|i: int|
                    0 <= i < character_id ==> #[trigger] self@.characters[i] == walked(
                        start.points,
                        start.characters[i],
                    ),
                forall|i: int|
                    character_id <= i < CHARACTER_N ==> #[trigger] self@.characters[i]
                        == start.characters[i],
            decreases CHARACTER_N - character_id,
        {
            self.movePlayer(character_id);
            character_id = character_id + 1;
        }
        let ghost characters = self@.characters;
        proof {
            assert(characters =~= start.walk());
        }
        let mut character_id: usize = 0;
        while character_id < CHARACTER_N
            invariant
                character_id <= CHARACTER_N,
                start == old(self)@,
                start.wf(),
                !start.done(),
                characters == start.walk(),
                placed_ok(characters),
                self@.characters == characters,
                self@.turn == start.turn,
                self@.evaluated_score == start.evaluated_score,
                self@.points == gathered_board(start.points, characters, character_id as int),
                self@.game_score == start.game_score + gathered_points(
                    start.points,
                    characters,
                    character_id as int,
                ),
            decreases CHARACTER_N - character_id,
        {
            proof {
                lemma_gathered(start.points, characters, character_id as int);
                lemma_gathered(start.points, characters, character_id as int + 1);
            }
            let character = self.characters_[character_id];
            assert(characters[character_id as int] == (Place {
                y: character.y_ as int,
                x: character.x_ as int,
            }));
            let y = character.y_ as usize;
            let x = character.x_ as usize;
            let point = self.points_[y][x];
            assert(point as int == self@.points[y as int][x as int]);
            self.game_score_ = self.game_score_ + point;
            self.points_[y][x] = 0;
            proof {
                assert(self@.points =~~= gathered_board(start.points, characters, character_id + 1));
                assert(self@.characters =~= characters);
            }
            character_id = character_id + 1;
        }
        self.turn_ = self.turn_ + 1;
        proof {
            assert(self@.characters =~= characters);
            assert(self@.points =~~= start.step().points);
        }
    }

    /// The position with the cells of the characters emptied: where a
    /// placement is scored from.
    pub fn cleared(&self) -> (start: Self)
        requires
            self.wf(),
        ensures
            start.wf(),
            start@ == self@.cleared(),
    {
        let mut tmp_state = self.clone();
        let mut character_id: usize = 0;
        while character_id < CHARACTER_N
            invariant
                character_id <= CHARACTER_N,
                self.wf(),
                tmp_state@.characters == self@.characters,
                tmp_state@.turn == self@.turn,
                tmp_state@.game_score == self@.game_score,
                tmp_state@.evaluated_score == self@.evaluated_score,
                tmp_state@.points == gathered_board(self@.points, self@.characters, character_id as int),
            decreases CHARACTER_N - character_id,
        {
            proof {
                lemma_gathered(self@.points, self@.characters, character_id as int);
            }
            let character = self.characters_[character_id];
            assert(self@.characters[character_id as int] == (Place {
                y: character.y_ as int,
                x: character.x_ as int,
            }));
            tmp_state.points_[character.y_ as usize][character.x_ as usize] = 0;
            proof {
                assert(tmp_state@.points =~~= gathered_board(
                    self@.points,
                    self@.characters,
                    character_id + 1,
                ));
                assert(tmp_state@.characters =~= self@.characters);
            }
            character_id = character_id + 1;
        }
        proof {
            lemma_gathered(self@.points, self@.characters, CHARACTER_N as int);
        }
        tmp_state
    }

    /// The score of the placement: the points collected when the characters
    /// start from emptied cells and the game is played to its end.
    pub fn getScore(&self) -> (score: i32)
        requires
            self.wf(),
        ensures
            score == self@.score(),
    {
        let mut tmp_state = self.cleared();
        while !tmp_state.isDone()
            invariant
                tmp_state.wf(),
                tmp_state@.final_score() == self@.score(),
            decreases END_TURN - tmp_state@.turn,
        {
            tmp_state.advance();
        }
        tmp_state.game_score_
    }

    /// Puts every character on a cell drawn from `rng`.
    pub fn init(&mut self, rng: &mut StdRng)
        requires
            old(self).wf(),
        ensures
            final(self).wf(),
            final(self)@.points == old(self)@.points,
            final(self)@.turn == old(self)@.turn,
            final(self)@.game_score == old(self)@.game_score,
    {
        let mut character_id: usize = 0;
        while character_id < CHARACTER_N
            invariant
                character_id <= CHARACTER_N,
                self.wf(),
                self@.points == old(self)@.points,
                self@.turn == old(self)@.turn,
                self@.game_score == old(self)@.game_score,
            decreases CHARACTER_N - character_id,
        {
            let y = random_i32(rng, 0, H as i32);
            let x = random_i32(rng, 0, W as i32);
            self.setCharacter(character_id, y, x);
            character_id = character_id + 1;
        }
    }

    /// Puts one character, drawn from `rng`, on a cell drawn from `rng`.
    pub fn transition(&mut self, rng: &mut StdRng)
        requires
            old(self).wf(),
        ensures
            final(self).wf(),
            final(self)@.points == old(self)@.points,
            final(self)@.turn == old(self)@.turn,
            final(self)@.game_score == old(self)@.game_score,
            exists|moved: int| #[trigger]
                same_but(old(self)@.characters, final(self)@.characters, moved),
    {
        let character_id = random_usize(rng) % CHARACTER_N;
        let y = random_i32(rng, 0, H as i32);
        let x = random_i32(rng, 0, W as i32);
        self.setCharacter(character_id, y, x);
        proof {
            assert(same_but(old(self)@.characters, self@.characters, character_id as int));
        }
    }
}

/// The board of `state` with every character on a cell drawn from `rng`.
pub fn randomAction(state: &AutoMoveMazeState, rng: &mut StdRng) -> (placed: AutoMoveMazeState)
    requires
        state.wf(),
    ensures
        placed.wf(),
        placed@.points == state@.points,
        placed@.turn == state@.turn,
        placed@.game_score == state@.game_score,
{
    let mut now_state = state.clone();
    now_state.init(rng);
    now_state
}

/// Hill climbing over placements: starts from a placement drawn from `rng`
/// and `number` times over changes the place of one character, keeping
/// aside the placement before the change and going back to it when its
/// score is greater than the best known. It gives a placement on the board
/// of `state`.
pub fn hillClimb(state: &AutoMoveMazeState, number: i32, rng: &mut StdRng) -> (best: AutoMoveMazeState)
    requires
        state.wf(),
    ensures
        best.wf(),
        best@.points == state@.points,
        best@.turn == state@.turn,
        best@.game_score == state@.game_score,
{
    let mut now_state = state.clone();
    now_state.init(rng);
    let mut best_score = now_state.getScore();
    let mut i: i32 = 0;
    while i < number
        invariant
            now_state.wf(),
            now_state@.points == state@.points,
            now_state@.turn == state@.turn,
            now_state@.game_score == state@.game_score,
        decreases number - i,
    {
        let next_state = now_state.clone();
        now_state.transition(rng);
        let next_score = next_state.getScore();
        if next_score > best_score {
            best_score = next_score;
            now_state = next_state;
        }
        i = i + 1;
    }
    now_state
}

} // verus!
