//! The single-player maze: a character walks a small board for a fixed
//! number of turns and collects the points of the cells it enters.
use crate::beam::{
    descending, lemma_placed_descending, lemma_rank_of, lemma_rank_of_same_scores, placed, rank_of, Beam,
    Ranked,
};
use crate::choice::{first_max, firstMaxIndex, ints};
pub use crate::grid::Coord;
use crate::grid::{dx, dy, lemma_moves_below, moves_below, on_board, step_x, step_y, ACTION_COUNT};
use crate::random::{random_i32, seeded_rng};
use crate::text::{decimal, point_text, push_char, push_decimal, push_point, row_text, rows_text};
use rand::rngs::StdRng;
use vstd::prelude::*;
use vstd::string::StringExecFns;

verus! {

/// Rows of the board.
pub const H: usize = 3;

/// Columns of the board.
pub const W: usize = 4;

/// Number of turns of a game.
pub const END_TURN: i32 = 4;

/// Largest number of points a cell holds.
pub const MAX_POINT: i32 = 9;

/// The label of a position that no first move has been recorded for.
pub const UNSET_ACTION: usize = 10;

/// What a search answers when it has no move to give. No move has this number.
pub const INVALID_ACTION: usize = 100000;

/// A position of the single-player maze, with the two labels that the
/// searches attach to it: its evaluation and the first move that led to it.
#[derive(Debug, Clone, Copy)]
pub struct MazeState {
    points_: [[i32; W]; H],
    turn_: i32,
    charcter_: Coord,
    game_score_: i32,
    evaluated_score_: i64,
    first_action_: usize,
}

/// What a `MazeState` stands for.
pub struct MazeView {
    /// Points by row and column.
    pub points: Seq<Seq<int>>,
    pub turn: int,
    /// Row of the character.
    pub y: int,
    /// Column of the character.
    pub x: int,
    pub game_score: int,
    pub evaluated_score: int,
    pub first_action: usize,
}

impl MazeView {
    /// The board has its size, every cell holds 0 to 9 points, the character
    /// stands on an emptied cell of the board, no more than 9 points were
    /// collected per turn played, and the evaluation is a number of 64 bits.
    pub open spec fn wf(self) -> bool {
        &&& self.points.len() == H
        &&& forall|y: int| 0 <= y < H ==> (#[trigger] self.points[y]).len() == W
        &&& forall|y: int, x: int|
            0 <= y < H && 0 <= x < W ==> 0 <= #[trigger] self.points[y][x] <= MAX_POINT
        &&& 0 <= self.turn <= END_TURN
        &&& on_board(self.y, self.x, H as int, W as int)
        &&& self.points[self.y][self.x] == 0
        &&& 0 <= self.game_score <= MAX_POINT * self.turn
        &&& i64::MIN <= self.evaluated_score <= i64::MAX
    }

    /// The game is over when the last turn was played.
    pub open spec fn done(self) -> bool {
        self.turn == END_TURN
    }

    /// A move is possible when it keeps the character on the board.
    pub open spec fn can_move(self, action: int) -> bool {
        0 <= action < ACTION_COUNT && on_board(
            self.y + dy(action),
            self.x + dx(action),
            H as int,
            W as int,
        )
    }

    /// The possible moves, in ascending order.
    pub open spec fn legal(self) -> Seq<usize> {
        moves_below(|a: int| self.can_move(a), ACTION_COUNT as int)
    }

    /// The position after `action`: the character moves, collects the points
    /// of the cell it enters and empties it, and one turn has passed.
    pub open spec fn step(self, action: int) -> MazeView {
        let y = self.y + dy(action);
        let x = self.x + dx(action);
        MazeView {
            points: self.points.update(y, self.points[y].update(x, 0)),
            turn: self.turn + 1,
            y,
            x,
            game_score: self.game_score + self.points[y][x],
            ..self
        }
    }

    /// The position with its evaluation set to the points collected.
    pub open spec fn evaluated(self) -> MazeView {
        MazeView { evaluated_score: self.game_score, ..self }
    }

    /// The position labelled with `action` as the first move that led to it.
    pub open spec fn labelled(self, action: usize) -> MazeView {
        MazeView { first_action: action, ..self }
    }

    /// What the cell `(y, x)` is shown as: `@` for the character, else the
    /// digit of its points, or a dot where it is empty.
    pub open spec fn cell_text(self, y: int, x: int) -> Seq<char> {
        if self.y == y && self.x == x {
            seq!['@']
        } else {
            point_text(self.points[y][x])
        }
    }

    /// What the position is shown as: the turn, the score, and the board
    /// row by row.
    pub open spec fn text(self) -> Seq<char> {
        "turn:\t"@ + decimal(self.turn as nat) + "\n"@ + "score:\t"@ + decimal(
            self.game_score as nat,
        ) + "\n"@ + rows_text(|y: int, x: int| self.cell_text(y, x), H as int, W as int)
    }
}

/// A step from a valid position that is not over, by a possible move, gives a
/// valid position.
pub proof fn lemma_step_wf(v: MazeView, action: int)
    requires
        v.wf(),
        !v.done(),
        v.can_move(action),
    ensures
        v.step(action).wf(),
        v.step(action).game_score >= v.game_score,
{
    let y = v.y + dy(action);
    let x = v.x + dx(action);
    let n = v.step(action);
    assert(0 <= v.points[y][x] <= MAX_POINT);
    assert forall|i: int| 0 <= i < H implies (#[trigger] n.points[i]).len() == W by {
        assert(v.points[i].len() == W);
    }
    assert forall|i: int, j: int| 0 <= i < H && 0 <= j < W implies 0 <= #[trigger] n.points[i][j]
        <= MAX_POINT by {
        assert(0 <= v.points[i][j] <= MAX_POINT);
    }
}

/// On every cell of the board at least two moves are possible.
pub proof fn lemma_two_moves(v: MazeView)
    requires
        v.wf(),
    ensures
        v.legal().len() >= 2,
        forall|a: usize| v.legal().contains(a) <==> v.can_move(a as int),
{
    let allowed = |a: int| v.can_move(a);
    lemma_moves_below(allowed, 4);
    reveal_with_fuel(moves_below, 5);
}

impl View for MazeState {
    type V = MazeView;

    closed spec fn view(&self) -> MazeView {
        MazeView {
            points: Seq::new(H as nat, |y: int| Seq::new(W as nat, |x: int| self.points_[y][x] as int)),
            turn: self.turn_ as int,
            y: self.charcter_.y_ as int,
            x: self.charcter_.x_ as int,
            game_score: self.game_score_ as int,
            evaluated_score: self.evaluated_score_ as int,
            first_action: self.first_action_,
        }
    }
}

impl MazeState {
    /// Validity of a state: that of what it stands for.
    pub open spec fn wf(&self) -> bool {
        self@.wf()
    }

    /// A fresh game drawn from `seed`: the character on a cell of the board,
    /// 1 to 9 points on every other cell, nothing played yet.
    pub fn new(seed: usize) -> (state: Self)
        ensures
            state.wf(),
            state@.turn == 0,
            state@.game_score == 0,
            state@.evaluated_score == 0,
            state@.first_action == UNSET_ACTION,
            forall|y: int, x: int|
                0 <= y < H && 0 <= x < W && !(y == state@.y && x == state@.x) ==> 1
                    <= #[trigger] state@.points[y][x],
    {
        let mut rng = seeded_rng(seed as u64);
        let cy = random_i32(&mut rng, 0, 11) % (H as i32);
        let cx = random_i32(&mut rng, 0, 11) % (W as i32);
        let mut points: [[i32; W]; H] = [[0; W]; H];
        let mut y: usize = 0;
        while y < H
            invariant
                y <= H,
                0 <= cy < H,
                0 <= cx < W,
                points[cy as int][cx as int] == 0,
                forall|i: int, j: int| 0 <= i < H && 0 <= j < W ==> 0 <= #[trigger] points[i][j] <= 9,
                forall|i: int, j: int|
                    0 <= i < y && 0 <= j < W && !(i == cy && j == cx) ==> 1 <= #[trigger] points[i][j],
            decreases H - y,
        {
            let mut x: usize = 0;
            while x < W
                invariant
                    y < H,
                    x <= W,
                    0 <= cy < H,
                    0 <= cx < W,
                    points[cy as int][cx as int] == 0,
                    forall|i: int, j: int|
                        0 <= i < H && 0 <= j < W ==> 0 <= #[trigger] points[i][j] <= 9,
                    forall|i: int, j: int|
                        0 <= i < y && 0 <= j < W && !(i == cy && j == cx) ==> 1
                            <= #[trigger] points[i][j],
                    forall|j: int| 0 <= j < x && !(y == cy && j == cx) ==> 1 <= #[trigger] points[y as int][j],
                decreases W - x,
            {
                if !(y as i32 == cy && x as i32 == cx) {
                    points[y][x] = random_i32(&mut rng, 1, 10);
                }
                x = x + 1;
            }
            y = y + 1;
        }
        MazeState {
            points_: points,
            turn_: 0,
            charcter_: Coord { y_: cy, x_: cx },
            game_score_: 0,
            evaluated_score_: 0,
            first_action_: UNSET_ACTION,
        }
    }

    /// Whether the last turn was played.
    pub fn isDone(&self) -> (done: bool)
        ensures
            done == self@.done(),
    {
        self.turn_ == END_TURN
    }

    /// Number of turns played.
    pub fn turn(&self) -> (turn: i32)
        ensures
            turn == self@.turn,
    {
        self.turn_
    }

    /// Where the character stands.
    pub fn character(&self) -> (c: Coord)
        ensures
            c.y_ == self@.y,
            c.x_ == self@.x,
    {
        self.charcter_
    }

    /// Points collected so far.
    pub fn gameScore(&self) -> (score: i32)
        ensures
            score == self@.game_score,
    {
        self.game_score_
    }

    /// The evaluation that was set last.
    pub fn evaluatedScore(&self) -> (score: i64)
        ensures
            score == self@.evaluated_score,
    {
        self.evaluated_score_
    }

    /// The first move that a search recorded for the position.
    pub fn firstAction(&self) -> (action: usize)
        ensures
            action == self@.first_action,
    {
        self.first_action_
    }

    /// Points on the cell `(y, x)`.
    pub fn pointAt(&self, y: usize, x: usize) -> (point: i32)
        requires
            y < H,
            x < W,
        ensures
            point == self@.points[y as int][x as int],
    {
        self.points_[y][x]
    }

    /// The position as text: the turn, the score, and the board row by row.
    pub fn toString(&self) -> (s: String)
        requires
            self.wf(),
        ensures
            s@ == self@.text(),
    {
        let mut s = String::new();
        s.append("turn:\t");
        push_decimal(&mut s, self.turn_ as u64);
        s.append("\n");
        s.append("score:\t");
        push_decimal(&mut s, self.game_score_ as u64);
        s.append("\n");
        let ghost cell = |y: int, x: int| self@.cell_text(y, x);
        let ghost head = s@;
        let mut h: usize = 0;
        while h < H
            invariant
                h <= H,
                self.wf(),
                cell == (|y: int, x: int| self@.cell_text(y, x)),
                s@ == head + rows_text(cell, h as int, W as int),
            decreases H - h,
        {
            let ghost before = s@;
            let mut w: usize = 0;
            while w < W
                invariant
                    h < H,
                    w <= W,
                    self.wf(),
                    cell == (|y: int, x: int| self@.cell_text(y, x)),
                    s@ == before + row_text(cell, h as int, w as int),
                decreases W - w,
            {
                let ghost row = s@;
                if self.charcter_.y_ == h as i32 && self.charcter_.x_ == w as i32 {
                    push_char(&mut s, '@');
                } else {
                    assert(self.points_[h as int][w as int] as int == self@.points[h as int][w as int]);
                    assert(0 <= self@.points[h as int][w as int] <= MAX_POINT);
                    push_point(&mut s, self.points_[h][w]);
                }
                assert(s@ =~= row + cell(h as int, w as int));
                assert(s@ =~= before + row_text(cell, h as int, w + 1));
                w = w + 1;
            }
            push_char(&mut s, '\n');
            assert(s@ =~= head + rows_text(cell, h + 1, W as int));
            h = h + 1;
        }
        s
    }

    /// Sets the evaluation to the points collected so far.
    pub fn evaluateScore(&mut self)
        ensures
            final(self)@ == old(self)@.evaluated(),
    {
        self.evaluated_score_ = self.game_score_ as i64;
    }

    /// Plays `action`.
    pub fn advance(&mut self, action: usize)
        requires
            old(self).wf(),
            !old(self)@.done(),
            old(self)@.can_move(action as int),
        ensures
            final(self)@ == old(self)@.step(action as int),
            final(self).wf(),
    {
        proof {
            lemma_step_wf(self@, action as int);
        }
        self.charcter_.x_ = self.charcter_.x_ + step_x(action);
        self.charcter_.y_ = self.charcter_.y_ + step_y(action);
        let y = self.charcter_.y_ as usize;
        let x = self.charcter_.x_ as usize;
        let point = self.points_[y][x];
        assert(point as int == old(self)@.points[y as int][x as int]);
        if point > 0 {
            self.game_score_ = self.game_score_ + point;
            self.points_[y][x] = 0;
        }
        self.turn_ = self.turn_ + 1;
        proof {
            let n = old(self)@.step(action as int);
            assert(self@.points =~~= n.points);
        }
    }

    /// The possible moves, in ascending order.
    pub fn legalActions(&self) -> (actions: Vec<usize>)
        requires
            self.wf(),
        ensures
            actions@ == self@.legal(),
    {
        let mut actions: Vec<usize> = Vec::new();
        let ghost allowed = |a: int| self@.can_move(a);
        let mut action: usize = 0;
        while action < 4
            invariant
                action <= 4,
                self.wf(),
                allowed == (|a: int| self@.can_move(a)),
                actions@ == moves_below(allowed, action as int),
            decreases 4 - action,
        {
            let ty = self.charcter_.y_ + step_y(action);
            let tx = self.charcter_.x_ + step_x(action);
            if ty >= 0 && ty < H as i32 && tx >= 0 && tx < W as i32 {
                actions.push(action);
            }
            action = action + 1;
        }
        actions
    }
}

/// A possible move of `state`, picked by a number drawn from `rng`.
pub fn randomAction(state: &MazeState, rng: &mut StdRng) -> (action: usize)
    requires
        state.wf(),
    ensures
        state@.legal().contains(action),
        state@.can_move(action as int),
{
    let legal_actions = state.legalActions();
    proof {
        lemma_two_moves(state@);
    }
    let drawn = random_i32(rng, 0, 11) as usize;
    let action = legal_actions[drawn % legal_actions.len()];
    assert(state@.legal().contains(action));
    action
}

/// The points collected after each possible move, in the order of the moves.
pub open spec fn gains(v: MazeView) -> Seq<int> {
    v.legal().map_values(|a: usize| v.step(a as int).game_score)
}

/// The possible move after which the most points are collected; of several
/// such moves, the first.
pub fn greedyAction(state: &MazeState) -> (action: usize)
    requires
        state.wf(),
        !state@.done(),
    ensures
        action == state@.legal()[first_max(gains(state@))],
        state@.can_move(action as int),
{
    let legal_actions = state.legalActions();
    proof {
        lemma_two_moves(state@);
    }
    let mut scores: Vec<i64> = Vec::new();
    let mut i: usize = 0;
    while i < legal_actions.len()
        invariant
            i <= legal_actions.len(),
            state.wf(),
            !state@.done(),
            legal_actions@ == state@.legal(),
            forall|a: usize| state@.legal().contains(a) <==> state@.can_move(a as int),
            scores.len() == i,
            forall|k: int| 0 <= k < i ==> scores[k] as int == gains(state@)[k],
        decreases legal_actions.len() - i,
    {
        let action = legal_actions[i];
        assert(state@.legal().contains(action));
        let mut now_state = state.clone();
        now_state.advance(action);
        now_state.evaluateScore();
        scores.push(now_state.evaluated_score_);
        i = i + 1;
    }
    assert(ints(scores@) =~= gains(state@));
    let best = firstMaxIndex(&scores);
    let action = legal_actions[best];
    assert(state@.legal().contains(action));
    action
}

/// A position as a candidate of a search, ranked by its evaluation.
pub open spec fn candidate(v: MazeView) -> Ranked<MazeView> {
    Ranked { score: v.evaluated_score as i64, item: v }
}

/// What the candidates of a beam stand for.
pub open spec fn views(s: Seq<Ranked<MazeState>>) -> Seq<Ranked<MazeView>> {
    s.map_values(|r: Ranked<MazeState>| Ranked { score: r.score, item: r.item@ })
}

/// The position that `action` leads to from `v`, evaluated. On the first
/// level of a search it is labelled with the move.
pub open spec fn child(v: MazeView, action: usize, first: bool) -> MazeView {
    let next = v.step(action as int).evaluated();
    if first {
        next.labelled(action)
    } else {
        next
    }
}

/// `next` with the children of `v` by its first `n` possible moves placed
/// into it, one after the other.
pub open spec fn expanded(next: Seq<Ranked<MazeView>>, v: MazeView, first: bool, n: int) -> Seq<
    Ranked<MazeView>,
>
    decreases n,
{
    if n <= 0 {
        next
    } else {
        placed(expanded(next, v, first, n - 1), candidate(child(v, v.legal()[n - 1], first)))
    }
}

/// The beam that the best `taken` candidates of `now` expand to.
pub open spec fn next_beam(now: Seq<Ranked<MazeView>>, first: bool, taken: int) -> Seq<
    Ranked<MazeView>,
>
    decreases taken,
{
    if taken <= 0 {
        Seq::empty()
    } else {
        let v = now[taken - 1].item;
        expanded(next_beam(now, first, taken - 1), v, first, v.legal().len() as int)
    }
}

/// Number of candidates of a beam of `len` that a search of `width` expands.
pub open spec fn taken_of(width: int, len: int) -> int {
    if width < len {
        width
    } else {
        len
    }
}

/// Every candidate of a level is a valid position at turn `turn`, ranked by
/// its evaluation; below the root it carries a possible move of `root` as
/// its first move, and above that it is the root.
pub open spec fn level_ok(s: Seq<Ranked<MazeView>>, root: MazeView, turn: int, below: bool) -> bool {
    forall|i: int|
        0 <= i < s.len() ==> {
            &&& (#[trigger] s[i]).item.wf()
            &&& s[i].item.turn == turn
            &&& s[i].score == s[i].item.evaluated_score
            &&& below ==> root.can_move(s[i].item.first_action as int)
            &&& !below ==> s[i].item == root
        }
}

/// Placing a candidate that fits a level keeps the level.
pub proof fn lemma_level_placed(
    s: Seq<Ranked<MazeView>>,
    c: Ranked<MazeView>,
    root: MazeView,
    turn: int,
    below: bool,
)
    requires
        level_ok(s, root, turn, below),
        level_ok(seq![c], root, turn, below),
    ensures
        level_ok(placed(s, c), root, turn, below),
{
    lemma_rank_of(s, c.score as int);
    let k = rank_of(s, c.score as int);
    let p = placed(s, c);
    assert forall|i: int| 0 <= i < p.len() implies {
        &&& (#[trigger] p[i]).item.wf()
        &&& p[i].item.turn == turn
        &&& p[i].score == p[i].item.evaluated_score
        &&& below ==> root.can_move(p[i].item.first_action as int)
        &&& !below ==> p[i].item == root
    } by {
        if i < k {
            assert(p[i] == s[i]);
        } else if i == k {
            assert(p[i] == seq![c][0]);
        } else {
            assert(p[i] == s[i - 1]);
        }
    }
}

/// The candidate that beam search ends on from the beam `now` with `depth`
/// levels left to build: the best candidate of the last level built, or
/// `best` where none is built.
pub open spec fn beam_top(
    now: Seq<Ranked<MazeView>>,
    width: int,
    depth: nat,
    first: bool,
    best: Ranked<MazeView>,
) -> Ranked<MazeView>
    decreases depth,
{
    if depth == 0 || now.len() == 0 || now[0].item.done() {
        best
    } else {
        let next = next_beam(now, first, taken_of(width, now.len() as int));
        if next.len() == 0 {
            best
        } else {
            beam_top(next, width, (depth - 1) as nat, false, next[0])
        }
    }
}

/// A candidate placed into a descending beam leaves the best no worse, and
/// is itself no better than the best.
pub proof fn lemma_placed_top(s: Seq<Ranked<MazeView>>, c: Ranked<MazeView>)
    requires
        descending(s),
    ensures
        descending(placed(s, c)),
        placed(s, c).len() == s.len() + 1,
        placed(s, c)[0].score >= c.score,
        s.len() > 0 ==> placed(s, c)[0].score >= s[0].score,
{
    lemma_placed_descending(s, c);
    lemma_rank_of(s, c.score as int);
}

/// The children of a valid position that is not over, placed into a level,
/// keep the level, add one candidate for each move, and leave the best of
/// the level no worse.
pub proof fn lemma_expanded(
    next: Seq<Ranked<MazeView>>,
    v: MazeView,
    first: bool,
    n: int,
    root: MazeView,
)
    requires
        descending(next),
        level_ok(next, root, v.turn + 1, true),
        v.wf(),
        !v.done(),
        0 <= n <= v.legal().len(),
        first ==> root == v,
        !first ==> root.can_move(v.first_action as int),
    ensures
        descending(expanded(next, v, first, n)),
        level_ok(expanded(next, v, first, n), root, v.turn + 1, true),
        expanded(next, v, first, n).len() == next.len() + n,
        next.len() > 0 ==> expanded(next, v, first, n)[0].score >= next[0].score,
    decreases n,
{
    if n > 0 {
        lemma_expanded(next, v, first, n - 1, root);
        lemma_two_moves(v);
        let action = v.legal()[n - 1];
        assert(v.legal().contains(action));
        lemma_step_wf(v, action as int);
        let before = expanded(next, v, first, n - 1);
        let c = candidate(child(v, action, first));
        lemma_placed_top(before, c);
        lemma_level_placed(before, c, root, v.turn + 1, true);
    }
}

/// The level that the best `taken` candidates of a level expand to is a
/// level, holds at least two candidates for each one expanded, and its best
/// is no worse than that of the level that fewer candidates expand to.
pub proof fn lemma_next_beam(
    now: Seq<Ranked<MazeView>>,
    first: bool,
    fewer: int,
    taken: int,
    root: MazeView,
    turn: int,
)
    requires
        level_ok(now, root, turn, !first),
        turn < END_TURN,
        0 <= fewer <= taken <= now.len(),
    ensures
        descending(next_beam(now, first, taken)),
        level_ok(next_beam(now, first, taken), root, turn + 1, true),
        next_beam(now, first, taken).len() >= 2 * taken,
        next_beam(now, first, taken).len() >= next_beam(now, first, fewer).len(),
        next_beam(now, first, fewer).len() > 0 ==> next_beam(now, first, taken)[0].score
            >= next_beam(now, first, fewer)[0].score,
    decreases taken,
{
    if taken > 0 {
        let v = now[taken - 1].item;
        let fewer_before = if fewer < taken {
            fewer
        } else {
            taken - 1
        };
        lemma_next_beam(now, first, fewer_before, taken - 1, root, turn);
        lemma_two_moves(v);
        lemma_expanded(next_beam(now, first, taken - 1), v, first, v.legal().len() as int, root);
    }
}

/// With one or two levels to build, a wider beam ends on a candidate that
/// is evaluated no worse than the one a narrower beam ends on.
pub proof fn lemma_wider_beam_no_worse(root: MazeView, narrow: int, wide: int, depth: nat)
    requires
        root.wf(),
        1 <= narrow <= wide,
        depth <= 2,
    ensures
        beam_top(seq![candidate(root)], wide, depth, true, candidate(root)).score >= beam_top(
            seq![candidate(root)],
            narrow,
            depth,
            true,
            candidate(root),
        ).score,
{
    let start = seq![candidate(root)];
    let me = candidate(root);
    assert(start[0].item == root);
    if depth > 0 && !root.done() {
        assert(taken_of(narrow, 1) == 1 && taken_of(wide, 1) == 1);
        let one = next_beam(start, true, 1);
        assert(level_ok(start, root, root.turn, false));
        lemma_next_beam(start, true, 1, 1, root, root.turn);
        assert(one.len() >= 2);
        let rest = (depth - 1) as nat;
        assert(beam_top(start, narrow, depth, true, me) == beam_top(one, narrow, rest, false, one[0]));
        assert(beam_top(start, wide, depth, true, me) == beam_top(one, wide, rest, false, one[0]));
        if depth == 2 && !one[0].item.done() {
            let few = taken_of(narrow, one.len() as int);
            let many = taken_of(wide, one.len() as int);
            assert(one[0].item.turn == root.turn + 1);
            lemma_next_beam(one, false, few, many, root, root.turn + 1);
            lemma_next_beam(one, false, few, few, root, root.turn + 1);
            let low = next_beam(one, false, few);
            let high = next_beam(one, false, many);
            assert(beam_top(one, narrow, 1, false, one[0]) == beam_top(low, narrow, 0, false, low[0]));
            assert(beam_top(one, wide, 1, false, one[0]) == beam_top(high, wide, 0, false, high[0]));
            assert(beam_top(low, narrow, 0, false, low[0]) == low[0]);
            assert(beam_top(high, wide, 0, false, high[0]) == high[0]);
        } else if depth == 2 {
            assert(beam_top(one, narrow, 1, false, one[0]) == one[0]);
            assert(beam_top(one, wide, 1, false, one[0]) == one[0]);
        } else {
            assert(beam_top(one, narrow, 0, false, one[0]) == one[0]);
            assert(beam_top(one, wide, 0, false, one[0]) == one[0]);
        }
    } else {
        assert(beam_top(start, narrow, depth, true, me) == me);
        assert(beam_top(start, wide, depth, true, me) == me);
    }
}

/// Places the children of `state` into `next`.
fn expand_into(next: &mut Beam<MazeState>, state: &MazeState, first: bool, Ghost(root): Ghost<MazeView>)
    requires
        old(next).wf(),
        state.wf(),
        !state@.done(),
        level_ok(views(old(next)@), root, state@.turn + 1, true),
        first ==> root == state@,
        !first ==> root.can_move(state@.first_action as int),
    ensures
        final(next).wf(),
        views(final(next)@) == expanded(
            views(old(next)@),
            state@,
            first,
            state@.legal().len() as int,
        ),
        level_ok(views(final(next)@), root, state@.turn + 1, true),
        final(next)@.len() == old(next)@.len() + state@.legal().len(),
{
    let legal_actions = state.legalActions();
    proof {
        lemma_two_moves(state@);
    }
    let mut i: usize = 0;
    while i < legal_actions.len()
        invariant
            i <= legal_actions.len(),
            next.wf(),
            state.wf(),
            !state@.done(),
            legal_actions@ == state@.legal(),
            forall|a: usize| state@.legal().contains(a) <==> state@.can_move(a as int),
            first ==> root == state@,
            !first ==> root.can_move(state@.first_action as int),
            views(next@) == expanded(views(old(next)@), state@, first, i as int),
            level_ok(views(next@), root, state@.turn + 1, true),
            next@.len() == old(next)@.len() + i,
        decreases legal_actions.len() - i,
    {
        let action = legal_actions[i];
        assert(state@.legal().contains(action));
        let mut next_state = state.clone();
        next_state.advance(action);
        next_state.evaluateScore();
        if first {
            next_state.first_action_ = action;
        }
        let ghost before = next@;
        let ghost c = Ranked { score: next_state.evaluated_score_, item: next_state };
        next.push(next_state.evaluated_score_, next_state);
        proof {
            let cv = candidate(child(state@, action, first));
            assert(next_state@ == child(state@, action, first));
            assert(cv == Ranked { score: c.score, item: c.item@ });
            lemma_rank_of(before, c.score as int);
            lemma_rank_of_same_scores(before, views(before), c.score as int);
            assert(views(placed(before, c)) =~= placed(views(before), cv));
            lemma_level_placed(views(before), cv, root, state@.turn + 1, true);
        }
        i = i + 1;
    }
}

/// Beam search: from `state`, builds up to `beam_depth` levels, each from the
/// best `beam_width` candidates of the one before, and gives the best
/// candidate of the last level built. Where no level can be built, with no
/// width, no depth, or a finished game, it gives `state` itself, labelled
/// with `INVALID_ACTION`.
pub fn beamSearch(state: &MazeState, beam_width: usize, beam_depth: usize) -> (best: MazeState)
    requires
        state.wf(),
    ensures
        best.wf(),
        candidate(best@) == beam_top(
            seq![candidate(state@.labelled(INVALID_ACTION))],
            beam_width as int,
            beam_depth as nat,
            true,
            candidate(state@.labelled(INVALID_ACTION)),
        ),
        beam_width >= 1 && beam_depth >= 1 && !state@.done() ==> state@.can_move(
            best@.first_action as int,
        ),
        !(beam_width >= 1 && beam_depth >= 1 && !state@.done()) ==> best@ == state@.labelled(
            INVALID_ACTION,
        ),
{
    let mut best_state = state.clone();
    best_state.first_action_ = INVALID_ACTION;
    let ghost root = best_state@;
    let mut now_beam: Beam<MazeState> = Beam::new();
    now_beam.push(best_state.evaluated_score_, best_state);
    proof {
        assert(root == state@.labelled(INVALID_ACTION));
        assert(views(now_beam@) =~= seq![candidate(root)]);
    }
    let mut t: usize = 0;
    while t < beam_depth
        invariant
            t <= beam_depth,
            state.wf(),
            root == state@.labelled(INVALID_ACTION),
            now_beam.wf(),
            best_state.wf(),
            level_ok(views(now_beam@), root, root.turn + t, t > 0),
            t == 0 ==> views(now_beam@) == seq![candidate(root)] && best_state@ == root,
            t > 0 ==> now_beam@.len() > 0 && beam_width >= 1 && !root.done() && root.can_move(
                best_state@.first_action as int,
            ),
            beam_top(
                seq![candidate(root)],
                beam_width as int,
                beam_depth as nat,
                true,
                candidate(root),
            ) == beam_top(
                views(now_beam@),
                beam_width as int,
                (beam_depth - t) as nat,
                t == 0,
                candidate(best_state@),
            ),
        decreases beam_depth - t,
    {
        if now_beam.is_empty() {
            return best_state;
        }
        assert(views(now_beam@)[0].item == now_beam@[0].item@);
        if now_beam.peek().item.isDone() {
            return best_state;
        }
        let first = t == 0;
        let ghost now = views(now_beam@);
        let taken = if beam_width < now_beam.len() {
            beam_width
        } else {
            now_beam.len()
        };
        let mut grown: Beam<MazeState> = Beam::new();
        let mut i: usize = 0;
        proof {
            assert(views(grown@) =~= next_beam(now, first, 0));
            assert(now.skip(0) =~= now);
        }
        while i < taken
            invariant
                i <= taken,
                taken == taken_of(beam_width as int, now.len() as int),
                first == (t == 0),
                grown.wf(),
                now_beam.wf(),
                now.len() > 0,
                !now[0].item.done(),
                level_ok(now, root, root.turn + t, t > 0),
                t == 0 ==> now == seq![candidate(root)],
                views(now_beam@) == now.skip(i as int),
                views(grown@) == next_beam(now, first, i as int),
                level_ok(views(grown@), root, root.turn + t + 1, true),
                grown@.len() >= 2 * i,
            decreases taken - i,
        {
            assert(now.skip(i as int).len() == now.len() - i);
            assert(views(now_beam@).len() == now_beam@.len());
            assert(views(now_beam@)[0] == now[i as int]);
            assert(views(now_beam@)[0].item == now_beam@[0].item@);
            let ghost before = now_beam@;
            let top = now_beam.pop();
            proof {
                assert(top.item@ == now[i as int].item);
                assert(now[i as int].item.turn == now[0].item.turn);
                lemma_two_moves(top.item@);
                assert forall|k: int| 0 <= k < now_beam@.len() implies views(now_beam@)[k]
                    == now.skip(i + 1)[k] by {
                    assert(now_beam@[k] == before[k + 1]);
                    assert(views(before)[k + 1] == now.skip(i as int)[k + 1]);
                }
                assert(views(now_beam@) =~= now.skip(i + 1));
            }
            expand_into(&mut grown, &top.item, first, Ghost(root));
            i = i + 1;
        }
        if grown.is_empty() {
            return best_state;
        }
        assert(views(grown@)[0].item == grown@[0].item@);
        assert(views(grown@)[0] == candidate(grown@[0].item@));
        best_state = grown.peek().item;
        now_beam = grown;
        t = t + 1;
    }
    best_state
}

/// The first move of the candidate that beam search ends on;
/// `INVALID_ACTION` exactly when no level can be built: with no width, no
/// depth, or a finished game.
pub fn beamSearchAction(state: &MazeState, beam_width: usize, beam_depth: usize) -> (action: usize)
    requires
        state.wf(),
    ensures
        action == beam_top(
            seq![candidate(state@.labelled(INVALID_ACTION))],
            beam_width as int,
            beam_depth as nat,
            true,
            candidate(state@.labelled(INVALID_ACTION)),
        ).item.first_action,
        beam_width >= 1 && beam_depth >= 1 && !state@.done() ==> state@.can_move(action as int),
        !(beam_width >= 1 && beam_depth >= 1 && !state@.done()) ==> action == INVALID_ACTION,
{
    let best = beamSearch(state, beam_width, beam_depth);
    best.first_action_
}

/// What the beams of a chokudai search stand for, by level.
pub open spec fn beam_views(beams: Seq<Beam<MazeState>>) -> Seq<Seq<Ranked<MazeView>>> {
    beams.map_values(|b: Beam<MazeState>| views(b@))
}

/// The beams at the start of a chokudai search of `depth` levels: the root,
/// labelled with no move, alone on level 0.
pub open spec fn choku_start(root: MazeView, depth: int) -> Seq<Seq<Ranked<MazeView>>> {
    Seq::new(
        (depth + 1) as nat,
        |t: int|
            if t == 0 {
                seq![candidate(root.labelled(INVALID_ACTION))]
            } else {
                Seq::empty()
            },
    )
}

/// Level `t` gives nothing to expand: it is empty, or its best candidate is
/// a finished game.
pub open spec fn choku_idle(beams: Seq<Seq<Ranked<MazeView>>>, t: int) -> bool {
    beams[t].len() == 0 || beams[t][0].item.done()
}

/// The beams after the best candidate of level `t` is taken out and its
/// children are placed into level `t + 1`.
pub open spec fn choku_expand(beams: Seq<Seq<Ranked<MazeView>>>, t: int) -> Seq<
    Seq<Ranked<MazeView>>,
> {
    let v = beams[t][0].item;
    beams.update(t, beams[t].drop_first()).update(
        t + 1,
        expanded(beams[t + 1], v, t == 0, v.legal().len() as int),
    )
}

/// The beams after up to `n` expansions at level `t`, which end early when
/// the level is idle.
pub open spec fn choku_level(beams: Seq<Seq<Ranked<MazeView>>>, t: int, n: nat) -> Seq<
    Seq<Ranked<MazeView>>,
>
    decreases n,
{
    if n == 0 || choku_idle(beams, t) {
        beams
    } else {
        choku_level(choku_expand(beams, t), t, (n - 1) as nat)
    }
}

/// The beams after the levels `from` to `depth - 1` were each expanded up to
/// `width` times, in this order.
pub open spec fn choku_sweep(
    beams: Seq<Seq<Ranked<MazeView>>>,
    width: nat,
    from: int,
    depth: int,
) -> Seq<Seq<Ranked<MazeView>>>
    decreases depth - from,
{
    if from >= depth {
        beams
    } else {
        choku_sweep(choku_level(beams, from, width), width, from + 1, depth)
    }
}

/// The beams after `n` sweeps.
pub open spec fn choku_rounds(
    beams: Seq<Seq<Ranked<MazeView>>>,
    width: nat,
    depth: int,
    n: nat,
) -> Seq<Seq<Ranked<MazeView>>>
    decreases n,
{
    if n == 0 {
        beams
    } else {
        choku_rounds(choku_sweep(beams, width, 0, depth), width, depth, (n - 1) as nat)
    }
}

/// The first move of the best candidate of the deepest level among
/// `0..=upto` that is not empty; `INVALID_ACTION` where all are empty.
pub open spec fn choku_pick(beams: Seq<Seq<Ranked<MazeView>>>, upto: int) -> usize
    decreases upto + 1,
{
    if upto < 0 {
        INVALID_ACTION
    } else if beams[upto].len() > 0 {
        beams[upto][0].item.first_action
    } else {
        choku_pick(beams, upto - 1)
    }
}

/// The move that chokudai search gives.
pub open spec fn choku_choice(root: MazeView, width: nat, depth: int, number: nat) -> usize {
    choku_pick(choku_rounds(choku_start(root, depth), width, depth, number), depth)
}

/// Every level of a chokudai search is in descending order and holds valid
/// positions of its turn, labelled below level 0 with a possible move of the
/// root.
pub open spec fn choku_ok(beams: Seq<Seq<Ranked<MazeView>>>, root: MazeView, depth: int) -> bool {
    &&& beams.len() == depth + 1
    &&& forall|t: int|
        0 <= t <= depth ==> descending(#[trigger] beams[t]) && level_ok(
            beams[t],
            root,
            root.turn + t,
            t > 0,
        )
}

/// Where a level below the root is not empty, the pick is a possible move of
/// the root.
pub proof fn lemma_pick_below(
    beams: Seq<Seq<Ranked<MazeView>>>,
    root: MazeView,
    depth: int,
    upto: int,
    level: int,
)
    requires
        choku_ok(beams, root, depth),
        1 <= level <= upto <= depth,
        beams[level].len() > 0,
    ensures
        root.can_move(choku_pick(beams, upto) as int),
    decreases upto,
{
    if beams[upto].len() > 0 {
        assert(level_ok(beams[upto], root, root.turn + upto, upto > 0));
        assert(root.can_move(beams[upto][0].item.first_action as int));
    } else {
        lemma_pick_below(beams, root, depth, upto - 1, level);
    }
}

/// At the start of a search the pick is `INVALID_ACTION`.
pub proof fn lemma_pick_start(root: MazeView, depth: int, upto: int)
    requires
        0 <= upto <= depth,
    ensures
        choku_pick(choku_start(root, depth), upto) == INVALID_ACTION,
    decreases upto,
{
    if upto > 0 {
        lemma_pick_start(root, depth, upto - 1);
    } else {
        assert(choku_pick(choku_start(root, depth), -1) == INVALID_ACTION);
    }
}

/// Whether level `t` gives nothing to expand.
fn level_idle(beams: &Vec<Beam<MazeState>>, t: usize) -> (idle: bool)
    requires
        t < beams.len(),
    ensures
        idle == choku_idle(beam_views(beams@), t as int),
{
    assert(beam_views(beams@)[t as int] == views(beams[t as int]@));
    if beams[t].is_empty() {
        true
    } else {
        assert(views(beams[t as int]@)[0].item == beams[t as int]@[0].item@);
        beams[t].peek().item.isDone()
    }
}

/// Chokudai search: keeps one beam per level, and `beam_number` times over
/// expands up to `beam_width` best candidates of every level but the last
/// into the next level, leaving a level alone once its best candidate is a
/// finished game. It gives the first move of the best candidate of the
/// deepest level that is not empty. It gives `INVALID_ACTION` exactly when
/// the root was never expanded: with no sweep, no width, no depth, or a
/// finished game.
pub fn chokudaiSearchAction(
    state: &MazeState,
    beam_width: usize,
    beam_depth: usize,
    beam_number: usize,
) -> (action: usize)
    requires
        state.wf(),
        beam_depth < usize::MAX,
    ensures
        action == choku_choice(state@, beam_width as nat, beam_depth as int, beam_number as nat),
        beam_number >= 1 && beam_width >= 1 && beam_depth >= 1 && !state@.done()
            ==> state@.can_move(action as int),
        !(beam_number >= 1 && beam_width >= 1 && beam_depth >= 1 && !state@.done()) ==> action
            == INVALID_ACTION,
{
    let ghost width = beam_width as nat;
    let ghost depth = beam_depth as int;
    let mut beam: Vec<Beam<MazeState>> = Vec::new();
    let mut t: usize = 0;
    while t < beam_depth + 1
        invariant
            t <= beam_depth + 1,
            beam_depth < usize::MAX,
            beam.len() == t,
            forall|k: int| 0 <= k < t ==> (#[trigger] beam[k]).wf() && beam[k]@.len() == 0,
        decreases beam_depth + 1 - t,
    {
        beam.push(Beam::new());
        t = t + 1;
    }
    let mut root_state = state.clone();
    root_state.first_action_ = INVALID_ACTION;
    let ghost root = root_state@;
    beam[0].push(root_state.evaluated_score_, root_state);
    let ghost start = choku_start(state@, depth);
    proof {
        assert(root == state@.labelled(INVALID_ACTION));
        assert(views(beam[0]@) =~= seq![candidate(root)]);
        assert forall|k: int| 0 <= k < beam.len() implies beam_views(beam@)[k] == start[k] by {
            if k > 0 {
                assert(views(beam[k]@) =~= Seq::empty());
            }
        }
        assert(beam_views(beam@) =~= start);
        assert(choku_ok(start, root, depth)) by {
            assert forall|k: int| 0 <= k <= depth implies descending(#[trigger] start[k])
                && level_ok(start[k], root, root.turn + k, k > 0) by {}
        }
    }
    let ghost mut popped = false;
    let ghost mut witness: int = 0;
    let mut cnt: usize = 0;
    while cnt < beam_number
        invariant
            cnt <= beam_number,
            state.wf(),
            root == state@.labelled(INVALID_ACTION),
            beam.len() == beam_depth + 1,
            width == beam_width,
            depth == beam_depth,
            start == choku_start(state@, depth),
            forall|k: int| 0 <= k < beam.len() ==> (#[trigger] beam[k]).wf(),
            choku_ok(beam_views(beam@), root, depth),
            !popped ==> beam_views(beam@) == start,
            popped ==> 1 <= witness <= depth && beam_views(beam@)[witness].len() > 0,
            popped ==> beam_width >= 1 && beam_depth >= 1 && !root.done(),
            cnt > 0 && beam_depth >= 1 && beam_width >= 1 && !root.done() ==> popped,
            choku_rounds(start, width, depth, beam_number as nat) == choku_rounds(
                beam_views(beam@),
                width,
                depth,
                (beam_number - cnt) as nat,
            ),
        decreases beam_number - cnt,
    {
        let ghost round_start = beam_views(beam@);
        let mut t: usize = 0;
        while t < beam_depth
            invariant
                t <= beam_depth,
                state.wf(),
                root == state@.labelled(INVALID_ACTION),
                beam.len() == beam_depth + 1,
                width == beam_width,
                depth == beam_depth,
                start == choku_start(state@, depth),
                forall|k: int| 0 <= k < beam.len() ==> (#[trigger] beam[k]).wf(),
                choku_ok(beam_views(beam@), root, depth),
                !popped ==> beam_views(beam@) == start,
                popped ==> 1 <= witness <= depth && beam_views(beam@)[witness].len() > 0,
                popped ==> beam_width >= 1 && beam_depth >= 1 && !root.done(),
                t > 0 && beam_width >= 1 && !root.done() ==> popped,
                choku_sweep(round_start, width, 0, depth) == choku_sweep(
                    beam_views(beam@),
                    width,
                    t as int,
                    depth,
                ),
            decreases beam_depth - t,
        {
            let ghost level_start = beam_views(beam@);
            let mut i: usize = 0;
            let mut idle = level_idle(&beam, t);
            while i < beam_width && !idle
                invariant
                    i <= beam_width,
                    idle == choku_idle(beam_views(beam@), t as int),
                    t < beam_depth,
                    state.wf(),
                    root == state@.labelled(INVALID_ACTION),
                    beam.len() == beam_depth + 1,
                    width == beam_width,
                    depth == beam_depth,
                    start == choku_start(state@, depth),
                    forall|k: int| 0 <= k < beam.len() ==> (#[trigger] beam[k]).wf(),
                    choku_ok(beam_views(beam@), root, depth),
                    !popped ==> beam_views(beam@) == start,
                    popped ==> 1 <= witness <= depth && beam_views(beam@)[witness].len() > 0,
                    popped ==> beam_width >= 1 && beam_depth >= 1 && !root.done(),
                    i > 0 ==> popped,
                    t > 0 && beam_width >= 1 && !root.done() ==> popped,
                    choku_level(level_start, t as int, width) == choku_level(
                        beam_views(beam@),
                        t as int,
                        (width - i) as nat,
                    ),
                decreases beam_width - i,
            {
                let ghost before = beam_views(beam@);
                let ghost old_beam = beam@;
                proof {
                    assert(before[t as int] == views(beam[t as int]@));
                    assert(before[t + 1] == views(beam[t + 1]@));
                    assert(views(beam[t as int]@)[0].item == beam[t as int]@[0].item@);
                    assert(level_ok(before[t as int], root, root.turn + t, t > 0));
                    assert(level_ok(before[t + 1], root, root.turn + t + 1, true));
                    if !popped {
                        assert(t == 0);
                    }
                }
                let top = beam[t].pop();
                proof {
                    lemma_two_moves(top.item@);
                }
                expand_into(&mut beam[t + 1], &top.item, t == 0, Ghost(root));
                proof {
                    let after = beam_views(beam@);
                    let want = choku_expand(before, t as int);
                    assert forall|k: int| 0 <= k < after.len() implies after[k] == want[k] by {
                        if k == t {
                            assert forall|j: int| 0 <= j < beam[k]@.len() implies views(
                                beam[k]@,
                            )[j] == before[k].drop_first()[j] by {
                                assert(beam[k]@[j] == old_beam[k]@[j + 1]);
                                assert(views(old_beam[k]@)[j + 1] == before[k][j + 1]);
                            }
                            assert(views(beam[k]@) =~= before[k].drop_first());
                        } else if k == t + 1 {
                        } else {
                            assert(beam[k] == old_beam[k]);
                        }
                    }
                    assert(after =~= want);
                    assert forall|k: int| 0 <= k <= depth implies descending(#[trigger] after[k])
                        && level_ok(after[k], root, root.turn + k, k > 0) by {
                        assert(after[k] == views(beam[k]@));
                        assert(descending(before[k]) && level_ok(
                            before[k],
                            root,
                            root.turn + k,
                            k > 0,
                        ));
                        if k == t {
                            assert forall|j: int| 0 <= j < after[k].len() implies {
                                &&& (#[trigger] after[k][j]).item.wf()
                                &&& after[k][j].item.turn == root.turn + k
                                &&& after[k][j].score == after[k][j].item.evaluated_score
                                &&& k > 0 ==> root.can_move(after[k][j].item.first_action as int)
                                &&& !(k > 0) ==> after[k][j].item == root
                            } by {
                                assert(after[k][j] == before[k][j + 1]);
                            }
                        } else if k == t + 1 {
                            assert forall|a: int, b: int| 0 <= a < b < after[k].len() implies after[k][a].score
                                >= after[k][b].score by {
                                assert(beam[k]@[a].score >= beam[k]@[b].score);
                            }
                        }
                    }
                    popped = true;
                    witness = t + 1;
                }
                i = i + 1;
                idle = level_idle(&beam, t);
            }
            proof {
                if !popped && beam_width >= 1 && !root.done() {
                    assert(start[0][0].item == root);
                    assert(!choku_idle(start, 0));
                }
            }
            t = t + 1;
        }
        cnt = cnt + 1;
    }
    let ghost last = beam_views(beam@);
    let mut t: usize = 0;
    while t <= beam_depth
        invariant
            t <= beam_depth + 1,
            beam_depth < usize::MAX,
            beam.len() == beam_depth + 1,
            depth == beam_depth,
            last == beam_views(beam@),
            root == state@.labelled(INVALID_ACTION),
            choku_ok(last, root, depth),
            !popped ==> last == choku_start(state@, depth),
            popped ==> 1 <= witness <= depth && last[witness].len() > 0,
            popped ==> beam_width >= 1 && beam_depth >= 1 && !root.done(),
            beam_number >= 1 && beam_depth >= 1 && beam_width >= 1 && !root.done() ==> popped,
            last == choku_rounds(
                choku_start(state@, depth),
                beam_width as nat,
                depth,
                beam_number as nat,
            ),
            choku_pick(last, depth) == choku_pick(last, depth - t),
        decreases beam_depth + 1 - t,
    {
        let level = beam_depth - t;
        assert(last[level as int] == views(beam[level as int]@));
        if !beam[level].is_empty() {
            assert(views(beam[level as int]@)[0].item == beam[level as int]@[0].item@);
            proof {
                if popped {
                    lemma_pick_below(last, root, depth, depth, witness);
                } else {
                    lemma_pick_start(state@, depth, depth);
                }
            }
            return beam[level].peek().item.first_action_;
        }
        t = t + 1;
    }
    proof {
        if popped {
            lemma_pick_below(last, root, depth, depth, witness);
        } else {
            lemma_pick_start(state@, depth, depth);
        }
    }
    INVALID_ACTION
}

} // verus!
