//! The single-player maze with walls. Its positions carry a Zobrist hash of
//! the board and the character's place, and are evaluated by the points
//! collected and the distance to the nearest cell that still holds points.
use crate::beam::{
    descending, lemma_placed_descending, lemma_rank_of, lemma_rank_of_same_scores, placed, rank_of, Beam,
    Ranked,
};
pub use crate::grid::Coord;
use crate::grid::{dx, dy, lemma_moves_below, moves_below, on_board, step_x, step_y, ACTION_COUNT};
use crate::random::{random_i32, random_u64, seeded_rng};
use crate::text::{decimal, point_text, push_char, push_decimal, push_point, row_text, rows_text};
use rand::rngs::StdRng;
use std::collections::HashSet;
use vstd::prelude::*;
use vstd::string::StringExecFns;

verus! {

/// Rows of the board.
pub const H: usize = 7;

/// Columns of the board.
pub const W: usize = 7;

/// Number of cells of the board.
pub const CELLS: usize = 49;

/// Number of turns of a game.
pub const END_TURN: i32 = 49;

/// Largest number of points a cell holds.
pub const MAX_POINT: i32 = 9;

/// What a search answers when it has no move to give. No move has this number.
pub const INVALID_ACTION: usize = 100000;

/// A cell of the board with its distance from where a search began.
#[derive(Debug, Clone, Copy)]
pub struct DistanceCoord {
    pub y_: i32,
    pub x_: i32,
    pub distance_: i32,
}

impl DistanceCoord {
    pub fn new(y: i32, x: i32, distance: i32) -> (c: Self)
        ensures
            c.y_ == y,
            c.x_ == x,
            c.distance_ == distance,
    {
        Self { y_: y, x_: x, distance_: distance }
    }

    /// The cell `coord` at distance 0.
    pub fn newFromCoord(coord: &Coord) -> (c: Self)
        ensures
            c.y_ == coord.y_,
            c.x_ == coord.x_,
            c.distance_ == 0,
    {
        Self { y_: coord.y_, x_: coord.x_, distance_: 0 }
    }
}

/// The keys of the Zobrist hash: one for each number of points on each
/// cell, and one for the character on each cell.
pub struct ZobristTable {
    points: [[[u64; 10]; W]; H],
    character: [[u64; W]; H],
}

impl ZobristTable {
    /// The key of `p` points on the cell `(y, x)`.
    pub closed spec fn point_key(&self, y: int, x: int, p: int) -> u64 {
        self.points[y][x][p]
    }

    /// The key of the character on the cell `(y, x)`.
    pub closed spec fn character_key(&self, y: int, x: int) -> u64 {
        self.character[y][x]
    }

    /// The table of keys, drawn from a fixed seed: it is the same whenever
    /// it is made.
    pub fn new() -> (table: Self) {
        let mut rng = seeded_rng(0);
        let mut point_keys: Vec<u64> = Vec::new();
        let mut k: usize = 0;
        while k < POINT_KEYS
            invariant
                k <= POINT_KEYS,
                point_keys.len() == k,
            decreases POINT_KEYS - k,
        {
            point_keys.push(random_u64(&mut rng));
            k = k + 1;
        }
        let mut rng = seeded_rng(0);
        let mut character_keys: Vec<u64> = Vec::new();
        let mut k: usize = 0;
        while k < CELLS
            invariant
                k <= CELLS,
                character_keys.len() == k,
            decreases CELLS - k,
        {
            character_keys.push(random_u64(&mut rng));
            k = k + 1;
        }
        Self::assemble(&point_keys, &character_keys)
    }

    /// The table whose keys are the given numbers: those of the points of a
    /// cell stand together, for 1 to 9 points in this order, cell after cell
    /// and rows first; those of the character stand cell after cell.
    fn assemble(point_keys: &Vec<u64>, character_keys: &Vec<u64>) -> (table: Self)
        requires
            point_keys.len() == POINT_KEYS,
            character_keys.len() == CELLS,
        ensures
            table.made_of(point_keys@, character_keys@),
    {
        let mut points: [[[u64; 10]; W]; H] = [[[0; 10]; W]; H];
        let mut character: [[u64; W]; H] = [[0; W]; H];
        let mut y: usize = 0;
        while y < H
            invariant
                y <= H,
                point_keys.len() == POINT_KEYS,
                character_keys.len() == CELLS,
                forall|i: int, j: int, q: int|
                    0 <= i < y && 0 <= j < W && 1 <= q <= 9 ==> #[trigger] points[i][j][q]
                        == point_keys[(i * W + j) * 9 + q - 1],
                forall|i: int, j: int|
                    0 <= i < y && 0 <= j < W ==> #[trigger] character[i][j] == character_keys[i * W
                        + j],
            decreases H - y,
        {
            let mut x: usize = 0;
            while x < W
                invariant
                    y < H,
                    x <= W,
                    point_keys.len() == POINT_KEYS,
                    character_keys.len() == CELLS,
                    forall|i: int, j: int, q: int|
                        0 <= i < y && 0 <= j < W && 1 <= q <= 9 ==> #[trigger] points[i][j][q]
                            == point_keys[(i * W + j) * 9 + q - 1],
                    forall|i: int, j: int|
                        0 <= i < y && 0 <= j < W ==> #[trigger] character[i][j]
                            == character_keys[i * W + j],
                    forall|j: int, q: int|
                        0 <= j < x && 1 <= q <= 9 ==> #[trigger] points[y as int][j][q]
                            == point_keys[(y * W + j) * 9 + q - 1],
                    forall|j: int|
                        0 <= j < x ==> #[trigger] character[y as int][j] == character_keys[y * W + j],
                decreases W - x,
            {
                let mut p: usize = 1;
                while p < 10
                    invariant
                        y < H,
                        x < W,
                        1 <= p <= 10,
                        point_keys.len() == POINT_KEYS,
                        forall|i: int, j: int, q: int|
                            0 <= i < y && 0 <= j < W && 1 <= q <= 9 ==> #[trigger] points[i][j][q]
                                == point_keys[(i * W + j) * 9 + q - 1],
                        forall|j: int, q: int|
                            0 <= j < x && 1 <= q <= 9 ==> #[trigger] points[y as int][j][q]
                                == point_keys[(y * W + j) * 9 + q - 1],
                        forall|q: int|
                            1 <= q < p ==> #[trigger] points[y as int][x as int][q] == point_keys[(y
                                * W + x) * 9 + q - 1],
                    decreases 10 - p,
                {
                    points[y][x][p] = point_keys[(y * W + x) * 9 + p - 1];
                    p = p + 1;
                }
                character[y][x] = character_keys[y * W + x];
                x = x + 1;
            }
            y = y + 1;
        }
        ZobristTable { points, character }
    }

    /// The table is made of the given keys: the key of `p` points on the
    /// cell `(y, x)` is number `(y * W + x) * 9 + p - 1` of `point_keys`,
    /// and the key of the character on that cell is number `y * W + x` of
    /// `character_keys`.
    pub open spec fn made_of(&self, point_keys: Seq<u64>, character_keys: Seq<u64>) -> bool {
        &&& forall|y: int, x: int, p: int|
            0 <= y < H && 0 <= x < W && 1 <= p <= MAX_POINT ==> #[trigger] self.point_key(y, x, p)
                == point_keys[(y * W + x) * 9 + p - 1]
        &&& forall|y: int, x: int|
            0 <= y < H && 0 <= x < W ==> #[trigger] self.character_key(y, x) == character_keys[y * W
                + x]
    }

    /// The table made of the given keys, where they are as many as a table
    /// has: 9 for each cell for the points, one for each cell for the
    /// character.
    pub fn fromKeys(point_keys: &Vec<u64>, character_keys: &Vec<u64>) -> (made: Option<Self>)
        ensures
            made.is_some() <==> point_keys.len() == POINT_KEYS && character_keys.len() == CELLS,
            made matches Some(table) ==> table.made_of(point_keys@, character_keys@),
    {
        if point_keys.len() == POINT_KEYS && character_keys.len() == CELLS {
            Some(Self::assemble(point_keys, character_keys))
        } else {
            None
        }
    }
}

/// Number of keys for the points in a table: 9 for each cell.
pub const POINT_KEYS: usize = 441;

/// A position of the maze with walls, with the labels that a search
/// attaches to it and its hash.
#[derive(Debug, Clone, Copy)]
pub struct WallMazeState {
    points_: [[i32; W]; H],
    walls_: [[i32; W]; H],
    turn_: i32,
    charcter_: Coord,
    game_score_: i32,
    evaluated_score_: i32,
    first_action_: usize,
    hash_: u64,
}

/// What a `WallMazeState` stands for.
pub struct WallView {
    /// Points by row and column.
    pub points: Seq<Seq<int>>,
    /// Walls by row and column: 1 for a wall, 0 for a free cell.
    pub walls: Seq<Seq<int>>,
    pub turn: int,
    /// Row of the character.
    pub y: int,
    /// Column of the character.
    pub x: int,
    pub game_score: int,
    pub evaluated_score: int,
    pub first_action: usize,
    pub hash: u64,
}

/// The key that cell number `c`, rows first, adds to the hash of a board:
/// that of its points where it holds any, else 0.
pub open spec fn cell_key(table: &ZobristTable, points: Seq<Seq<int>>, c: int) -> u64 {
    let y = c / W as int;
    let x = c % W as int;
    if points[y][x] > 0 {
        table.point_key(y, x, points[y][x])
    } else {
        0
    }
}

/// The keys of the first `n` cells of a board, combined by exclusive or.
pub open spec fn points_hash(table: &ZobristTable, points: Seq<Seq<int>>, n: nat) -> u64
    decreases n,
{
    if n == 0 {
        0
    } else {
        points_hash(table, points, (n - 1) as nat) ^ cell_key(table, points, n - 1)
    }
}

/// The hash of a board with the character on `(y, x)`: the key of the
/// character's cell and the keys of all cells that hold points, combined
/// by exclusive or.
pub open spec fn zobrist(table: &ZobristTable, points: Seq<Seq<int>>, y: int, x: int) -> u64 {
    table.character_key(y, x) ^ points_hash(table, points, CELLS as nat)
}

/// The board with the cell `(y, x)` emptied.
pub open spec fn emptied(points: Seq<Seq<int>>, y: int, x: int) -> Seq<Seq<int>> {
    points.update(y, points[y].update(x, 0))
}

/// Emptying a cell takes its key out of the hash of the board.
pub proof fn lemma_points_hash_emptied(
    table: &ZobristTable,
    points: Seq<Seq<int>>,
    y: int,
    x: int,
    n: nat,
)
    requires
        points.len() == H,
        forall|i: int| 0 <= i < H ==> (#[trigger] points[i]).len() == W,
        0 <= y < H,
        0 <= x < W,
        n <= CELLS,
    ensures
        points_hash(table, emptied(points, y, x), n) == if y * W + x < n {
            points_hash(table, points, n) ^ cell_key(table, points, y * W + x)
        } else {
            points_hash(table, points, n)
        },
    decreases n,
{
    let after = emptied(points, y, x);
    let c = y * W + x;
    if n > 0 {
        lemma_points_hash_emptied(table, points, y, x, (n - 1) as nat);
        let k = n - 1;
        let a = points_hash(table, points, k as nat);
        let key = cell_key(table, points, k);
        let gone = cell_key(table, points, c);
        if k == c {
            assert(c / W as int == y && c % W as int == x);
            assert(cell_key(table, after, k) == 0);
            assert(a ^ 0 == (a ^ gone) ^ gone) by (bit_vector);
        } else {
            let ky = k / W as int;
            let kx = k % W as int;
            assert(!(ky == y && kx == x));
            assert(after[ky][kx] == points[ky][kx]);
            assert(cell_key(table, after, k) == key);
            assert((a ^ gone) ^ key == (a ^ key) ^ gone) by (bit_vector);
        }
    }
}

impl WallView {
    /// The board has its size, every cell holds 0 to 9 points and is a wall
    /// or free, the character stands on a free, emptied cell of the board,
    /// and no more than 9 points were collected per turn played.
    pub open spec fn wf(self) -> bool {
        &&& self.points.len() == H
        &&& self.walls.len() == H
        &&& forall|y: int| 0 <= y < H ==> (#[trigger] self.points[y]).len() == W
        &&& forall|y: int| 0 <= y < H ==> (#[trigger] self.walls[y]).len() == W
        &&& forall|y: int, x: int|
            0 <= y < H && 0 <= x < W ==> 0 <= #[trigger] self.points[y][x] <= MAX_POINT
        &&& forall|y: int, x: int| 0 <= y < H && 0 <= x < W ==> 0 <= #[trigger] self.walls[y][x] <= 1
        &&& 0 <= self.turn <= END_TURN
        &&& on_board(self.y, self.x, H as int, W as int)
        &&& self.points[self.y][self.x] == 0
        &&& self.walls[self.y][self.x] == 0
        &&& 0 <= self.game_score <= MAX_POINT * self.turn
    }

    /// The hash is that of the board and the character's place under `table`.
    pub open spec fn hashed(self, table: &ZobristTable) -> bool {
        self.hash == zobrist(table, self.points, self.y, self.x)
    }

    /// The game is over when the last turn was played.
    pub open spec fn done(self) -> bool {
        self.turn == END_TURN
    }

    /// A move is possible when it leads to a free cell of the board.
    pub open spec fn can_move(self, action: int) -> bool {
        &&& 0 <= action < ACTION_COUNT
        &&& on_board(self.y + dy(action), self.x + dx(action), H as int, W as int)
        &&& self.walls[self.y + dy(action)][self.x + dx(action)] == 0
    }

    /// The possible moves, in ascending order.
    pub open spec fn legal(self) -> Seq<usize> {
        moves_below(|a: int| self.can_move(a), ACTION_COUNT as int)
    }

    /// The position after `action` under `table`: the character moves,
    /// collects the points of the cell it enters and empties it, one turn
    /// has passed, and the hash is that of the new board and place.
    pub open spec fn step(self, action: int, table: &ZobristTable) -> WallView {
        let y = self.y + dy(action);
        let x = self.x + dx(action);
        let points = emptied(self.points, y, x);
        WallView {
            points,
            turn: self.turn + 1,
            y,
            x,
            game_score: self.game_score + self.points[y][x],
            hash: zobrist(table, points, y, x),
            ..self
        }
    }

    /// Whether the cell `(y, x)` can be reached from the character's in at
    /// most `d` moves.
    pub open spec fn within(self, y: int, x: int, d: nat) -> bool
        decreases d,
    {
        if d == 0 {
            y == self.y && x == self.x
        } else {
            let e = (d - 1) as nat;
            self.within(y, x, e) || (on_board(y, x, H as int, W as int) && self.walls[y][x] == 0 && (
            self.within(y - 1, x, e) || self.within(y + 1, x, e) || self.within(y, x - 1, e)
                || self.within(y, x + 1, e)))
        }
    }

    /// Whether a cell that holds points can be reached in at most `d` moves.
    pub open spec fn point_within(self, d: nat) -> bool {
        exists|y: int, x: int|
            0 <= y < H && 0 <= x < W && self.points[y][x] > 0 && #[trigger] self.within(y, x, d)
    }

    /// The least number of moves from `d` on, and below the number of
    /// cells, in which a cell that holds points can be reached; the number
    /// of cells where there is none.
    pub open spec fn distance_from(self, d: nat) -> int
        decreases CELLS - d,
    {
        if d >= CELLS {
            CELLS as int
        } else if self.point_within(d) {
            d as int
        } else {
            self.distance_from(d + 1)
        }
    }

    /// The number of moves to the nearest cell that holds points; the
    /// number of cells where none can be reached.
    pub open spec fn nearest_point(self) -> int {
        self.distance_from(0)
    }

    /// The position with its evaluation set: the points collected weigh as
    /// much as the board has cells, and every move to the nearest points
    /// costs one.
    pub open spec fn evaluated(self) -> WallView {
        WallView { evaluated_score: self.game_score * CELLS - self.nearest_point(), ..self }
    }

    /// The position labelled with `action` as the first move that led to it.
    pub open spec fn labelled(self, action: usize) -> WallView {
        WallView { first_action: action, ..self }
    }

    /// What the cell `(y, x)` is shown as: `#` for a wall, `@` for the
    /// character, else the digit of its points, or a dot where it is empty.
    pub open spec fn cell_text(self, y: int, x: int) -> Seq<char> {
        if self.walls[y][x] == 1 {
            seq!['#']
        } else if self.y == y && self.x == x {
            seq!['@']
        } else {
            point_text(self.points[y][x])
        }
    }

    /// What the position is shown as: the turn, the score, and the board
    /// row by row.
    pub open spec fn text(self) -> Seq<char> {
        "turn:\t"@ + decimal(self.turn as nat) + "\n"@ + "score:\t"@ + decimal(
            self.game_score as nat,
        ) + "\n"@ + rows_text(|y: int, x: int| self.cell_text(y, x), H as int, W as int)
    }
}

/// A step from a valid position that is not over, by a possible move, gives a
/// valid position with its hash.
pub proof fn lemma_step_wf(v: WallView, action: int, table: &ZobristTable)
    requires
        v.wf(),
        !v.done(),
        v.can_move(action),
    ensures
        v.step(action, table).wf(),
        v.step(action, table).hashed(table),
        v.step(action, table).game_score >= v.game_score,
{
    let y = v.y + dy(action);
    let x = v.x + dx(action);
    let n = v.step(action, table);
    assert(0 <= v.points[y][x] <= MAX_POINT);
    assert forall|i: int| 0 <= i < H implies (#[trigger] n.points[i]).len() == W by {
        assert(v.points[i].len() == W);
    }
    assert forall|i: int, j: int| 0 <= i < H && 0 <= j < W implies 0 <= #[trigger] n.points[i][j]
        <= MAX_POINT by {
        assert(0 <= v.points[i][j] <= MAX_POINT);
    }
}

/// Whether `moves` can be played from `v` one after the other.
pub open spec fn playable(v: WallView, moves: Seq<usize>, table: &ZobristTable) -> bool
    decreases moves.len(),
{
    moves.len() == 0 || (!v.done() && v.can_move(moves[0] as int) && playable(
        v.step(moves[0] as int, table),
        moves.drop_first(),
        table,
    ))
}

/// The position after `moves` were played from `v`.
pub open spec fn played(v: WallView, moves: Seq<usize>, table: &ZobristTable) -> WallView
    decreases moves.len(),
{
    if moves.len() == 0 {
        v
    } else {
        played(v.step(moves[0] as int, table), moves.drop_first(), table)
    }
}

/// Playing moves from a valid position with its hash gives a valid position
/// with its hash.
pub proof fn lemma_played_hashed(v: WallView, moves: Seq<usize>, table: &ZobristTable)
    requires
        v.wf(),
        v.hashed(table),
        playable(v, moves, table),
    ensures
        played(v, moves, table).wf(),
        played(v, moves, table).hashed(table),
    decreases moves.len(),
{
    if moves.len() > 0 {
        lemma_step_wf(v, moves[0] as int, table);
        lemma_played_hashed(v.step(moves[0] as int, table), moves.drop_first(), table);
    }
}

/// The hash does not depend on the way: whatever moves lead from a
/// position to the same board with the character on the same cell, they
/// lead to the same hash.
pub proof fn lemma_hash_consistent(
    v: WallView,
    one_way: Seq<usize>,
    other_way: Seq<usize>,
    table: &ZobristTable,
)
    requires
        v.wf(),
        v.hashed(table),
        playable(v, one_way, table),
        playable(v, other_way, table),
        played(v, one_way, table).points == played(v, other_way, table).points,
        played(v, one_way, table).y == played(v, other_way, table).y,
        played(v, one_way, table).x == played(v, other_way, table).x,
    ensures
        played(v, one_way, table).hash == played(v, other_way, table).hash,
{
    lemma_played_hashed(v, one_way, table);
    lemma_played_hashed(v, other_way, table);
}

/// Only cells of the board are reached.
pub proof fn lemma_within_on_board(v: WallView, y: int, x: int, d: nat)
    requires
        v.wf(),
        v.within(y, x, d),
    ensures
        on_board(y, x, H as int, W as int),
    decreases d,
{
    if d > 0 && v.within(y, x, (d - 1) as nat) {
        lemma_within_on_board(v, y, x, (d - 1) as nat);
    }
}

/// The possible moves are those that lead to a free cell.
pub proof fn lemma_legal(v: WallView)
    requires
        v.wf(),
    ensures
        v.legal().len() <= 4,
        forall|a: usize| v.legal().contains(a) <==> v.can_move(a as int),
        forall|i: int| 0 <= i < v.legal().len() ==> v.can_move(#[trigger] v.legal()[i] as int),
{
    let allowed = |a: int| v.can_move(a);
    lemma_moves_below(allowed, 4);
    assert forall|i: int| 0 <= i < v.legal().len() implies v.can_move(
        #[trigger] v.legal()[i] as int,
    ) by {
        assert(v.legal().contains(v.legal()[i]));
    }
}

impl View for WallMazeState {
    type V = WallView;

    closed spec fn view(&self) -> WallView {
        WallView {
            points: Seq::new(H as nat, |y: int| Seq::new(W as nat, |x: int| self.points_[y][x] as int)),
            walls: Seq::new(H as nat, |y: int| Seq::new(W as nat, |x: int| self.walls_[y][x] as int)),
            turn: self.turn_ as int,
            y: self.charcter_.y_ as int,
            x: self.charcter_.x_ as int,
            game_score: self.game_score_ as int,
            evaluated_score: self.evaluated_score_ as int,
            first_action: self.first_action_,
            hash: self.hash_,
        }
    }
}

impl WallMazeState {
    /// Validity of a state under `table`: what it stands for is valid and
    /// carries the hash of its board and place.
    pub open spec fn wf(&self, table: &ZobristTable) -> bool {
        self@.wf() && self@.hashed(table)
    }

    /// The hash of the board and the character's place.
    fn init_hash(&mut self, table: &ZobristTable)
        requires
            old(self)@.wf(),
        ensures
            final(self)@ == (WallView {
                hash: zobrist(table, old(self)@.points, old(self)@.y, old(self)@.x),
                ..old(self)@
            }),
    {
        let mut hash: u64 = 0;
        let mut y: usize = 0;
        while y < H
            invariant
                y <= H,
                self@ == old(self)@,
                self@.wf(),
                hash == points_hash(table, self@.points, (y * W) as nat),
            decreases H - y,
        {
            let mut x: usize = 0;
            while x < W
                invariant
                    y < H,
                    x <= W,
                    self@ == old(self)@,
                    self@.wf(),
                    hash == points_hash(table, self@.points, (y * W + x) as nat),
                decreases W - x,
            {
                let point = self.points_[y][x];
                let ghost c = (y * W + x) as int;
                assert(c / W as int == y && c % W as int == x);
                assert(point as int == self@.points[y as int][x as int]);
                assert(0 <= self@.points[y as int][x as int] <= MAX_POINT);
                if point > 0 {
                    hash = hash ^ table.points[y][x][point as usize];
                } else {
                    assert(hash ^ 0 == hash) by (bit_vector);
                }
                x = x + 1;
            }
            y = y + 1;
        }
        let own = table.character[self.charcter_.y_ as usize][self.charcter_.x_ as usize];
        assert(0u64 ^ own == own) by (bit_vector);
        self.hash_ = (0 ^ own) ^ hash;
    }

    /// A fresh game drawn from `seed`: the character on a free cell, walls
    /// around it, 0 to 9 points on every other cell, nothing played yet.
    pub fn new(seed: usize, table: &ZobristTable) -> (state: Self)
        ensures
            state.wf(table),
            state@.turn == 0,
            state@.game_score == 0,
            state@.evaluated_score == 0,
            state@.first_action == 0,
    {
        let mut rng = seeded_rng(seed as u64);
        let cy = random_i32(&mut rng, 0, H as i32);
        let cx = random_i32(&mut rng, 0, W as i32);
        let mut walls: [[i32; W]; H] = [[0; W]; H];
        let mut y: usize = 1;
        while y < H
            invariant
                1 <= y <= H + 1,
                y % 2 == 1,
                0 <= cy < H,
                0 <= cx < W,
                walls[cy as int][cx as int] == 0,
                forall|i: int, j: int| 0 <= i < H && 0 <= j < W ==> 0 <= #[trigger] walls[i][j] <= 1,
            decreases H + 1 - y,
        {
            let mut x: usize = 1;
            while x < W
                invariant
                    1 <= y < H,
                    y % 2 == 1,
                    1 <= x <= W + 1,
                    x % 2 == 1,
                    0 <= cy < H,
                    0 <= cx < W,
                    walls[cy as int][cx as int] == 0,
                    forall|i: int, j: int| 0 <= i < H && 0 <= j < W ==> 0 <= #[trigger] walls[i][j] <= 1,
                decreases W + 1 - x,
            {
                if !(y as i32 == cy && x as i32 == cx) {
                    walls[y][x] = 1;
                    let direction_size: i32 = if y == 1 {
                        4
                    } else {
                        3
                    };
                    let direction = random_i32(&mut rng, 0, direction_size) as usize;
                    let ty = y as i32 + step_y(direction);
                    let tx = x as i32 + step_x(direction);
                    if !(ty == cy && tx == cx) {
                        walls[ty as usize][tx as usize] = 1;
                    }
                }
                x = x + 2;
            }
            y = y + 2;
        }
        let mut points: [[i32; W]; H] = [[0; W]; H];
        let mut y: usize = 0;
        while y < H
            invariant
                y <= H,
                0 <= cy < H,
                0 <= cx < W,
                points[cy as int][cx as int] == 0,
                forall|i: int, j: int| 0 <= i < H && 0 <= j < W ==> 0 <= #[trigger] points[i][j] <= 9,
            decreases H - y,
        {
            let mut x: usize = 0;
            while x < W
                invariant
                    y < H,
                    x <= W,
                    0 <= cy < H,
                    0 <= cx < W,
                    points[cy as int][cx as int] == 0,
                    forall|i: int, j: int|
                        0 <= i < H && 0 <= j < W ==> 0 <= #[trigger] points[i][j] <= 9,
                decreases W - x,
            {
                if !(y as i32 == cy && x as i32 == cx) {
                    points[y][x] = random_i32(&mut rng, 0, 10);
                }
                x = x + 1;
            }
            y = y + 1;
        }
        let mut maze_state = WallMazeState {
            points_: points,
            walls_: walls,
            turn_: 0,
            charcter_: Coord { y_: cy, x_: cx },
            game_score_: 0,
            evaluated_score_: 0,
            first_action_: 0,
            hash_: 0,
        };
        maze_state.init_hash(table);
        maze_state
    }

    /// Whether the last turn was played.
    pub fn isDone(&self) -> (done: bool)
        ensures
            done == self@.done(),
    {
        self.turn_ == END_TURN
    }

    /// Number of turns played.
    pub fn turn(&self) -> (turn: i32)
        ensures
            turn == self@.turn,
    {
        self.turn_
    }

    /// Where the character stands.
    pub fn character(&self) -> (c: Coord)
        ensures
            c.y_ == self@.y,
            c.x_ == self@.x,
    {
        self.charcter_
    }

    /// Points collected so far.
    pub fn gameScore(&self) -> (score: i32)
        ensures
            score == self@.game_score,
    {
        self.game_score_
    }

    /// The evaluation that was set last.
    pub fn evaluatedScore(&self) -> (score: i32)
        ensures
            score == self@.evaluated_score,
    {
        self.evaluated_score_
    }

    /// The first move that a search recorded for the position.
    pub fn firstAction(&self) -> (action: usize)
        ensures
            action == self@.first_action,
    {
        self.first_action_
    }

    /// The hash of the board and the character's place.
    pub fn hash(&self) -> (hash: u64)
        ensures
            hash == self@.hash,
    {
        self.hash_
    }

    /// Points on the cell `(y, x)`.
    pub fn pointAt(&self, y: usize, x: usize) -> (point: i32)
        requires
            y < H,
            x < W,
        ensures
            point == self@.points[y as int][x as int],
    {
        self.points_[y][x]
    }

    /// Whether the cell `(y, x)` is a wall.
    pub fn isWall(&self, y: usize, x: usize) -> (wall: bool)
        requires
            y < H,
            x < W,
        ensures
            wall == (self@.walls[y as int][x as int] != 0),
    {
        self.walls_[y][x] != 0
    }

    /// Plays `action`, and brings the hash up to date by the keys of what
    /// changed: the character's old and new cell, and the points collected.
    pub fn advance(&mut self, action: usize, table: &ZobristTable)
        requires
            old(self).wf(table),
            !old(self)@.done(),
            old(self)@.can_move(action as int),
        ensures
            final(self)@ == old(self)@.step(action as int, table),
            final(self).wf(table),
    {
        proof {
            lemma_step_wf(self@, action as int, table);
        }
        let ghost before = self@;
        let left = table.character[self.charcter_.y_ as usize][self.charcter_.x_ as usize];
        let mut hash = self.hash_ ^ left;
        self.charcter_.x_ = self.charcter_.x_ + step_x(action);
        self.charcter_.y_ = self.charcter_.y_ + step_y(action);
        let y = self.charcter_.y_ as usize;
        let x = self.charcter_.x_ as usize;
        let entered = table.character[y][x];
        hash = hash ^ entered;
        let point = self.points_[y][x];
        assert(point as int == before.points[y as int][x as int]);
        assert(0 <= before.points[y as int][x as int] <= MAX_POINT);
        let ghost board = points_hash(table, before.points, CELLS as nat);
        let ghost gone = cell_key(table, before.points, y * W + x);
        proof {
            let c = (y * W + x) as int;
            assert(c / W as int == y && c % W as int == x);
            lemma_points_hash_emptied(table, before.points, y as int, x as int, CELLS as nat);
        }
        if point > 0 {
            let key = table.points[y][x][point as usize];
            assert(key == gone);
            assert((((left ^ board) ^ left) ^ entered) ^ key == entered ^ (board ^ key)) by (bit_vector);
            hash = hash ^ key;
            self.game_score_ = self.game_score_ + point;
            self.points_[y][x] = 0;
        } else {
            assert(gone == 0);
            assert(((left ^ board) ^ left) ^ entered == entered ^ (board ^ 0)) by (bit_vector);
        }
        self.hash_ = hash;
        self.turn_ = self.turn_ + 1;
        proof {
            let n = before.step(action as int, table);
            assert(self@.points =~~= n.points);
            assert(self@.walls =~~= n.walls);
        }
    }

    /// The position as text: the turn, the score, and the board row by row.
    pub fn toString(&self) -> (s: String)
        requires
            self@.wf(),
        ensures
            s@ == self@.text(),
    {
        let mut s = String::new();
        s.append("turn:\t");
        push_decimal(&mut s, self.turn_ as u64);
        s.append("\n");
        s.append("score:\t");
        push_decimal(&mut s, self.game_score_ as u64);
        s.append("\n");
        let ghost cell = |y: int, x: int| self@.cell_text(y, x);
        let ghost head = s@;
        let mut h: usize = 0;
        while h < H
            invariant
                h <= H,
                self@.wf(),
                cell == (|y: int, x: int| self@.cell_text(y, x)),
                s@ == head + rows_text(cell, h as int, W as int),
            decreases H - h,
        {
            let ghost before = s@;
            let mut w: usize = 0;
            while w < W
                invariant
                    h < H,
                    w <= W,
                    self@.wf(),
                    cell == (|y: int, x: int| self@.cell_text(y, x)),
                    s@ == before + row_text(cell, h as int, w as int),
                decreases W - w,
            {
                let ghost row = s@;
                assert(self.walls_[h as int][w as int] as int == self@.walls[h as int][w as int]);
                if self.walls_[h][w] == 1 {
                    push_char(&mut s, '#');
                } else if self.charcter_.y_ == h as i32 && self.charcter_.x_ == w as i32 {
                    push_char(&mut s, '@');
                } else {
                    assert(self.points_[h as int][w as int] as int == self@.points[h as int][w as int]);
                    assert(0 <= self@.points[h as int][w as int] <= MAX_POINT);
                    push_point(&mut s, self.points_[h][w]);
                }
                assert(s@ =~= row + cell(h as int, w as int));
                assert(s@ =~= before + row_text(cell, h as int, w + 1));
                w = w + 1;
            }
            push_char(&mut s, '\n');
            assert(s@ =~= head + rows_text(cell, h + 1, W as int));
            h = h + 1;
        }
        s
    }

    /// The possible moves, in ascending order.
    pub fn legalActions(&self) -> (actions: Vec<usize>)
        requires
            self@.wf(),
        ensures
            actions@ == self@.legal(),
    {
        let mut actions: Vec<usize> = Vec::new();
        let ghost allowed = |a: int| self@.can_move(a);
        let mut action: usize = 0;
        while action < 4
            invariant
                action <= 4,
                self@.wf(),
                allowed == (|a: int| self@.can_move(a)),
                actions@ == moves_below(allowed, action as int),
            decreases 4 - action,
        {
            let ty = self.charcter_.y_ + step_y(action);
            let tx = self.charcter_.x_ + step_x(action);
            if ty >= 0 && ty < H as i32 && tx >= 0 && tx < W as i32 {
                if self.walls_[ty as usize][tx as usize] == 0 {
                    actions.push(action);
                }
            }
            action = action + 1;
        }
        actions
    }
}

/// `seen` marks the cells that can be reached in at most `d` moves.
pub open spec fn marks(v: WallView, seen: [[bool; W]; H], d: nat) -> bool {
    forall|y: int, x: int| 0 <= y < H && 0 <= x < W ==> #[trigger] seen[y][x] == v.within(y, x, d)
}

impl WallMazeState {
    /// Whether a marked cell holds points.
    fn point_seen(&self, seen: &[[bool; W]; H], Ghost(d): Ghost<nat>) -> (found: bool)
        requires
            self@.wf(),
            marks(self@, *seen, d),
        ensures
            found == self@.point_within(d),
    {
        let mut y: usize = 0;
        while y < H
            invariant
                y <= H,
                self@.wf(),
                marks(self@, *seen, d),
                forall|i: int, j: int|
                    0 <= i < y && 0 <= j < W ==> !(self@.points[i][j] > 0 && #[trigger] self@.within(
                        i,
                        j,
                        d,
                    )),
            decreases H - y,
        {
            let mut x: usize = 0;
            while x < W
                invariant
                    y < H,
                    x <= W,
                    self@.wf(),
                    marks(self@, *seen, d),
                    forall|i: int, j: int|
                        0 <= i < y && 0 <= j < W ==> !(self@.points[i][j] > 0
                            && #[trigger] self@.within(i, j, d)),
                    forall|j: int|
                        0 <= j < x ==> !(self@.points[y as int][j] > 0 && #[trigger] self@.within(
                            y as int,
                            j,
                            d,
                        )),
                decreases W - x,
            {
                assert(seen[y as int][x as int] == self@.within(y as int, x as int, d));
                assert(self.points_[y as int][x as int] as int == self@.points[y as int][x as int]);
                if seen[y][x] && self.points_[y][x] > 0 {
                    return true;
                }
                x = x + 1;
            }
            y = y + 1;
        }
        false
    }

    /// The marks of the cells that can be reached in one move more.
    fn spread(&self, seen: &[[bool; W]; H], Ghost(d): Ghost<nat>) -> (next: [[bool; W]; H])
        requires
            self@.wf(),
            marks(self@, *seen, d),
        ensures
            marks(self@, next, d + 1),
    {
        let mut next: [[bool; W]; H] = [[false; W]; H];
        let mut y: usize = 0;
        while y < H
            invariant
                y <= H,
                self@.wf(),
                marks(self@, *seen, d),
                forall|i: int, j: int|
                    0 <= i < y && 0 <= j < W ==> #[trigger] next[i][j] == self@.within(i, j, d + 1),
            decreases H - y,
        {
            let mut x: usize = 0;
            while x < W
                invariant
                    y < H,
                    x <= W,
                    self@.wf(),
                    marks(self@, *seen, d),
                    forall|i: int, j: int|
                        0 <= i < y && 0 <= j < W ==> #[trigger] next[i][j] == self@.within(
                            i,
                            j,
                            d + 1,
                        ),
                    forall|j: int|
                        0 <= j < x ==> #[trigger] next[y as int][j] == self@.within(
                            y as int,
                            j,
                            d + 1,
                        ),
                decreases W - x,
            {
                let up = y > 0 && seen[y - 1][x];
                let down = y + 1 < H && seen[y + 1][x];
                let left = x > 0 && seen[y][x - 1];
                let right = x + 1 < W && seen[y][x + 1];
                let free = self.walls_[y][x] == 0;
                proof {
                    let v = self@;
                    let yy = y as int;
                    let xx = x as int;
                    assert(seen[yy][xx] == v.within(yy, xx, d));
                    assert(self.walls_[yy][xx] as int == v.walls[yy][xx]);
                    if v.within(yy - 1, xx, d) {
                        lemma_within_on_board(v, yy - 1, xx, d);
                        assert(seen[yy - 1][xx] == v.within(yy - 1, xx, d));
                    }
                    if v.within(yy + 1, xx, d) {
                        lemma_within_on_board(v, yy + 1, xx, d);
                        assert(seen[yy + 1][xx] == v.within(yy + 1, xx, d));
                    }
                    if v.within(yy, xx - 1, d) {
                        lemma_within_on_board(v, yy, xx - 1, d);
                        assert(seen[yy][xx - 1] == v.within(yy, xx - 1, d));
                    }
                    if v.within(yy, xx + 1, d) {
                        lemma_within_on_board(v, yy, xx + 1, d);
                        assert(seen[yy][xx + 1] == v.within(yy, xx + 1, d));
                    }
                    if y > 0 {
                        assert(seen[yy - 1][xx] == v.within(yy - 1, xx, d));
                    }
                    if y + 1 < H {
                        assert(seen[yy + 1][xx] == v.within(yy + 1, xx, d));
                    }
                    if x > 0 {
                        assert(seen[yy][xx - 1] == v.within(yy, xx - 1, d));
                    }
                    if x + 1 < W {
                        assert(seen[yy][xx + 1] == v.within(yy, xx + 1, d));
                    }
                    assert(v.within(yy, xx, d + 1) == (v.within(yy, xx, d) || (v.walls[yy][xx] == 0 && (
                    v.within(yy - 1, xx, d) || v.within(yy + 1, xx, d) || v.within(yy, xx - 1, d)
                        || v.within(yy, xx + 1, d)))));
                }
                next[y][x] = seen[y][x] || (free && (up || down || left || right));
                x = x + 1;
            }
            y = y + 1;
        }
        next
    }

    /// Number of moves to the nearest cell that holds points, found by a
    /// search that spreads from the character one move at a time; the
    /// number of cells where no such cell can be reached.
    pub fn getDistanceToNearestPoint(&self) -> (distance: i32)
        requires
            self@.wf(),
        ensures
            distance == self@.nearest_point(),
            0 <= distance <= CELLS,
    {
        let mut seen: [[bool; W]; H] = [[false; W]; H];
        seen[self.charcter_.y_ as usize][self.charcter_.x_ as usize] = true;
        let mut d: i32 = 0;
        while d < CELLS as i32
            invariant
                0 <= d <= CELLS,
                self@.wf(),
                marks(self@, seen, d as nat),
                self@.nearest_point() == self@.distance_from(d as nat),
            decreases CELLS - d,
        {
            if self.point_seen(&seen, Ghost(d as nat)) {
                return d;
            }
            seen = self.spread(&seen, Ghost(d as nat));
            d = d + 1;
        }
        d
    }

    /// Sets the evaluation: the points collected weigh as much as the board
    /// has cells, and every move to the nearest points costs one.
    pub fn evaluateScore(&mut self)
        requires
            old(self)@.wf(),
        ensures
            final(self)@ == old(self)@.evaluated(),
    {
        let distance = self.getDistanceToNearestPoint();
        let weight = CELLS as i32;
        assert(0 <= self.game_score_ * weight <= 441 * 49) by (nonlinear_arith)
            requires
                0 <= self.game_score_ <= 441,
                weight == 49,
        ;
        self.evaluated_score_ = self.game_score_ * weight - distance;
    }
}

/// A possible move of `state`, picked by a number drawn from `rng`.
pub fn randomAction(state: &WallMazeState, rng: &mut StdRng) -> (action: usize)
    requires
        state@.wf(),
        state@.legal().len() > 0,
    ensures
        state@.can_move(action as int),
{
    let legal_actions = state.legalActions();
    proof {
        lemma_legal(state@);
    }
    let drawn = random_i32(rng, 0, 11) as usize;
    legal_actions[drawn % legal_actions.len()]
}

/// A position as a candidate of a search, ranked by its evaluation.
pub open spec fn candidate(v: WallView) -> Ranked<WallView> {
    Ranked { score: v.evaluated_score as i64, item: v }
}

/// What the candidates of a beam stand for.
pub open spec fn views(s: Seq<Ranked<WallMazeState>>) -> Seq<Ranked<WallView>> {
    s.map_values(|r: Ranked<WallMazeState>| Ranked { score: r.score, item: r.item@ })
}

/// The position that `action` leads to from `v`, evaluated. On the first
/// level of a search it is labelled with the move.
pub open spec fn child(v: WallView, action: usize, first: bool, table: &ZobristTable) -> WallView {
    let next = v.step(action as int, table).evaluated();
    if first {
        next.labelled(action)
    } else {
        next
    }
}

/// A level of a beam search while it is built: its candidates, best first,
/// and the hashes of the positions that were made for it.
pub struct Level {
    pub beam: Seq<Ranked<WallView>>,
    pub seen: Set<u64>,
}

/// `level` after the children of `v` by its first `n` possible moves were
/// made, one after the other. Below the first level a child whose hash the
/// level has seen is dropped; every other child is placed into the beam
/// and its hash is seen from then on.
pub open spec fn expanded(level: Level, v: WallView, first: bool, n: int, table: &ZobristTable) -> Level
    decreases n,
{
    if n <= 0 {
        level
    } else {
        let before = expanded(level, v, first, n - 1, table);
        let action = v.legal()[n - 1];
        let hash = v.step(action as int, table).hash;
        if !first && before.seen.contains(hash) {
            before
        } else {
            Level {
                beam: placed(before.beam, candidate(child(v, action, first, table))),
                seen: before.seen.insert(hash),
            }
        }
    }
}

/// The level that the best `taken` candidates of `now` expand to.
pub open spec fn next_level(
    now: Seq<Ranked<WallView>>,
    first: bool,
    taken: int,
    table: &ZobristTable,
) -> Level
    decreases taken,
{
    if taken <= 0 {
        Level { beam: Seq::empty(), seen: Set::empty() }
    } else {
        let v = now[taken - 1].item;
        expanded(next_level(now, first, taken - 1, table), v, first, v.legal().len() as int, table)
    }
}

/// Number of candidates of a beam of `len` that a search of `width` expands.
pub open spec fn taken_of(width: int, len: int) -> int {
    if width < len {
        width
    } else {
        len
    }
}

/// The candidate that beam search ends on from the beam `now` with `depth`
/// levels left to build: `best` where no level is left, the beam is empty or
/// its best candidate is a finished game, or the new level would be empty;
/// else what the search ends on from the next level, whose best candidate
/// is then the best known.
pub open spec fn beam_top(
    now: Seq<Ranked<WallView>>,
    width: int,
    depth: nat,
    first: bool,
    best: Ranked<WallView>,
    table: &ZobristTable,
) -> Ranked<WallView>
    decreases depth,
{
    if depth == 0 || now.len() == 0 || now[0].item.done() {
        best
    } else {
        let next = next_level(now, first, taken_of(width, now.len() as int), table).beam;
        if next.len() == 0 {
            best
        } else {
            beam_top(next, width, (depth - 1) as nat, false, next[0], table)
        }
    }
}

/// Every candidate of a level is a valid position at turn `turn` with its
/// hash, ranked by its evaluation; below the root it carries a possible
/// move of `root` as its first move, and above that it is the root.
pub open spec fn level_ok(
    s: Seq<Ranked<WallView>>,
    root: WallView,
    turn: int,
    below: bool,
    table: &ZobristTable,
) -> bool {
    forall|i: int|
        0 <= i < s.len() ==> {
            &&& (#[trigger] s[i]).item.wf()
            &&& s[i].item.hashed(table)
            &&& s[i].item.turn == turn
            &&& s[i].score == s[i].item.evaluated_score
            &&& below ==> root.can_move(s[i].item.first_action as int)
            &&& !below ==> s[i].item == root
        }
}

/// Placing a candidate that fits a level keeps the level.
pub proof fn lemma_level_placed(
    s: Seq<Ranked<WallView>>,
    c: Ranked<WallView>,
    root: WallView,
    turn: int,
    below: bool,
    table: &ZobristTable,
)
    requires
        level_ok(s, root, turn, below, table),
        level_ok(seq![c], root, turn, below, table),
    ensures
        level_ok(placed(s, c), root, turn, below, table),
{
    lemma_rank_of(s, c.score as int);
    let k = rank_of(s, c.score as int);
    let p = placed(s, c);
    assert forall|i: int| 0 <= i < p.len() implies {
        &&& (#[trigger] p[i]).item.wf()
        &&& p[i].item.hashed(table)
        &&& p[i].item.turn == turn
        &&& p[i].score == p[i].item.evaluated_score
        &&& below ==> root.can_move(p[i].item.first_action as int)
        &&& !below ==> p[i].item == root
    } by {
        if i < k {
            assert(p[i] == s[i]);
        } else if i == k {
            assert(p[i] == seq![c][0]);
        } else {
            assert(p[i] == s[i - 1]);
        }
    }
}

/// Makes the children of `state` for the level `next`, whose hashes seen
/// are `hash_check`.
fn expand_into(
    next: &mut Beam<WallMazeState>,
    hash_check: &mut HashSet<u64>,
    state: &WallMazeState,
    first: bool,
    table: &ZobristTable,
    Ghost(root): Ghost<WallView>,
)
    requires
        old(next).wf(),
        state.wf(table),
        !state@.done(),
        level_ok(views(old(next)@), root, state@.turn + 1, true, table),
        first ==> root == state@,
        !first ==> root.can_move(state@.first_action as int),
    ensures
        final(next).wf(),
        (Level { beam: views(final(next)@), seen: final(hash_check)@ }) == expanded(
            Level { beam: views(old(next)@), seen: old(hash_check)@ },
            state@,
            first,
            state@.legal().len() as int,
            table,
        ),
        level_ok(views(final(next)@), root, state@.turn + 1, true, table),
        final(next)@.len() >= old(next)@.len(),
        first ==> final(next)@.len() == old(next)@.len() + state@.legal().len(),
{
    broadcast use vstd::std_specs::hash::group_hash_axioms;

    let legal_actions = state.legalActions();
    proof {
        lemma_legal(state@);
    }
    let ghost start = Level { beam: views(next@), seen: hash_check@ };
    let mut i: usize = 0;
    while i < legal_actions.len()
        invariant
            i <= legal_actions.len(),
            next.wf(),
            state.wf(table),
            !state@.done(),
            legal_actions@ == state@.legal(),
            forall|k: int| 0 <= k < state@.legal().len() ==> state@.can_move(#[trigger] state@.legal()[k] as int),
            first ==> root == state@,
            !first ==> root.can_move(state@.first_action as int),
            start == (Level { beam: views(old(next)@), seen: old(hash_check)@ }),
            (Level { beam: views(next@), seen: hash_check@ }) == expanded(
                start,
                state@,
                first,
                i as int,
                table,
            ),
            level_ok(views(next@), root, state@.turn + 1, true, table),
            next@.len() >= old(next)@.len(),
            first ==> next@.len() == old(next)@.len() + i,
        decreases legal_actions.len() - i,
    {
        let action = legal_actions[i];
        let mut next_state = state.clone();
        next_state.advance(action, table);
        let dropped = !first && hash_check.contains(&next_state.hash_);
        if !dropped {
            hash_check.insert(next_state.hash_);
            next_state.evaluateScore();
            if first {
                next_state.first_action_ = action;
            }
            let ghost before = next@;
            let ghost c = Ranked { score: next_state.evaluated_score_ as i64, item: next_state };
            next.push(next_state.evaluated_score_ as i64, next_state);
            proof {
                let cv = candidate(child(state@, action, first, table));
                lemma_step_wf(state@, action as int, table);
                assert(next_state@ == child(state@, action, first, table));
                assert(cv == Ranked { score: c.score, item: c.item@ });
                lemma_rank_of(before, c.score as int);
                lemma_rank_of_same_scores(before, views(before), c.score as int);
                assert(views(placed(before, c)) =~= placed(views(before), cv));
                lemma_level_placed(views(before), cv, root, state@.turn + 1, true, table);
            }
        }
        i = i + 1;
    }
}

/// Beam search with hashes: from `state`, builds up to `beam_depth` levels,
/// each from the best `beam_width` candidates of the one before, and gives
/// the best candidate of the last level built. Below the first level a
/// position whose hash its level has seen is not taken up again. Where a
/// level comes out empty the search stops at the level before. Where no
/// level can be built, with no width, no depth, a finished game, or no
/// possible move, it gives `state` itself, labelled with `INVALID_ACTION`.
pub fn beamSearch(
    state: &WallMazeState,
    beam_width: usize,
    beam_depth: usize,
    table: &ZobristTable,
) -> (best: WallMazeState)
    requires
        state.wf(table),
    ensures
        best.wf(table),
        candidate(best@) == beam_top(
            seq![candidate(state@.labelled(INVALID_ACTION))],
            beam_width as int,
            beam_depth as nat,
            true,
            candidate(state@.labelled(INVALID_ACTION)),
            table,
        ),
        beam_width >= 1 && beam_depth >= 1 && !state@.done() && state@.legal().len() > 0
            ==> state@.can_move(best@.first_action as int),
        !(beam_width >= 1 && beam_depth >= 1 && !state@.done() && state@.legal().len() > 0)
            ==> best@ == state@.labelled(INVALID_ACTION),
{
    let mut best_state = state.clone();
    best_state.first_action_ = INVALID_ACTION;
    let ghost root = best_state@;
    let mut now_beam: Beam<WallMazeState> = Beam::new();
    now_beam.push(best_state.evaluated_score_ as i64, best_state);
    proof {
        assert(root == state@.labelled(INVALID_ACTION));
        assert(root.legal() =~= state@.legal()) by {
            reveal_with_fuel(moves_below, 5);
        }
        assert(views(now_beam@) =~= seq![candidate(root)]);
    }
    let mut t: usize = 0;
    while t < beam_depth
        invariant
            t <= beam_depth,
            state.wf(table),
            root == state@.labelled(INVALID_ACTION),
            root.legal() == state@.legal(),
            now_beam.wf(),
            best_state.wf(table),
            level_ok(views(now_beam@), root, root.turn + t, t > 0, table),
            t == 0 ==> views(now_beam@) == seq![candidate(root)] && best_state@ == root,
            t > 0 ==> now_beam@.len() > 0 && beam_width >= 1 && !root.done() && root.legal().len() > 0
                && root.can_move(best_state@.first_action as int),
            beam_top(
                seq![candidate(root)],
                beam_width as int,
                beam_depth as nat,
                true,
                candidate(root),
                table,
            ) == beam_top(
                views(now_beam@),
                beam_width as int,
                (beam_depth - t) as nat,
                t == 0,
                candidate(best_state@),
                table,
            ),
        decreases beam_depth - t,
    {
        if now_beam.is_empty() {
            return best_state;
        }
        assert(views(now_beam@)[0].item == now_beam@[0].item@);
        if now_beam.peek().item.isDone() {
            return best_state;
        }
        let first = t == 0;
        let ghost now = views(now_beam@);
        let taken = if beam_width < now_beam.len() {
            beam_width
        } else {
            now_beam.len()
        };
        let mut grown: Beam<WallMazeState> = Beam::new();
        let mut hash_check: HashSet<u64> = HashSet::new();
        let mut i: usize = 0;
        proof {
            assert(views(grown@) =~= Seq::<Ranked<WallView>>::empty());
            assert(now.skip(0) =~= now);
        }
        while i < taken
            invariant
                i <= taken,
                taken == taken_of(beam_width as int, now.len() as int),
                first == (t == 0),
                grown.wf(),
                now_beam.wf(),
                now.len() > 0,
                !now[0].item.done(),
                level_ok(now, root, root.turn + t, t > 0, table),
                t == 0 ==> now == seq![candidate(root)],
                views(now_beam@) == now.skip(i as int),
                (Level { beam: views(grown@), seen: hash_check@ }) == next_level(
                    now,
                    first,
                    i as int,
                    table,
                ),
                level_ok(views(grown@), root, root.turn + t + 1, true, table),
                first && i > 0 ==> grown@.len() == root.legal().len(),
            decreases taken - i,
        {
            assert(now.skip(i as int).len() == now.len() - i);
            assert(views(now_beam@).len() == now_beam@.len());
            assert(views(now_beam@)[0] == now[i as int]);
            assert(views(now_beam@)[0].item == now_beam@[0].item@);
            let ghost before = now_beam@;
            let top = now_beam.pop();
            proof {
                assert(top.item@ == now[i as int].item);
                assert(now[i as int].item.turn == now[0].item.turn);
                assert forall|k: int| 0 <= k < now_beam@.len() implies views(now_beam@)[k]
                    == now.skip(i + 1)[k] by {
                    assert(now_beam@[k] == before[k + 1]);
                    assert(views(before)[k + 1] == now.skip(i as int)[k + 1]);
                }
                assert(views(now_beam@) =~= now.skip(i + 1));
            }
            expand_into(&mut grown, &mut hash_check, &top.item, first, table, Ghost(root));
            i = i + 1;
        }
        if grown.is_empty() {
            return best_state;
        }
        assert(views(grown@)[0].item == grown@[0].item@);
        assert(views(grown@)[0] == candidate(grown@[0].item@));
        best_state = grown.peek().item;
        now_beam = grown;
        t = t + 1;
    }
    best_state
}

/// The first move of the candidate that beam search with hashes ends on;
/// `INVALID_ACTION` exactly when no level can be built: with no width, no
/// depth, a finished game, or no possible move.
pub fn beamSearchAction(
    state: &WallMazeState,
    beam_width: usize,
    beam_depth: usize,
    table: &ZobristTable,
) -> (action: usize)
    requires
        state.wf(table),
    ensures
        action == beam_top(
            seq![candidate(state@.labelled(INVALID_ACTION))],
            beam_width as int,
            beam_depth as nat,
            true,
            candidate(state@.labelled(INVALID_ACTION)),
            table,
        ).item.first_action,
        beam_width >= 1 && beam_depth >= 1 && !state@.done() && state@.legal().len() > 0
            ==> state@.can_move(action as int),
        !(beam_width >= 1 && beam_depth >= 1 && !state@.done() && state@.legal().len() > 0)
            ==> action == INVALID_ACTION,
{
    let best = beamSearch(state, beam_width, beam_depth, table);
    best.first_action_
}

} // verus!
