//! The cells of a board, the four moves of a grid game and where they lead.
use vstd::prelude::*;

verus! {

/// Number of moves: right, left, down, up, in this order.
pub const ACTION_COUNT: usize = 4;

/// A cell of a board.
#[derive(Debug, Clone, Copy)]
pub struct Coord {
    pub y_: i32,
    pub x_: i32,
}

impl Coord {
    pub fn new(y_: i32, x_: i32) -> (c: Self)
        ensures
            c.y_ == y_,
            c.x_ == x_,
    {
        Self { y_, x_ }
    }
}

/// Column offset of a move.
pub open spec fn dx(action: int) -> int {
    if action == 0 {
        1
    } else if action == 1 {
        -1
    } else {
        0
    }
}

/// Row offset of a move.
pub open spec fn dy(action: int) -> int {
    if action == 2 {
        1
    } else if action == 3 {
        -1
    } else {
        0
    }
}

/// Whether the cell `(y, x)` lies on a board of `height` rows and `width` columns.
pub open spec fn on_board(y: int, x: int, height: int, width: int) -> bool {
    0 <= y < height && 0 <= x < width
}

/// The moves among the first `n` that `allowed` admits, in ascending order.
pub open spec fn moves_below(allowed: spec_fn(int) -> bool, n: int) -> Seq<usize>
    decreases n,
{
    if n <= 0 {
        Seq::empty()
    } else if allowed(n - 1) {
        moves_below(allowed, n - 1).push((n - 1) as usize)
    } else {
        moves_below(allowed, n - 1)
    }
}

/// A move is listed by `moves_below` exactly when it is below `n` and allowed.
pub proof fn lemma_moves_below(allowed: spec_fn(int) -> bool, n: int)
    requires
        0 <= n <= usize::MAX,
    ensures
        moves_below(allowed, n).len() <= n,
        forall|a: usize| moves_below(allowed, n).contains(a) <==> (a < n && allowed(a as int)),
        forall|i: int, j: int|
            0 <= i < j < moves_below(allowed, n).len() ==> moves_below(allowed, n)[i]
                < moves_below(allowed, n)[j],
        forall|i: int| 0 <= i < moves_below(allowed, n).len() ==> moves_below(allowed, n)[i] < n,
    decreases n,
{
    if n > 0 {
        lemma_moves_below(allowed, n - 1);
        let prev = moves_below(allowed, n - 1);
        let cur = moves_below(allowed, n);
        if allowed(n - 1) {
            assert forall|a: usize| cur.contains(a) <==> (a < n && allowed(a as int)) by {
                if cur.contains(a) {
                    let i = choose|i: int| 0 <= i < cur.len() && cur[i] == a;
                    if i < prev.len() {
                        assert(prev.contains(prev[i]));
                    }
                }
                if a < n && allowed(a as int) {
                    if a == n - 1 {
                        assert(cur[prev.len() as int] == a);
                    } else {
                        assert(prev.contains(a));
                        let i = choose|i: int| 0 <= i < prev.len() && prev[i] == a;
                        assert(cur[i] == a);
                    }
                }
            }
        }
    }
}

/// Column offset of `action`.
pub fn step_x(action: usize) -> (r: i32)
    requires
        action < ACTION_COUNT,
    ensures
        r == dx(action as int),
{
    if action == 0 {
        1
    } else if action == 1 {
        -1
    } else {
        0
    }
}

/// Row offset of `action`.
pub fn step_y(action: usize) -> (r: i32)
    requires
        action < ACTION_COUNT,
    ensures
        r == dy(action as int),
{
    if action == 2 {
        1
    } else if action == 3 {
        -1
    } else {
        0
    }
}

} // verus!
