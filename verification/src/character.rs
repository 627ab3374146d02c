//! A character of a two-player maze.
use vstd::prelude::*;

verus! {

/// A character: where it stands and what it has collected.
#[derive(Debug, Clone, Copy)]
pub struct Character {
    pub y_: i32,
    pub x_: i32,
    pub game_score_: i32,
}

/// What a `Character` stands for.
pub struct Piece {
    pub y: int,
    pub x: int,
    pub score: int,
}

impl View for Character {
    type V = Piece;

    open spec fn view(&self) -> Piece {
        Piece { y: self.y_ as int, x: self.x_ as int, score: self.game_score_ as int }
    }
}

impl Character {
    /// A character at `(y_, x_)` that has collected nothing.
    pub fn new(y_: i32, x_: i32) -> (c: Self)
        ensures
            c@ == (Piece { y: y_ as int, x: x_ as int, score: 0 }),
    {
        Self { y_, x_, game_score_: 0 }
    }
}

} // verus!
