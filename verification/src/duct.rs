//! Decoupled UCT for the simultaneous maze: a search tree whose nodes have
//! a child for every pair of moves, in which each player picks its move by
//! the playouts of all children that share it.
use crate::choice::{
    counts, firstMaxCount, first_max, first_zero, lemma_first_zero, lemma_first_zero_found,
    lemma_first_zero_step,
    lemma_total_change, lemma_total_le, lemma_total_le_twice, lemma_total_nonneg, lemma_total_part,
    lemma_total_step, lemma_total_zero, total,
};
use crate::simultaneous::{
    lemma_step_wf, lemma_two_moves, playout, SimultaneousMazeState, SimultaneousView, WinningStatus,
    END_TURN,
};
use rand::rngs::StdRng;
use vstd::prelude::*;

verus! {

/// Number of playouts after which a leaf of the search tree gets children.
pub const EXPAND_THRESHOLD: u64 = 5;

/// A node of the search tree: a position, how often the search went through
/// it, and what those playouts were worth, in half points, to the first
/// player. Its children, once it has them, are the positions that the pairs
/// of possible moves lead to: a row for each move of the first player, and
/// in it a child for each move of the second.
pub struct Node {
    state_: SimultaneousMazeState,
    w_: u64,
    child_nodeses_: Vec<Vec<Node>>,
    n_: u64,
}

/// The visits of `nodes`, one for one.
pub open spec fn visits_of(nodes: Seq<Node>) -> Seq<int> {
    Seq::new(nodes.len(), |j: int| nodes[j].visits() as int)
}

/// The half points of `nodes`, one for one.
pub open spec fn wins_of(nodes: Seq<Node>) -> Seq<int> {
    Seq::new(nodes.len(), |j: int| nodes[j].wins() as int)
}

/// The children that share move `j` of the second player.
pub open spec fn column(grid: Seq<Seq<Node>>, j: int) -> Seq<Node> {
    Seq::new(grid.len(), |i: int| grid[i][j])
}

/// The visits of every row of `grid`.
pub open spec fn row_visits(grid: Seq<Seq<Node>>) -> Seq<int> {
    Seq::new(grid.len(), |i: int| total(visits_of(grid[i])))
}

/// The half points of every row of `grid`.
pub open spec fn row_wins(grid: Seq<Seq<Node>>) -> Seq<int> {
    Seq::new(grid.len(), |i: int| total(wins_of(grid[i])))
}

/// The visits of every column of a `grid` whose rows have `width` children.
pub open spec fn column_visits(grid: Seq<Seq<Node>>, width: int) -> Seq<int> {
    Seq::new(width as nat, |j: int| total(visits_of(column(grid, j))))
}

/// The half points of every column of a `grid` whose rows have `width` children.
pub open spec fn column_wins(grid: Seq<Seq<Node>>, width: int) -> Seq<int> {
    Seq::new(width as nat, |j: int| total(wins_of(column(grid, j))))
}

/// The visits of all children.
pub open spec fn grid_visits(grid: Seq<Seq<Node>>) -> int {
    total(row_visits(grid))
}

/// Index of the first row with a child without a visit; -1 where every
/// child was visited.
pub open spec fn first_open_row(grid: Seq<Seq<Node>>) -> int
    decreases grid.len(),
{
    if grid.len() == 0 {
        -1
    } else if first_open_row(grid.drop_last()) >= 0 {
        first_open_row(grid.drop_last())
    } else if first_zero(visits_of(grid.last())) >= 0 {
        grid.len() - 1
    } else {
        -1
    }
}

/// `first_open_row` is a row with an unvisited child and none before it has
/// one; where it is -1 no row has one.
pub proof fn lemma_first_open_row(grid: Seq<Seq<Node>>)
    ensures
        -1 <= first_open_row(grid) < grid.len(),
        first_open_row(grid) >= 0 ==> first_zero(visits_of(grid[first_open_row(grid)])) >= 0,
        forall|i: int|
            0 <= i < grid.len() && (first_open_row(grid) < 0 || i < first_open_row(grid))
                ==> first_zero(visits_of(#[trigger] grid[i])) < 0,
    decreases grid.len(),
{
    if grid.len() > 0 {
        let front = grid.drop_last();
        lemma_first_open_row(front);
        assert forall|i: int|
            0 <= i < grid.len() && (first_open_row(grid) < 0 || i < first_open_row(grid)) implies first_zero(
            visits_of(#[trigger] grid[i]),
        ) < 0 by {
            if i < front.len() {
                assert(front[i] == grid[i]);
            }
        }
    }
}

/// The first open row among the first `n + 1` rows, from that among the first `n`.
pub proof fn lemma_first_open_row_step(grid: Seq<Seq<Node>>, n: int)
    requires
        0 <= n < grid.len(),
    ensures
        first_open_row(grid.take(0)) < 0,
        first_open_row(grid.take(n + 1)) == if first_open_row(grid.take(n)) >= 0 {
            first_open_row(grid.take(n))
        } else if first_zero(visits_of(grid[n])) >= 0 {
            n
        } else {
            -1
        },
{
    assert(grid.take(n + 1).drop_last() =~= grid.take(n));
}

/// A playout went from `before` on into the child of row `i` and column
/// `j` alone, worth `worth` half points: that child has one visit more and
/// as many half points more, on the same position, and no other child has
/// changed.
pub open spec fn went_into(
    before: Seq<Seq<Node>>,
    after: Seq<Seq<Node>>,
    i: int,
    j: int,
    worth: int,
) -> bool {
    &&& 0 <= i < before.len()
    &&& 0 <= j < before[i].len()
    &&& after.len() == before.len()
    &&& forall|k: int| 0 <= k < before.len() ==> (#[trigger] after[k]).len() == before[k].len()
    &&& after[i][j].visits() == before[i][j].visits() + 1
    &&& after[i][j].wins() == before[i][j].wins() + worth
    &&& after[i][j].state() == before[i][j].state()
    &&& forall|k: int, l: int|
        0 <= k < before.len() && 0 <= l < before[k].len() && !(k == i && l == j)
            ==> #[trigger] after[k][l] == before[k][l]
}

/// What the scoring function is owed: it can be called for either player
/// on the half points `w` and visits `n` of the children that share a move
/// and the visits `t` of all children whenever `n > 0`, `w <= 2 * n` and
/// `n <= t`.
pub open spec fn scorer_ok<F: Fn(bool, u64, u64, u64) -> u64>(ucb1: &F) -> bool {
    forall|second: bool, w: u64, n: u64, t: u64|
        0 < n <= t && w <= 2 * n ==> call_requires(ucb1, (second, w, n, t))
}

/// `scores` are what `ucb1` gave a player for the half points `wins` and
/// visits `visits` of its moves, one for one, with `t` visits in all.
pub open spec fn scored<F: Fn(bool, u64, u64, u64) -> u64>(
    ucb1: &F,
    second: bool,
    wins: Seq<int>,
    visits: Seq<int>,
    t: int,
    scores: Seq<u64>,
) -> bool {
    &&& scores.len() == visits.len()
    &&& forall|i: int|
        0 <= i < visits.len() ==> call_ensures(
            ucb1,
            (second, wins[i] as u64, visits[i] as u64, t as u64),
            #[trigger] scores[i],
        )
}

impl Node {
    /// The position of the node.
    pub closed spec fn state(&self) -> SimultaneousView {
        self.state_@
    }

    /// What the playouts through the node were worth to the first player,
    /// in half points.
    pub closed spec fn wins(&self) -> nat {
        self.w_ as nat
    }

    /// Number of playouts through the node.
    pub closed spec fn visits(&self) -> nat {
        self.n_ as nat
    }

    /// The children of the node, by the move of the first player and that
    /// of the second.
    pub closed spec fn children(&self) -> Seq<Seq<Node>> {
        Seq::new(self.child_nodeses_@.len(), |i: int| self.child_nodeses_@[i]@)
    }

    /// Number of playouts that went on into a child.
    pub open spec fn child_visits(&self) -> int {
        grid_visits(self.children())
    }

    /// Validity of a tree. The position is valid and a playout is worth at
    /// most 2 half points. A node has children only while its game goes on:
    /// one valid tree for each pair of possible moves, on the position the
    /// pair leads to. Every playout through a node with children went on
    /// into a child, but for those that the node took before it got them:
    /// none or `EXPAND_THRESHOLD`. A node without children whose game goes
    /// on has taken fewer than that.
    pub closed spec fn wf(&self) -> bool
        decreases self,
    {
        &&& self.state_.wf()
        &&& self.w_ <= 2 * self.n_
        &&& 2 * self.n_ <= u64::MAX
        &&& self.child_nodeses_@.len() > 0 ==> {
            &&& !self.state_@.done()
            &&& self.child_nodeses_@.len() == self.state_@.legal(0).len()
            &&& (self.n_ == grid_visits(self.children()) || self.n_ == grid_visits(self.children())
                + EXPAND_THRESHOLD)
        }
        &&& self.child_nodeses_@.len() == 0 && !self.state_@.done() ==> self.n_ < EXPAND_THRESHOLD
        &&& forall|i: int|
            0 <= i < self.child_nodeses_@.len() ==> (#[trigger] self.child_nodeses_@[i])@.len()
                == self.state_@.legal(1).len()
        &&& forall|i: int, j: int|
            0 <= i < self.child_nodeses_@.len() && 0 <= j < self.child_nodeses_@[i]@.len() ==> {
                &&& (#[trigger] self.child_nodeses_@[i]@[j]).wf()
                &&& self.child_nodeses_@[i]@[j].state_@ == self.state_@.step(
                    self.state_@.legal(0)[i] as int,
                    self.state_@.legal(1)[j] as int,
                )
            }
    }

    /// What validity says of the numbers of a tree.
    pub proof fn lemma_wf(&self)
        requires
            self.wf(),
        ensures
            self.state().wf(),
            self.wins() <= 2 * self.visits(),
            self.children().len() > 0 ==> !self.state().done() && self.children().len()
                == self.state().legal(0).len() && (self.visits() == self.child_visits()
                || self.visits() == self.child_visits() + EXPAND_THRESHOLD),
            self.children().len() == 0 && !self.state().done() ==> self.visits() < EXPAND_THRESHOLD,
            forall|i: int|
                0 <= i < self.children().len() ==> (#[trigger] self.children()[i]).len()
                    == self.state().legal(1).len(),
            forall|i: int, j: int|
                0 <= i < self.children().len() && 0 <= j < self.children()[i].len() ==> (
                #[trigger] self.children()[i][j]).wf() && self.children()[i][j].state()
                    == self.state().step(
                    self.state().legal(0)[i] as int,
                    self.state().legal(1)[j] as int,
                ),
    {
    }

    /// A node on `state` that no playout went through, without children.
    pub fn new(state: &SimultaneousMazeState) -> (node: Self)
        requires
            state.wf(),
        ensures
            node.wf(),
            node.state() == state@,
            node.visits() == 0,
            node.wins() == 0,
            node.children().len() == 0,
    {
        Node { state_: state.clone(), w_: 0, child_nodeses_: Vec::new(), n_: 0 }
    }

    /// Number of playouts through the node.
    pub fn visitCount(&self) -> (n: u64)
        ensures
            n == self.visits(),
    {
        self.n_
    }

    /// Half points of the playouts through the node.
    pub fn winCount(&self) -> (w: u64)
        ensures
            w == self.wins(),
    {
        self.w_
    }

    /// Number of rows of children.
    pub fn rowCount(&self) -> (n: usize)
        ensures
            n == self.children().len(),
    {
        self.child_nodeses_.len()
    }

    /// Number of children in row `i`.
    pub fn columnCount(&self, i: usize) -> (n: usize)
        requires
            i < self.children().len(),
        ensures
            n == self.children()[i as int].len(),
    {
        self.child_nodeses_[i].len()
    }

    /// The child that move number `i` of the first player and move number
    /// `j` of the second lead to.
    pub fn child(&self, i: usize, j: usize) -> (node: &Node)
        requires
            i < self.children().len(),
            j < self.children()[i as int].len(),
        ensures
            *node == self.children()[i as int][j as int],
    {
        &self.child_nodeses_[i][j]
    }
}

/// Index of the first node of `row` without a visit, if there is one.
fn row_gap(row: &Vec<Node>) -> (found: Option<usize>)
    ensures
        match found {
            Some(j) => j == first_zero(visits_of(row@)) && j < row.len(),
            None => first_zero(visits_of(row@)) < 0,
        },
{
    let ghost visits = visits_of(row@);
    let mut j: usize = 0;
    proof {
        if row.len() > 0 {
            lemma_first_zero_step(visits, 0);
        } else {
            assert(visits.take(0) =~= visits);
        }
    }
    while j < row.len()
        invariant
            j <= row.len(),
            visits == visits_of(row@),
            first_zero(visits.take(j as int)) < 0,
        decreases row.len() - j,
    {
        proof {
            lemma_first_zero_step(visits, j as int);
        }
        if row[j].n_ == 0 {
            proof {
                lemma_first_zero_found(visits, j as int + 1);
            }
            return Some(j);
        }
        j = j + 1;
    }
    assert(visits.take(j as int) =~= visits);
    None
}

/// A first open row among the first `n` rows is the first open row of all.
pub proof fn lemma_first_open_row_found(grid: Seq<Seq<Node>>, n: int)
    requires
        0 <= n <= grid.len(),
        first_open_row(grid.take(n)) >= 0,
    ensures
        first_open_row(grid) == first_open_row(grid.take(n)),
    decreases grid.len() - n,
{
    if n < grid.len() {
        lemma_first_open_row_step(grid, n);
        lemma_first_open_row_found(grid, n + 1);
    } else {
        assert(grid.take(n) =~= grid);
    }
}

/// The half points and the visits of `row`, summed.
fn row_sums(row: &Vec<Node>) -> (sums: (u64, u64))
    requires
        2 * total(visits_of(row@)) <= u64::MAX,
        forall|j: int| 0 <= j < row.len() ==> (#[trigger] row[j]).wins() <= 2 * row[j].visits(),
    ensures
        sums.0 == total(wins_of(row@)),
        sums.1 == total(visits_of(row@)),
        sums.0 <= 2 * sums.1,
{
    let ghost visits = visits_of(row@);
    let ghost wins = wins_of(row@);
    let mut w: u64 = 0;
    let mut n: u64 = 0;
    let mut j: usize = 0;
    proof {
        if row.len() > 0 {
            lemma_total_step(visits, 0);
            lemma_total_step(wins, 0);
        } else {
            assert(visits.take(0) =~= visits);
            assert(wins.take(0) =~= wins);
        }
    }
    while j < row.len()
        invariant
            j <= row.len(),
            visits == visits_of(row@),
            wins == wins_of(row@),
            2 * total(visits) <= u64::MAX,
            forall|k: int| 0 <= k < row.len() ==> (#[trigger] row[k]).wins() <= 2 * row[k].visits(),
            n == total(visits.take(j as int)),
            w == total(wins.take(j as int)),
            w <= 2 * n,
        decreases row.len() - j,
    {
        proof {
            lemma_total_step(visits, j as int);
            lemma_total_step(wins, j as int);
            lemma_total_part(visits, j as int);
            assert(row[j as int].wins() <= 2 * row[j as int].visits());
        }
        w = w + row[j].w_;
        n = n + row[j].n_;
        j = j + 1;
    }
    assert(visits.take(j as int) =~= visits);
    assert(wins.take(j as int) =~= wins);
    (w, n)
}

impl Node {
    /// Every child has at most 2 half points per visit, and the visits of
    /// the children of a row, of a column, and of all rows stay within the
    /// visits of the node.
    proof fn lemma_sums(&self)
        requires
            self.wf(),
        ensures
            grid_visits(self.children()) <= self.visits(),
            2 * self.visits() <= u64::MAX,
            forall|i: int|
                0 <= i < self.children().len() ==> 0 <= #[trigger] row_visits(self.children())[i]
                    <= grid_visits(self.children()),
            forall|i: int, j: int|
                0 <= i < self.children().len() && 0 <= j < self.children()[i].len() ==> (
                #[trigger] self.children()[i][j]).wins() <= 2 * self.children()[i][j].visits(),
            forall|j: int|
                0 <= j < self.state().legal(1).len() ==> 0 <= #[trigger] total(
                    visits_of(column(self.children(), j)),
                ) <= grid_visits(self.children()) && total(wins_of(column(self.children(), j))) <= 2
                    * total(visits_of(column(self.children(), j))),
    {
        let grid = self.children();
        let rows = row_visits(grid);
        assert forall|i: int| 0 <= i < grid.len() implies rows[i] >= 0 by {
            lemma_total_nonneg(visits_of(grid[i]));
        }
        lemma_total_nonneg(rows);
        assert forall|i: int| 0 <= i < grid.len() implies 0 <= #[trigger] rows[i] <= grid_visits(
            grid,
        ) by {
            lemma_total_part(rows, i);
            lemma_total_nonneg(rows.take(i));
        }
        assert forall|i: int, j: int| 0 <= i < grid.len() && 0 <= j < grid[i].len() implies (
        #[trigger] grid[i][j]).wins() <= 2 * grid[i][j].visits() by {
            assert(self.child_nodeses_@[i]@[j].wf());
        }
        assert forall|j: int| 0 <= j < self.state().legal(1).len() implies 0 <= #[trigger] total(
            visits_of(column(grid, j)),
        ) <= grid_visits(grid) && total(wins_of(column(grid, j))) <= 2 * total(
            visits_of(column(grid, j)),
        ) by {
            let col = column(grid, j);
            lemma_total_nonneg(visits_of(col));
            assert forall|i: int| 0 <= i < grid.len() implies visits_of(col)[i] <= rows[i] by {
                assert(grid[i].len() == self.state().legal(1).len());
                lemma_total_part(visits_of(grid[i]), j);
                lemma_total_nonneg(visits_of(grid[i]).take(j));
            }
            lemma_total_le(visits_of(col), rows);
            assert forall|i: int| 0 <= i < grid.len() implies wins_of(col)[i] <= 2 * visits_of(
                col,
            )[i] by {
                assert(grid[i].len() == self.state().legal(1).len());
                assert(grid[i][j].wins() <= 2 * grid[i][j].visits());
            }
            lemma_total_le_twice(wins_of(col), visits_of(col));
        }
    }

    /// Gives the node a child for each pair of possible moves.
    fn expand(&mut self)
        requires
            old(self).state_.wf(),
            !old(self).state_@.done(),
        ensures
            final(self).state_ == old(self).state_,
            final(self).w_ == old(self).w_,
            final(self).n_ == old(self).n_,
            final(self).child_nodeses_@.len() == old(self).state_@.legal(0).len(),
            final(self).child_nodeses_@.len() >= 2,
            grid_visits(final(self).children()) == 0,
            forall|i: int|
                0 <= i < final(self).child_nodeses_@.len() ==> (
                #[trigger] final(self).child_nodeses_@[i])@.len() == old(self).state_@.legal(1).len(),
            forall|i: int, j: int|
                0 <= i < final(self).child_nodeses_@.len() && 0 <= j < final(self).child_nodeses_@[i]@.len() ==> {
                    &&& (#[trigger] final(self).child_nodeses_@[i]@[j]).wf()
                    &&& final(self).child_nodeses_@[i]@[j].state_@ == old(self).state_@.step(
                        old(self).state_@.legal(0)[i] as int,
                        old(self).state_@.legal(1)[j] as int,
                    )
                    &&& final(self).child_nodeses_@[i]@[j].n_ == 0
                },
    {
        let legal_actions0 = self.state_.legalActions(0);
        let legal_actions1 = self.state_.legalActions(1);
        proof {
            lemma_two_moves(self.state_@, 0);
            lemma_two_moves(self.state_@, 1);
        }
        self.child_nodeses_ = Vec::new();
        let mut i: usize = 0;
        while i < legal_actions0.len()
            invariant
                i <= legal_actions0.len(),
                self.state_ == old(self).state_,
                self.w_ == old(self).w_,
                self.n_ == old(self).n_,
                self.state_.wf(),
                !self.state_@.done(),
                legal_actions0@ == self.state_@.legal(0),
                legal_actions1@ == self.state_@.legal(1),
                forall|k: int|
                    0 <= k < legal_actions0.len() ==> self.state_@.can_move(
                        0,
                        #[trigger] legal_actions0[k] as int,
                    ),
                forall|k: int|
                    0 <= k < legal_actions1.len() ==> self.state_@.can_move(
                        1,
                        #[trigger] legal_actions1[k] as int,
                    ),
                self.child_nodeses_@.len() == i,
                forall|k: int|
                    0 <= k < i ==> (#[trigger] self.child_nodeses_@[k])@.len() == legal_actions1.len(),
                forall|k: int, j: int|
                    0 <= k < i && 0 <= j < self.child_nodeses_@[k]@.len() ==> {
                        &&& (#[trigger] self.child_nodeses_@[k]@[j]).wf()
                        &&& self.child_nodeses_@[k]@[j].state_@ == self.state_@.step(
                            legal_actions0[k] as int,
                            legal_actions1[j] as int,
                        )
                        &&& self.child_nodeses_@[k]@[j].n_ == 0
                    },
            decreases legal_actions0.len() - i,
        {
            let mut add_nodes: Vec<Node> = Vec::new();
            let mut j: usize = 0;
            while j < legal_actions1.len()
                invariant
                    j <= legal_actions1.len(),
                    i < legal_actions0.len(),
                    self.state_.wf(),
                    !self.state_@.done(),
                    self.state_@.can_move(0, legal_actions0[i as int] as int),
                    forall|k: int|
                        0 <= k < legal_actions1.len() ==> self.state_@.can_move(
                            1,
                            #[trigger] legal_actions1[k] as int,
                        ),
                    add_nodes@.len() == j,
                    forall|k: int|
                        0 <= k < j ==> {
                            &&& (#[trigger] add_nodes@[k]).wf()
                            &&& add_nodes@[k].state_@ == self.state_@.step(
                                legal_actions0[i as int] as int,
                                legal_actions1[k] as int,
                            )
                            &&& add_nodes@[k].n_ == 0
                        },
                decreases legal_actions1.len() - j,
            {
                let mut next_state = self.state_.clone();
                next_state.advance(legal_actions0[i], legal_actions1[j]);
                add_nodes.push(Node::new(&next_state));
                j = j + 1;
            }
            self.child_nodeses_.push(add_nodes);
            i = i + 1;
        }
        proof {
            let grid = self.children();
            assert forall|k: int| 0 <= k < grid.len() implies row_visits(grid)[k] == 0 by {
                assert forall|j: int| 0 <= j < grid[k].len() implies visits_of(grid[k])[j] == 0 by {
                    assert(self.child_nodeses_@[k]@[j].n_ == 0);
                }
                lemma_total_zero(visits_of(grid[k]));
            }
            lemma_total_zero(row_visits(grid));
        }
    }

    /// The first child without a visit, rows first, if there is one.
    fn firstUnvisited(&self) -> (found: Option<(usize, usize)>)
        ensures
            match found {
                Some((i, j)) => i == first_open_row(self.children()) && j == first_zero(
                    visits_of(self.children()[i as int]),
                ) && i < self.children().len() && j < self.children()[i as int].len(),
                None => first_open_row(self.children()) < 0,
            },
    {
        let ghost grid = self.children();
        let mut i: usize = 0;
        proof {
            if grid.len() > 0 {
                lemma_first_open_row_step(grid, 0);
            } else {
                assert(grid.take(0) =~= grid);
            }
        }
        while i < self.child_nodeses_.len()
            invariant
                i <= self.child_nodeses_.len(),
                grid == self.children(),
                first_open_row(grid.take(i as int)) < 0,
            decreases self.child_nodeses_.len() - i,
        {
            proof {
                lemma_first_open_row_step(grid, i as int);
            }
            match row_gap(&self.child_nodeses_[i]) {
                Some(j) => {
                    proof {
                        lemma_first_open_row_found(grid, i as int + 1);
                    }
                    return Some((i, j));
                },
                None => {},
            }
            i = i + 1;
        }
        assert(grid.take(i as int) =~= grid);
        None
    }

    /// The half points and the visits of the children that share move `j`
    /// of the second player, summed.
    fn column_sums(&self, j: usize) -> (sums: (u64, u64))
        requires
            self.wf(),
            j < self.state().legal(1).len(),
        ensures
            sums.0 == total(wins_of(column(self.children(), j as int))),
            sums.1 == total(visits_of(column(self.children(), j as int))),
    {
        let ghost col = column(self.children(), j as int);
        let ghost visits = visits_of(col);
        let ghost wins = wins_of(col);
        let mut w: u64 = 0;
        let mut n: u64 = 0;
        let mut i: usize = 0;
        proof {
            self.lemma_sums();
            lemma_total_nonneg(visits);
            if col.len() > 0 {
                lemma_total_step(visits, 0);
                lemma_total_step(wins, 0);
            }
        }
        while i < self.child_nodeses_.len()
            invariant
                i <= self.child_nodeses_.len(),
                self.wf(),
                j < self.state().legal(1).len(),
                col == column(self.children(), j as int),
                visits == visits_of(col),
                wins == wins_of(col),
                2 * total(visits) <= u64::MAX,
                forall|k: int, l: int|
                    0 <= k < self.children().len() && 0 <= l < self.children()[k].len() ==> (
                    #[trigger] self.children()[k][l]).wins() <= 2 * self.children()[k][l].visits(),
                n == total(visits.take(i as int)),
                w == total(wins.take(i as int)),
                w <= 2 * n,
            decreases self.child_nodeses_.len() - i,
        {
            proof {
                lemma_total_step(visits, i as int);
                lemma_total_step(wins, i as int);
                lemma_total_part(visits, i as int);
                assert(self.child_nodeses_@[i as int]@.len() == self.state().legal(1).len());
                assert(self.children()[i as int][j as int].wins() <= 2 * self.children()[i as int][j as int].visits());
            }
            w = w + self.child_nodeses_[i][j].w_;
            n = n + self.child_nodeses_[i][j].n_;
            i = i + 1;
        }
        assert(visits.take(i as int) =~= visits);
        assert(wins.take(i as int) =~= wins);
        (w, n)
    }

    /// The half points and the visits of the children of row `i`, summed.
    fn row_sums_at(&self, i: usize) -> (sums: (u64, u64))
        requires
            self.wf(),
            i < self.children().len(),
        ensures
            sums.0 == row_wins(self.children())[i as int],
            sums.1 == row_visits(self.children())[i as int],
            sums.0 <= 2 * sums.1,
    {
        proof {
            self.lemma_sums();
            assert(row_visits(self.children())[i as int] <= grid_visits(self.children()));
            assert forall|j: int| 0 <= j < self.child_nodeses_@[i as int]@.len() implies (
            #[trigger] self.child_nodeses_@[i as int]@[j]).wins() <= 2
                * self.child_nodeses_@[i as int]@[j].visits() by {
                assert(self.children()[i as int][j].wins() <= 2 * self.children()[i as int][j].visits());
            }
        }
        row_sums(&self.child_nodeses_[i])
    }
}

impl Node {
    /// The visits of every row, and the sum of them all.
    fn row_visit_counts(&self) -> (r: (Vec<u64>, u64))
        requires
            self.wf(),
        ensures
            counts(r.0@) == row_visits(self.children()),
            r.1 == grid_visits(self.children()),
    {
        let ghost rows = row_visits(self.children());
        let mut visits: Vec<u64> = Vec::new();
        let mut t: u64 = 0;
        let mut i: usize = 0;
        proof {
            self.lemma_sums();
            if rows.len() > 0 {
                lemma_total_step(rows, 0);
            }
        }
        while i < self.child_nodeses_.len()
            invariant
                i <= self.child_nodeses_.len(),
                self.wf(),
                rows == row_visits(self.children()),
                2 * total(rows) <= u64::MAX,
                forall|k: int| 0 <= k < rows.len() ==> rows[k] >= 0,
                visits.len() == i,
                forall|k: int| 0 <= k < i ==> #[trigger] visits[k] == rows[k],
                t == total(rows.take(i as int)),
            decreases self.child_nodeses_.len() - i,
        {
            proof {
                lemma_total_step(rows, i as int);
                lemma_total_part(rows, i as int);
            }
            let sums = self.row_sums_at(i);
            visits.push(sums.1);
            t = t + sums.1;
            i = i + 1;
        }
        assert(rows.take(i as int) =~= rows);
        assert(counts(visits@) =~= rows);
        (visits, t)
    }

    /// The visits of every column.
    fn column_visit_counts(&self) -> (visits: Vec<u64>)
        requires
            self.wf(),
            self.children().len() > 0,
        ensures
            counts(visits@) == column_visits(
                self.children(),
                self.state().legal(1).len() as int,
            ),
            visits.len() == self.state().legal(1).len(),
    {
        let width = self.child_nodeses_[0].len();
        let mut visits: Vec<u64> = Vec::new();
        let mut j: usize = 0;
        while j < width
            invariant
                j <= width,
                self.wf(),
                width == self.state().legal(1).len(),
                visits.len() == j,
                forall|k: int|
                    0 <= k < j ==> #[trigger] visits[k] == total(
                        visits_of(column(self.children(), k)),
                    ),
            decreases width - j,
        {
            let sums = self.column_sums(j);
            visits.push(sums.1);
            j = j + 1;
        }
        assert(counts(visits@) =~= column_visits(self.children(), width as int));
        visits
    }

    /// The child to go on with. Where a child has no visit, it is the first
    /// such child, rows first. Else each player picks its move by itself:
    /// the first player the first of the rows that `ucb1` scores highest,
    /// the second the first of the columns that it scores highest, each row
    /// and column scored by the half points and visits of its children
    /// together. `ucb1` is asked only about rows and columns with a visit.
    pub fn nextChildNode<F: Fn(bool, u64, u64, u64) -> u64>(&self, ucb1: &F) -> (index: (
        usize,
        usize,
    ))
        requires
            self.wf(),
            self.children().len() > 0,
            scorer_ok(ucb1),
        ensures
            index.0 < self.children().len(),
            index.1 < self.children()[index.0 as int].len(),
            first_open_row(self.children()) >= 0 ==> index.0 == first_open_row(self.children())
                && index.1 == first_zero(visits_of(self.children()[index.0 as int])),
            first_open_row(self.children()) < 0 ==> exists|rows: Seq<u64>, columns: Seq<u64>|
                scored(
                    ucb1,
                    false,
                    row_wins(self.children()),
                    row_visits(self.children()),
                    grid_visits(self.children()),
                    rows,
                ) && scored(
                    ucb1,
                    true,
                    column_wins(self.children(), self.state().legal(1).len() as int),
                    column_visits(self.children(), self.state().legal(1).len() as int),
                    grid_visits(self.children()),
                    columns,
                ) && index.0 == first_max(counts(rows)) && index.1 == first_max(counts(columns)),
    {
        match self.firstUnvisited() {
            Some(found) => {
                return found;
            },
            None => {},
        }
        let ghost grid = self.children();
        let ghost width = self.state().legal(1).len() as int;
        proof {
            self.lemma_sums();
            lemma_first_open_row(grid);
            lemma_two_moves(self.state(), 1);
            assert forall|i: int, j: int| 0 <= i < grid.len() && 0 <= j < width implies (
            #[trigger] grid[i][j]).visits() > 0 by {
                assert(grid[i].len() == width);
                lemma_first_zero(visits_of(grid[i]));
                assert(visits_of(grid[i])[j] != 0);
            }
        }
        let counted = self.row_visit_counts();
        let t = counted.1;
        let mut rows: Vec<u64> = Vec::new();
        let mut i: usize = 0;
        while i < self.child_nodeses_.len()
            invariant
                i <= self.child_nodeses_.len(),
                self.wf(),
                scorer_ok(ucb1),
                grid == self.children(),
                width == self.state().legal(1).len(),
                width >= 2,
                t == grid_visits(grid),
                forall|k: int| 0 <= k < grid.len() ==> 0 <= #[trigger] row_visits(grid)[k] <= t,
                forall|k: int, j: int|
                    0 <= k < grid.len() && 0 <= j < width ==> (#[trigger] grid[k][j]).visits() > 0,
                rows.len() == i,
                forall|k: int|
                    0 <= k < i ==> call_ensures(
                        ucb1,
                        (false, row_wins(grid)[k] as u64, row_visits(grid)[k] as u64, t),
                        #[trigger] rows[k],
                    ),
            decreases self.child_nodeses_.len() - i,
        {
            let sums = self.row_sums_at(i);
            proof {
                assert(grid[i as int].len() == width);
                assert(grid[i as int][0].visits() > 0);
                lemma_total_part(visits_of(grid[i as int]), 0);
                assert(visits_of(grid[i as int]).take(0) =~= Seq::<int>::empty());
                assert(row_visits(grid)[i as int] <= t);
            }
            let score = ucb1(false, sums.0, sums.1, t);
            rows.push(score);
            i = i + 1;
        }
        let columns_wide = self.child_nodeses_[0].len();
        let mut columns: Vec<u64> = Vec::new();
        let mut j: usize = 0;
        while j < columns_wide
            invariant
                j <= columns_wide,
                self.wf(),
                scorer_ok(ucb1),
                grid == self.children(),
                grid.len() > 0,
                width == self.state().legal(1).len(),
                columns_wide == width,
                t == grid_visits(grid),
                forall|k: int|
                    0 <= k < width ==> 0 <= #[trigger] total(visits_of(column(grid, k))) <= t
                        && total(wins_of(column(grid, k))) <= 2 * total(visits_of(column(grid, k))),
                forall|k: int, l: int|
                    0 <= k < grid.len() && 0 <= l < width ==> (#[trigger] grid[k][l]).visits() > 0,
                columns.len() == j,
                forall|k: int|
                    0 <= k < j ==> call_ensures(
                        ucb1,
                        (
                            true,
                            column_wins(grid, width)[k] as u64,
                            column_visits(grid, width)[k] as u64,
                            t,
                        ),
                        #[trigger] columns[k],
                    ),
            decreases columns_wide - j,
        {
            let sums = self.column_sums(j);
            proof {
                let col = column(grid, j as int);
                assert(col[0] == grid[0][j as int]);
                assert(visits_of(col)[0] > 0);
                lemma_total_nonneg(visits_of(col));
                lemma_total_part(visits_of(col), 0);
                assert(visits_of(col).take(0) =~= Seq::<int>::empty());
            }
            let score = ucb1(true, sums.0, sums.1, t);
            columns.push(score);
            j = j + 1;
        }
        let best_row = firstMaxCount(&rows);
        let best_column = firstMaxCount(&columns);
        proof {
            assert(scored(ucb1, false, row_wins(grid), row_visits(grid), grid_visits(grid), rows@));
            assert(scored(
                ucb1,
                true,
                column_wins(grid, width),
                column_visits(grid, width),
                grid_visits(grid),
                columns@,
            ));
            assert(grid[best_row as int].len() == width);
        }
        (best_row, best_column)
    }

    /// Runs one playout through the tree and gives what it was worth, in
    /// half points, to the first player. Where the game is over, that is
    /// the worth of the position. A node without children plays the game
    /// out at random, and gets its children when this was playout number
    /// `EXPAND_THRESHOLD`. Any other node goes on into the child that
    /// `nextChildNode` gives. The playout is counted in every node it went
    /// through.
    pub fn evaluate<F: Fn(bool, u64, u64, u64) -> u64>(&mut self, rng: &mut StdRng, ucb1: &F) -> (value:
        u64)
        requires
            old(self).wf(),
            2 * (old(self).visits() + 1) <= u64::MAX,
            scorer_ok(ucb1),
        ensures
            final(self).wf(),
            value <= 2,
            final(self).state() == old(self).state(),
            final(self).visits() == old(self).visits() + 1,
            final(self).wins() == old(self).wins() + value,
            old(self).state().done() ==> value == old(self).state().worth(),
            final(self).child_visits() == old(self).child_visits() + if old(self).children().len()
                > 0 {
                1int
            } else {
                0int
            },
            old(self).children().len() > 0 ==> exists|i: int, j: int| #[trigger]
                went_into(old(self).children(), final(self).children(), i, j, value as int) && (
                first_open_row(old(self).children()) >= 0 ==> i == first_open_row(
                    old(self).children(),
                ) && j == first_zero(visits_of(old(self).children()[i]))),
            old(self).state().done() ==> final(self).children().len() == 0,
            old(self).children().len() == 0 && !old(self).state().done() ==> final(self).children().len() == if final(self).visits() == EXPAND_THRESHOLD {
                old(self).state().legal(0).len()
            } else {
                0
            },
        decreases END_TURN - old(self).state().turn,
    {
        if self.state_.isDone() {
            let value: u64 = match self.state_.getWinningStatus() {
                WinningStatus::FISRT => 2,
                WinningStatus::SECOND => 0,
                _ => 1,
            };
            self.w_ = self.w_ + value;
            self.n_ = self.n_ + 1;
            proof {
                assert(self.children() =~= old(self).children());
            }
            return value;
        }
        if self.child_nodeses_.len() == 0 {
            let mut state_copy = self.state_.clone();
            let value = playout(&mut state_copy, rng);
            self.w_ = self.w_ + value;
            self.n_ = self.n_ + 1;
            proof {
                assert(row_visits(old(self).children()) =~= Seq::<int>::empty());
            }
            if self.n_ == EXPAND_THRESHOLD {
                self.expand();
            } else {
                proof {
                    assert(self.children() =~= old(self).children());
                }
            }
            value
        } else {
            let index = self.nextChildNode(ucb1);
            let ghost before = self.children();
            proof {
                old(self).lemma_sums();
                lemma_total_part(visits_of(before[index.0 as int]), index.1 as int);
                lemma_total_nonneg(visits_of(before[index.0 as int]).take(index.1 as int));
                lemma_two_moves(self.state_@, 0);
                lemma_two_moves(self.state_@, 1);
                assert(before[index.0 as int].len() == self.state_@.legal(1).len());
                lemma_step_wf(
                    self.state_@,
                    self.state_@.legal(0)[index.0 as int] as int,
                    self.state_@.legal(1)[index.1 as int] as int,
                );
                assert(before[index.0 as int][index.1 as int].wf());
                assert(row_visits(before)[index.0 as int] <= grid_visits(before));
            }
            let value = self.child_nodeses_[index.0][index.1].evaluate(rng, ucb1);
            proof {
                let after = self.children();
                let i = index.0 as int;
                let j = index.1 as int;
                assert(after.len() == before.len());
                assert forall|k: int| 0 <= k < after.len() && k != i implies after[k] == before[k] by {}
                assert(after[i].len() == before[i].len());
                assert forall|l: int| 0 <= l < after[i].len() && l != j implies after[i][l]
                    == before[i][l] by {}
                lemma_total_change(visits_of(before[i]), visits_of(after[i]), j);
                lemma_total_change(row_visits(before), row_visits(after), i);
                assert(went_into(before, after, i, j, value as int));
            }
            self.w_ = self.w_ + value;
            self.n_ = self.n_ + 1;
            value
        }
    }

    /// Index of the move of the first player whose children the most
    /// playouts went into; of several such moves, the first.
    pub fn mostVisitedRow(&self) -> (index: usize)
        requires
            self.wf(),
            self.children().len() > 0,
        ensures
            index < self.children().len(),
            index == first_max(row_visits(self.children())),
    {
        let counted = self.row_visit_counts();
        firstMaxCount(&counted.0)
    }

    /// Index of the move of the second player whose children the most
    /// playouts went into; of several such moves, the first.
    pub fn mostVisitedColumn(&self) -> (index: usize)
        requires
            self.wf(),
            self.children().len() > 0,
        ensures
            index < self.state().legal(1).len(),
            index == first_max(
                column_visits(self.children(), self.state().legal(1).len() as int),
            ),
    {
        proof {
            lemma_two_moves(self.state(), 1);
        }
        let visits = self.column_visit_counts();
        firstMaxCount(&visits)
    }
}

/// Grows a search tree on `state` by `playout_number` playouts: the root
/// gets its children at once, so every playout goes on into one of them.
pub fn ductSearch<F: Fn(bool, u64, u64, u64) -> u64>(
    state: &SimultaneousMazeState,
    playout_number: usize,
    rng: &mut StdRng,
    ucb1: &F,
) -> (root: Node)
    requires
        state.wf(),
        !state@.done(),
        2 * playout_number <= u64::MAX,
        scorer_ok(ucb1),
    ensures
        root.wf(),
        root.state() == state@,
        root.children().len() == state@.legal(0).len(),
        root.visits() == playout_number,
        root.child_visits() == playout_number,
{
    let mut root_node = Node::new(state);
    root_node.expand();
    let mut i: usize = 0;
    while i < playout_number
        invariant
            i <= playout_number,
            2 * playout_number <= u64::MAX,
            scorer_ok(ucb1),
            root_node.wf(),
            root_node.state() == state@,
            root_node.children().len() == state@.legal(0).len(),
            root_node.children().len() > 0,
            root_node.visits() == i,
            root_node.child_visits() == i,
        decreases playout_number - i,
    {
        root_node.evaluate(rng, ucb1);
        i = i + 1;
    }
    root_node
}

/// Decoupled UCT for `player_id`: grows a tree on `state` by
/// `playout_number` playouts and gives the move of that player whose
/// children the most playouts went into; of several such moves, the first.
pub fn ductAction<F: Fn(bool, u64, u64, u64) -> u64>(
    state: &SimultaneousMazeState,
    player_id: usize,
    playout_number: usize,
    rng: &mut StdRng,
    ucb1: &F,
) -> (action: usize)
    requires
        state.wf(),
        !state@.done(),
        player_id < 2,
        2 * playout_number <= u64::MAX,
        scorer_ok(ucb1),
    ensures
        state@.can_move(player_id as int, action as int),
{
    let root_node = ductSearch(state, playout_number, rng, ucb1);
    let legal_actions = state.legalActions(player_id);
    proof {
        lemma_two_moves(state@, 0);
        lemma_two_moves(state@, 1);
    }
    if player_id == 0 {
        let best = root_node.mostVisitedRow();
        legal_actions[best]
    } else {
        let best = root_node.mostVisitedColumn();
        legal_actions[best]
    }
}

} // verus!
