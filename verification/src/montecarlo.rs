//! Monte Carlo play of the alternating maze: random playouts, the primitive
//! search that spends its playouts on the moves in turn, and tree search.
use crate::alternate::{
    lemma_step_wf, lemma_two_moves, randomAction, AlternateMazeState, AlternateView, WinningStatus,
};
use crate::choice::{
    bestMeanIndex, best_mean, counts, firstMaxCount, first_max, first_zero, lemma_best_mean,
    lemma_first_max, lemma_first_zero, lemma_first_zero_found, lemma_first_zero_step,
    lemma_total_change, lemma_total_nonneg, lemma_total_part, lemma_total_step, lemma_total_zero,
    total,
};
use rand::rngs::StdRng;
use vstd::prelude::*;

verus! {

/// Plays random moves from `state` to the end of the game and gives what the
/// game is then worth, in half points, to the player that was to move at the
/// start: 2 for a win, 0 for a loss, 1 for a draw.
pub fn playout(state: &mut AlternateMazeState, rng: &mut StdRng) -> (value: u64)
    requires
        old(state).wf(),
    ensures
        final(state).wf(),
        final(state)@.done(),
        final(state)@.end_turn == old(state)@.end_turn,
        value == if (old(state)@.end_turn - old(state)@.turn) % 2 == 0 {
            final(state)@.worth()
        } else {
            2 - final(state)@.worth()
        },
        value <= 2,
    decreases old(state)@.end_turn - old(state)@.turn,
{
    match state.getWinningStatus() {
        WinningStatus::WIN => 2,
        WinningStatus::LOSE => 0,
        WinningStatus::DRAW => 1,
        WinningStatus::NONE => {
            let action = randomAction(state, rng);
            state.advance(action);
            2 - playout(state, rng)
        },
    }
}

/// Number of the first `playouts` playouts that fall to move `i` of `moves`
/// when they are dealt to the moves in turn.
pub open spec fn share(playouts: int, moves: int, i: int) -> int {
    playouts / moves + if i < playouts % moves {
        1int
    } else {
        0int
    }
}

/// One more playout falls to the move whose turn it is, and to no other.
pub proof fn lemma_share_next(playouts: int, moves: int, i: int)
    requires
        playouts >= 0,
        moves > 0,
        0 <= i < moves,
    ensures
        share(playouts + 1, moves, i) == share(playouts, moves, i) + if i == playouts % moves {
            1int
        } else {
            0int
        },
        share(playouts, moves, i) >= playouts / moves,
        share(0, moves, i) == 0,
{
    let q = playouts / moves;
    let r = playouts % moves;
    vstd::arithmetic::div_mod::lemma_fundamental_div_mod(playouts, moves);
    vstd::arithmetic::div_mod::lemma_mod_bound(playouts, moves);
    if r + 1 < moves {
        vstd::arithmetic::div_mod::lemma_fundamental_div_mod_converse(playouts + 1, moves, q, r + 1);
    } else {
        assert(playouts + 1 == (q + 1) * moves) by (nonlinear_arith)
            requires
                playouts == moves * q + r,
                r + 1 == moves,
        ;
        vstd::arithmetic::div_mod::lemma_fundamental_div_mod_converse(playouts + 1, moves, q + 1, 0);
    }
    vstd::arithmetic::div_mod::lemma_fundamental_div_mod_converse(0, moves, 0, 0);
}

/// Deals `playout_number` random playouts to the possible moves of `state`
/// in turn, and gives for every move the half points its playouts were
/// worth to the player to move, and their number.
pub fn primitiveMontecarloTally(
    state: &AlternateMazeState,
    playout_number: usize,
    rng: &mut StdRng,
) -> (tally: (Vec<u64>, Vec<u64>))
    requires
        state.wf(),
        !state@.done(),
        2 * playout_number <= u64::MAX,
    ensures
        tally.0.len() == state@.legal().len(),
        tally.1.len() == state@.legal().len(),
        forall|i: int|
            0 <= i < state@.legal().len() ==> #[trigger] tally.1[i] == share(
                playout_number as int,
                state@.legal().len() as int,
                i,
            ),
        forall|i: int| 0 <= i < state@.legal().len() ==> #[trigger] tally.0[i] <= 2 * tally.1[i],
{
    let legal_actions = state.legalActions();
    proof {
        lemma_two_moves(state@);
    }
    let moves = legal_actions.len();
    let mut values: Vec<u64> = Vec::new();
    let mut cnts: Vec<u64> = Vec::new();
    let mut k: usize = 0;
    while k < moves
        invariant
            k <= moves,
            values.len() == k,
            cnts.len() == k,
            forall|i: int| 0 <= i < k ==> #[trigger] cnts[i] == 0 && values[i] == 0,
        decreases moves - k,
    {
        values.push(0);
        cnts.push(0);
        k = k + 1;
    }
    proof {
        assert forall|i: int| 0 <= i < moves implies #[trigger] cnts[i] == share(0, moves as int, i) by {
            lemma_share_next(0, moves as int, i);
        }
    }
    let mut cnt: usize = 0;
    while cnt < playout_number
        invariant
            cnt <= playout_number,
            2 * playout_number <= u64::MAX,
            state.wf(),
            !state@.done(),
            legal_actions@ == state@.legal(),
            moves == legal_actions.len(),
            moves >= 2,
            forall|j: int|
                0 <= j < state@.legal().len() ==> state@.can_move(#[trigger] state@.legal()[j] as int),
            values.len() == moves,
            cnts.len() == moves,
            forall|i: int| 0 <= i < moves ==> #[trigger] cnts[i] == share(cnt as int, moves as int, i),
            forall|i: int| 0 <= i < moves ==> #[trigger] values[i] <= 2 * cnts[i],
        decreases playout_number - cnt,
    {
        let index = cnt % moves;
        let mut next_state = state.clone();
        next_state.advance(legal_actions[index]);
        let value = 2 - playout(&mut next_state, rng);
        proof {
            assert forall|i: int| 0 <= i < moves implies share(cnt + 1, moves as int, i) == share(
                cnt as int,
                moves as int,
                i,
            ) + if i == index {
                1int
            } else {
                0int
            } && share(cnt as int, moves as int, i) <= cnt by {
                lemma_share_next(cnt as int, moves as int, i);
                lemma_share_bound(cnt as int, moves as int, i);
            }
            assert(cnts[index as int] == share(cnt as int, moves as int, index as int));
        }
        values.set(index, values[index] + value);
        cnts.set(index, cnts[index] + 1);
        cnt = cnt + 1;
    }
    (values, cnts)
}

/// No move gets more playouts than were dealt.
pub proof fn lemma_share_bound(playouts: int, moves: int, i: int)
    requires
        playouts >= 0,
        moves > 0,
        0 <= i < moves,
    ensures
        0 <= share(playouts, moves, i) <= playouts,
        playouts > 0 && i == 0 ==> share(playouts, moves, i) > 0,
{
    let q = playouts / moves;
    let r = playouts % moves;
    vstd::arithmetic::div_mod::lemma_fundamental_div_mod(playouts, moves);
    vstd::arithmetic::div_mod::lemma_mod_bound(playouts, moves);
    assert(q >= 0 && (q > 0 ==> moves * q >= moves) && (r == 0 && playouts > 0 ==> q > 0)) by (nonlinear_arith)
        requires
            playouts == moves * q + r,
            0 <= r < moves,
            playouts >= 0,
            moves > 0,
    ;
    assert(moves * q >= q) by (nonlinear_arith)
        requires
            moves > 0,
            q >= 0,
    ;
    if q > 0 && r > 0 {
        assert(moves >= 2);
        assert(moves * q >= q + 1) by (nonlinear_arith)
            requires
                moves >= 2,
                q >= 1,
        ;
    }
}

/// Primitive Monte Carlo search: deals `playout_number` random playouts to
/// the possible moves in turn and gives the move whose playouts were worth
/// most on average; of several such moves, the first. A move that got no
/// playout is not given, unless there was no playout at all: then the first
/// move is.
pub fn primitiveMontecarloAction(
    state: &AlternateMazeState,
    playout_number: usize,
    rng: &mut StdRng,
) -> (action: usize)
    requires
        state.wf(),
        !state@.done(),
        2 * playout_number <= u64::MAX,
    ensures
        state@.can_move(action as int),
        playout_number == 0 ==> action == state@.legal()[0],
        exists|i: int|
            0 <= i < state@.legal().len() && action == state@.legal()[i] && (playout_number > 0
                ==> share(playout_number as int, state@.legal().len() as int, i) > 0),
{
    let legal_actions = state.legalActions();
    proof {
        lemma_two_moves(state@);
    }
    let tally = primitiveMontecarloTally(state, playout_number, rng);
    let best = bestMeanIndex(&tally.0, &tally.1);
    proof {
        let moves = legal_actions.len() as int;
        lemma_best_mean(counts(tally.0@), counts(tally.1@), moves);
        lemma_share_bound(playout_number as int, moves, 0);
        if playout_number > 0 {
            assert(tally.1[0] == share(playout_number as int, moves, 0));
            assert(counts(tally.1@)[0] > 0);
            assert(counts(tally.1@)[best as int] > 0);
            assert(tally.1[best as int] == share(playout_number as int, moves, best as int));
        } else {
            assert forall|i: int| 0 <= i < moves implies counts(tally.1@)[i] <= 0 by {
                assert(tally.1[i] == share(0, moves, i));
                lemma_share_bound(0, moves, i);
            }
            assert(best_mean(counts(tally.0@), counts(tally.1@), moves) < 0);
        }
    }
    legal_actions[best]
}

/// Number of playouts after which a leaf of the search tree gets children.
pub const EXPAND_THRESHOLD: u64 = 10;

/// A node of the search tree: a position, how often the search went through
/// it, and what those playouts were worth, in half points, to the player to
/// move in it. Its children, once it has them, are the positions its
/// possible moves lead to, in the order of the moves.
pub struct Node {
    state_: AlternateMazeState,
    w_: u64,
    child_nodes: Vec<Node>,
    n_: u64,
}

/// The visits of `nodes`, one for one.
pub open spec fn visits_of(nodes: Seq<Node>) -> Seq<int> {
    Seq::new(nodes.len(), |j: int| nodes[j].visits() as int)
}

/// Sum of the visits of `nodes`.
pub open spec fn visits_sum(nodes: Seq<Node>) -> int {
    total(visits_of(nodes))
}

/// Index of the first of `nodes` without a visit; -1 where all were visited.
pub open spec fn first_unvisited(nodes: Seq<Node>) -> int {
    first_zero(visits_of(nodes))
}

/// A playout went from `before` on into child `i` alone, which it was worth
/// `worth` half points to: that child has one visit more and as many half
/// points more, on the same position, and no other child has changed.
pub open spec fn went_into(before: Seq<Node>, after: Seq<Node>, i: int, worth: int) -> bool {
    &&& 0 <= i < before.len()
    &&& after.len() == before.len()
    &&& after[i].visits() == before[i].visits() + 1
    &&& after[i].wins() == before[i].wins() + worth
    &&& after[i].state() == before[i].state()
    &&& forall|j: int| 0 <= j < before.len() && j != i ==> after[j] == before[j]
}

/// What the scoring function is owed: it can be called on the half points
/// `w` and visits `n` of a child and the visits `t` of all children together
/// whenever the child was visited, `n > 0`, and its numbers fit: `w <= 2 * n`
/// and `n <= t`.
pub open spec fn scorer_ok<F: Fn(u64, u64, u64) -> u64>(ucb1: &F) -> bool {
    forall|w: u64, n: u64, t: u64| 0 < n <= t && w <= 2 * n ==> call_requires(ucb1, (w, n, t))
}

/// `scores` are what `ucb1` gave for `nodes`, one for one.
pub open spec fn scored<F: Fn(u64, u64, u64) -> u64>(
    ucb1: &F,
    nodes: Seq<Node>,
    scores: Seq<u64>,
) -> bool {
    &&& scores.len() == nodes.len()
    &&& forall|i: int|
        0 <= i < nodes.len() ==> call_ensures(
            ucb1,
            (nodes[i].wins() as u64, nodes[i].visits() as u64, visits_sum(nodes) as u64),
            #[trigger] scores[i],
        )
}

/// No sum of visits is less than a part of it.
pub proof fn lemma_visits_sum(nodes: Seq<Node>, i: int)
    requires
        0 <= i < nodes.len(),
    ensures
        0 <= nodes[i].visits() <= visits_sum(nodes),
{
    lemma_total_part(visits_of(nodes), i);
    lemma_total_nonneg(visits_of(nodes).take(i));
}

/// Where the visits change at `i` alone, the sum changes by as much.
pub proof fn lemma_visits_sum_change(before: Seq<Node>, after: Seq<Node>, i: int)
    requires
        0 <= i < before.len(),
        after.len() == before.len(),
        forall|j: int|
            0 <= j < before.len() && j != i ==> (#[trigger] after[j]).visits() == before[j].visits(),
    ensures
        visits_sum(after) == visits_sum(before) + after[i].visits() - before[i].visits(),
{
    lemma_total_change(visits_of(before), visits_of(after), i);
}

/// The first unvisited node has no visit and every node before it has one;
/// where there is none, every node was visited.
pub proof fn lemma_first_unvisited(nodes: Seq<Node>)
    ensures
        -1 <= first_unvisited(nodes) < nodes.len(),
        first_unvisited(nodes) >= 0 ==> nodes[first_unvisited(nodes)].visits() == 0,
        forall|i: int|
            0 <= i < nodes.len() && (first_unvisited(nodes) < 0 || i < first_unvisited(nodes))
                ==> (#[trigger] nodes[i]).visits() > 0,
{
    lemma_first_zero(visits_of(nodes));
    assert forall|i: int|
        0 <= i < nodes.len() && (first_unvisited(nodes) < 0 || i < first_unvisited(nodes)) implies (
    #[trigger] nodes[i]).visits() > 0 by {
        assert(visits_of(nodes)[i] != 0);
    }
}

impl Node {
    /// The position of the node.
    pub closed spec fn state(&self) -> AlternateView {
        self.state_@
    }

    /// What the playouts through the node were worth, in half points.
    pub closed spec fn wins(&self) -> nat {
        self.w_ as nat
    }

    /// Number of playouts through the node.
    pub closed spec fn visits(&self) -> nat {
        self.n_ as nat
    }

    /// The children of the node.
    pub closed spec fn children(&self) -> Seq<Node> {
        self.child_nodes@
    }

    /// Number of playouts that went on into a child.
    pub open spec fn child_visits(&self) -> int {
        visits_sum(self.children())
    }

    /// Validity of a tree. The position is valid and a playout is worth at
    /// most 2 half points. A node has children only while its game goes on:
    /// one valid tree for each possible move, on the position the move leads
    /// to. Every playout through a node with children went on into a child,
    /// but for those that the node took before it got them: none or
    /// `EXPAND_THRESHOLD`. A node without children whose game goes on has
    /// taken fewer than that.
    pub closed spec fn wf(&self) -> bool
        decreases self,
    {
        &&& self.state_.wf()
        &&& self.w_ <= 2 * self.n_
        &&& self.child_nodes@.len() > 0 ==> {
            &&& !self.state_@.done()
            &&& self.child_nodes@.len() == self.state_@.legal().len()
            &&& (self.n_ == visits_sum(self.child_nodes@) || self.n_ == visits_sum(self.child_nodes@)
                + EXPAND_THRESHOLD)
        }
        &&& self.child_nodes@.len() == 0 && !self.state_@.done() ==> self.n_ < EXPAND_THRESHOLD
        &&& forall|i: int|
            0 <= i < self.child_nodes@.len() ==> {
                &&& (#[trigger] self.child_nodes@[i]).wf()
                &&& self.child_nodes@[i].state_@ == self.state_@.step(self.state_@.legal()[i] as int)
            }
    }

    /// What validity says of the numbers of a tree.
    pub proof fn lemma_wf(&self)
        requires
            self.wf(),
        ensures
            self.state().wf(),
            self.wins() <= 2 * self.visits(),
            self.children().len() > 0 ==> !self.state().done() && self.children().len()
                == self.state().legal().len() && (self.visits() == self.child_visits()
                || self.visits() == self.child_visits() + EXPAND_THRESHOLD),
            self.children().len() == 0 && !self.state().done() ==> self.visits() < EXPAND_THRESHOLD,
            forall|i: int|
                0 <= i < self.children().len() ==> (#[trigger] self.children()[i]).wf()
                    && self.children()[i].state() == self.state().step(self.state().legal()[i] as int),
    {
    }

    /// A node on `state` that no playout went through, without children.
    pub fn new(state: &AlternateMazeState) -> (node: Self)
        requires
            state.wf(),
        ensures
            node.wf(),
            node.state() == state@,
            node.visits() == 0,
            node.wins() == 0,
            node.children().len() == 0,
    {
        Node { state_: state.clone(), w_: 0, child_nodes: Vec::new(), n_: 0 }
    }

    /// Number of playouts through the node.
    pub fn visitCount(&self) -> (n: u64)
        ensures
            n == self.visits(),
    {
        self.n_
    }

    /// Half points of the playouts through the node.
    pub fn winCount(&self) -> (w: u64)
        ensures
            w == self.wins(),
    {
        self.w_
    }

    /// Number of children.
    pub fn childCount(&self) -> (n: usize)
        ensures
            n == self.children().len(),
    {
        self.child_nodes.len()
    }

    /// The child that move number `i` leads to.
    pub fn child(&self, i: usize) -> (node: &Node)
        requires
            i < self.children().len(),
        ensures
            *node == self.children()[i as int],
    {
        &self.child_nodes[i]
    }

    /// Gives the node a child for each possible move.
    fn expand(&mut self)
        requires
            old(self).state_.wf(),
            !old(self).state_@.done(),
        ensures
            final(self).state_ == old(self).state_,
            final(self).w_ == old(self).w_,
            final(self).n_ == old(self).n_,
            final(self).child_nodes@.len() == old(self).state_@.legal().len(),
            final(self).child_nodes@.len() >= 2,
            visits_sum(final(self).child_nodes@) == 0,
            forall|i: int|
                0 <= i < final(self).child_nodes@.len() ==> {
                    &&& (#[trigger] final(self).child_nodes@[i]).wf()
                    &&& final(self).child_nodes@[i].state_@ == old(self).state_@.step(
                        old(self).state_@.legal()[i] as int,
                    )
                    &&& final(self).child_nodes@[i].n_ == 0
                },
    {
        let legal_actions = self.state_.legalActions();
        proof {
            lemma_two_moves(self.state_@);
        }
        self.child_nodes = Vec::new();
        let mut i: usize = 0;
        while i < legal_actions.len()
            invariant
                i <= legal_actions.len(),
                self.state_ == old(self).state_,
                self.w_ == old(self).w_,
                self.n_ == old(self).n_,
                self.state_.wf(),
                !self.state_@.done(),
                legal_actions@ == self.state_@.legal(),
                forall|k: int|
                    0 <= k < self.state_@.legal().len() ==> self.state_@.can_move(
                        #[trigger] self.state_@.legal()[k] as int,
                    ),
                self.child_nodes@.len() == i,
                forall|k: int|
                    0 <= k < i ==> {
                        &&& (#[trigger] self.child_nodes@[k]).wf()
                        &&& self.child_nodes@[k].state_@ == self.state_@.step(
                            self.state_@.legal()[k] as int,
                        )
                        &&& self.child_nodes@[k].n_ == 0
                    },
            decreases legal_actions.len() - i,
        {
            let mut next_state = self.state_.clone();
            next_state.advance(legal_actions[i]);
            let node = Node::new(&next_state);
            self.child_nodes.push(node);
            i = i + 1;
        }
        proof {
            assert forall|k: int| 0 <= k < self.child_nodes@.len() implies visits_of(
                self.child_nodes@,
            )[k] == 0 by {
                assert(self.child_nodes@[k].n_ == 0);
            }
            lemma_total_zero(visits_of(self.child_nodes@));
        }
    }

    /// Index of the first child without a visit, if there is one.
    fn firstUnvisited(&self) -> (found: Option<usize>)
        ensures
            match found {
                Some(i) => i == first_unvisited(self.children()),
                None => first_unvisited(self.children()) < 0,
            },
    {
        let ghost visits = visits_of(self.child_nodes@);
        let mut i: usize = 0;
        proof {
            if self.child_nodes.len() > 0 {
                lemma_first_zero_step(visits, 0);
            } else {
                assert(visits.take(0) =~= visits);
            }
        }
        while i < self.child_nodes.len()
            invariant
                i <= self.child_nodes.len(),
                visits == visits_of(self.child_nodes@),
                first_zero(visits.take(i as int)) < 0,
            decreases self.child_nodes.len() - i,
        {
            proof {
                lemma_first_zero_step(visits, i as int);
            }
            if self.child_nodes[i].n_ == 0 {
                proof {
                    lemma_first_zero_found(visits, i as int + 1);
                }
                return Some(i);
            }
            i = i + 1;
        }
        assert(visits.take(i as int) =~= visits);
        None
    }

    /// The child to go on with: the first one without a visit, else the
    /// first of those that `ucb1` scores highest. `ucb1` is asked only about
    /// children that were visited.
    pub fn nextChildNode<F: Fn(u64, u64, u64) -> u64>(&self, ucb1: &F) -> (index: usize)
        requires
            self.wf(),
            self.children().len() > 0,
            scorer_ok(ucb1),
        ensures
            index < self.children().len(),
            first_unvisited(self.children()) >= 0 ==> index == first_unvisited(self.children()),
            first_unvisited(self.children()) < 0 ==> exists|scores: Seq<u64>|
                scored(ucb1, self.children(), scores) && index == first_max(counts(scores)),
    {
        proof {
            lemma_first_unvisited(self.child_nodes@);
        }
        match self.firstUnvisited() {
            Some(i) => {
                return i;
            },
            None => {},
        }
        let ghost visits = visits_of(self.child_nodes@);
        let mut t: u64 = 0;
        let mut i: usize = 0;
        proof {
            lemma_total_step(visits, 0);
        }
        while i < self.child_nodes.len()
            invariant
                i <= self.child_nodes.len(),
                self.wf(),
                self.child_nodes@.len() > 0,
                visits == visits_of(self.child_nodes@),
                t == total(visits.take(i as int)),
            decreases self.child_nodes.len() - i,
        {
            proof {
                lemma_total_step(visits, i as int);
                lemma_total_part(visits, i as int);
            }
            t = t + self.child_nodes[i].n_;
            i = i + 1;
        }
        assert(visits.take(i as int) =~= visits);
        let mut scores: Vec<u64> = Vec::new();
        let mut i: usize = 0;
        while i < self.child_nodes.len()
            invariant
                i <= self.child_nodes.len(),
                self.wf(),
                scorer_ok(ucb1),
                first_unvisited(self.child_nodes@) < 0,
                forall|k: int| 0 <= k < self.child_nodes@.len() ==> (#[trigger] self.child_nodes@[k]).visits() > 0,
                t == visits_sum(self.child_nodes@),
                scores.len() == i,
                forall|k: int|
                    0 <= k < i ==> call_ensures(
                        ucb1,
                        (
                            self.child_nodes@[k].wins() as u64,
                            self.child_nodes@[k].visits() as u64,
                            visits_sum(self.child_nodes@) as u64,
                        ),
                        #[trigger] scores[k],
                    ),
            decreases self.child_nodes.len() - i,
        {
            let child_node = &self.child_nodes[i];
            proof {
                lemma_visits_sum(self.child_nodes@, i as int);
                assert(child_node.wf());
            }
            let score = ucb1(child_node.w_, child_node.n_, t);
            scores.push(score);
            i = i + 1;
        }
        let best = firstMaxCount(&scores);
        assert(scored(ucb1, self.children(), scores@));
        best
    }

    /// Runs one playout through the tree and gives what it was worth, in
    /// half points, to the player to move in this node. Where the game is
    /// over, that is the worth of the position. A node without children
    /// plays the game out at random, and gets its children when this was
    /// playout number `EXPAND_THRESHOLD`. Any other node goes on into the
    /// child that `nextChildNode` gives, and what the playout is worth to
    /// the child it is worth the other way round to the node. The playout
    /// is counted in every node it went through.
    pub fn evaluate<F: Fn(u64, u64, u64) -> u64>(&mut self, rng: &mut StdRng, ucb1: &F) -> (value: u64)
        requires
            old(self).wf(),
            2 * (old(self).visits() + 1) <= u64::MAX,
            scorer_ok(ucb1),
        ensures
            final(self).wf(),
            value <= 2,
            final(self).state() == old(self).state(),
            final(self).visits() == old(self).visits() + 1,
            final(self).wins() == old(self).wins() + value,
            old(self).state().done() ==> value == old(self).state().worth(),
            final(self).child_visits() == old(self).child_visits() + if old(self).children().len()
                > 0 {
                1int
            } else {
                0int
            },
            old(self).children().len() > 0 ==> exists|i: int| #[trigger]
                went_into(old(self).children(), final(self).children(), i, 2 - value) && (
                first_unvisited(old(self).children()) >= 0 ==> i == first_unvisited(
                    old(self).children(),
                )),
            old(self).state().done() ==> final(self).children().len() == 0,
            old(self).children().len() == 0 && !old(self).state().done() ==> final(self).children().len() == if final(self).visits() == EXPAND_THRESHOLD {
                old(self).state().legal().len()
            } else {
                0
            },
        decreases old(self).state().end_turn - old(self).state().turn,
    {
        if self.state_.isDone() {
            let value: u64 = match self.state_.getWinningStatus() {
                WinningStatus::WIN => 2,
                WinningStatus::LOSE => 0,
                _ => 1,
            };
            self.w_ = self.w_ + value;
            self.n_ = self.n_ + 1;
            return value;
        }
        if self.child_nodes.len() == 0 {
            let mut state_copy = self.state_.clone();
            let value = playout(&mut state_copy, rng);
            self.w_ = self.w_ + value;
            self.n_ = self.n_ + 1;
            if self.n_ == EXPAND_THRESHOLD {
                self.expand();
            }
            value
        } else {
            let index = self.nextChildNode(ucb1);
            let ghost before = self.child_nodes@;
            proof {
                lemma_visits_sum(before, index as int);
                lemma_two_moves(self.state_@);
                lemma_step_wf(self.state_@, self.state_@.legal()[index as int] as int);
            }
            let value = 2 - self.child_nodes[index].evaluate(rng, ucb1);
            proof {
                let after = self.child_nodes@;
                assert forall|j: int| 0 <= j < before.len() && j != index implies (#[trigger] after[j])
                    == before[j] by {}
                lemma_visits_sum_change(before, after, index as int);
            }
            self.w_ = self.w_ + value;
            self.n_ = self.n_ + 1;
            proof {
                assert(before == old(self).children());
                assert(went_into(before, self.children(), index as int, 2 - value));
            }
            value
        }
    }

    /// Index of the child that the most playouts went into; of several such
    /// children, the first.
    pub fn mostVisitedChild(&self) -> (index: usize)
        requires
            self.children().len() > 0,
        ensures
            index < self.children().len(),
            index == first_max(self.children().map_values(|c: Node| c.visits() as int)),
    {
        let mut visits: Vec<u64> = Vec::new();
        let mut i: usize = 0;
        while i < self.child_nodes.len()
            invariant
                i <= self.child_nodes.len(),
                visits.len() == i,
                forall|k: int| 0 <= k < i ==> #[trigger] visits[k] == self.child_nodes@[k].n_,
            decreases self.child_nodes.len() - i,
        {
            visits.push(self.child_nodes[i].n_);
            i = i + 1;
        }
        assert(counts(visits@) =~= self.children().map_values(|c: Node| c.visits() as int));
        firstMaxCount(&visits)
    }
}

/// Grows a search tree on `state` by `playout_number` playouts: the root
/// gets its children at once, so every playout goes on into one of them.
pub fn mctsSearch<F: Fn(u64, u64, u64) -> u64>(
    state: &AlternateMazeState,
    playout_number: usize,
    rng: &mut StdRng,
    ucb1: &F,
) -> (root: Node)
    requires
        state.wf(),
        !state@.done(),
        2 * playout_number <= u64::MAX,
        scorer_ok(ucb1),
    ensures
        root.wf(),
        root.state() == state@,
        root.children().len() == state@.legal().len(),
        root.visits() == playout_number,
        root.child_visits() == playout_number,
{
    let mut root_node = Node::new(state);
    root_node.expand();
    let mut i: usize = 0;
    while i < playout_number
        invariant
            i <= playout_number,
            2 * playout_number <= u64::MAX,
            scorer_ok(ucb1),
            root_node.wf(),
            root_node.state() == state@,
            root_node.children().len() == state@.legal().len(),
            root_node.children().len() > 0,
            root_node.visits() == i,
            root_node.child_visits() == i,
        decreases playout_number - i,
    {
        root_node.evaluate(rng, ucb1);
        i = i + 1;
    }
    root_node
}

/// Monte Carlo tree search: grows a tree on `state` by `playout_number`
/// playouts and gives the move whose child the most playouts went into; of
/// several such moves, the first.
pub fn mctsAction<F: Fn(u64, u64, u64) -> u64>(
    state: &AlternateMazeState,
    playout_number: usize,
    rng: &mut StdRng,
    ucb1: &F,
) -> (action: usize)
    requires
        state.wf(),
        !state@.done(),
        2 * playout_number <= u64::MAX,
        scorer_ok(ucb1),
    ensures
        state@.can_move(action as int),
{
    let root_node = mctsSearch(state, playout_number, rng, ucb1);
    let legal_actions = state.legalActions();
    proof {
        lemma_two_moves(state@);
    }
    let best = root_node.mostVisitedChild();
    legal_actions[best]
}

} // verus!
