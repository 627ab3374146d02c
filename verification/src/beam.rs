//! A collection of candidates ranked by score, best first. Among
//! candidates of equal score the one that came first stays first.
use vstd::prelude::*;

verus! {

/// A candidate with the score it is ranked by.
#[derive(Debug)]
pub struct Ranked<T> {
    pub score: i64,
    pub item: T,
}

/// The scores never rise along `s`.
pub open spec fn descending<T>(s: Seq<Ranked<T>>) -> bool {
    forall|i: int, j: int| 0 <= i < j < s.len() ==> s[i].score >= s[j].score
}

/// Number of leading candidates of `s` whose score is at least `score`: the
/// place at which a new candidate of that score goes.
pub open spec fn rank_of<T>(s: Seq<Ranked<T>>, score: int) -> int
    decreases s.len(),
{
    if s.len() == 0 || s[0].score < score {
        0
    } else {
        1 + rank_of(s.drop_first(), score)
    }
}

/// `s` with `c` put behind every candidate that scores at least as much.
pub open spec fn placed<T>(s: Seq<Ranked<T>>, c: Ranked<T>) -> Seq<Ranked<T>> {
    s.insert(rank_of(s, c.score as int), c)
}

/// `rank_of` lies within the sequence, every candidate before it scores at
/// least `score`, and the candidate at it, if any, scores less.
pub proof fn lemma_rank_of<T>(s: Seq<Ranked<T>>, score: int)
    ensures
        0 <= rank_of(s, score) <= s.len(),
        forall|i: int| 0 <= i < rank_of(s, score) ==> s[i].score >= score,
        rank_of(s, score) < s.len() ==> s[rank_of(s, score)].score < score,
    decreases s.len(),
{
    if s.len() > 0 && s[0].score >= score {
        let rest = s.drop_first();
        lemma_rank_of(rest, score);
        assert forall|i: int| 0 <= i < rank_of(s, score) implies s[i].score >= score by {
            if i > 0 {
                assert(rest[i - 1] == s[i]);
            }
        }
        if rank_of(s, score) < s.len() {
            assert(rest[rank_of(rest, score)] == s[rank_of(s, score)]);
        }
    }
}

/// The first index whose candidate scores less than `score` is `rank_of`.
pub proof fn lemma_rank_is_first_lower<T>(s: Seq<Ranked<T>>, score: int, k: int)
    requires
        0 <= k <= s.len(),
        forall|i: int| 0 <= i < k ==> s[i].score >= score,
        k < s.len() ==> s[k].score < score,
    ensures
        rank_of(s, score) == k,
    decreases s.len(),
{
    if s.len() > 0 && k > 0 {
        let rest = s.drop_first();
        assert forall|i: int| 0 <= i < k - 1 implies rest[i].score >= score by {
            assert(rest[i] == s[i + 1]);
        }
        lemma_rank_is_first_lower(rest, score, k - 1);
    }
}

/// Placing a candidate keeps a descending sequence descending.
pub proof fn lemma_placed_descending<T>(s: Seq<Ranked<T>>, c: Ranked<T>)
    requires
        descending(s),
    ensures
        descending(placed(s, c)),
        placed(s, c).len() == s.len() + 1,
{
    lemma_rank_of(s, c.score as int);
    let k = rank_of(s, c.score as int);
    let p = placed(s, c);
    assert forall|i: int, j: int| 0 <= i < j < p.len() implies p[i].score >= p[j].score by {
        if j < k {
        } else if j == k {
        } else {
            assert(p[j] == s[j - 1]);
            if i < k {
                if k < s.len() {
                    assert(s[k].score >= s[j - 1].score || k == j - 1);
                }
            } else if i == k {
                assert(s[k].score >= s[j - 1].score || k == j - 1);
            } else {
                assert(p[i] == s[i - 1]);
            }
        }
    }
}

/// Sequences that agree in their scores rank a new score alike.
pub proof fn lemma_rank_of_same_scores<T, U>(s: Seq<Ranked<T>>, u: Seq<Ranked<U>>, score: int)
    requires
        s.len() == u.len(),
        forall|i: int| 0 <= i < s.len() ==> s[i].score == u[i].score,
    ensures
        rank_of(s, score) == rank_of(u, score),
    decreases s.len(),
{
    if s.len() > 0 && s[0].score >= score {
        let rs = s.drop_first();
        let ru = u.drop_first();
        assert forall|i: int| 0 <= i < rs.len() implies rs[i].score == ru[i].score by {
            assert(rs[i] == s[i + 1]);
            assert(ru[i] == u[i + 1]);
        }
        lemma_rank_of_same_scores(rs, ru, score);
    }
}

/// Candidates held best first.
pub struct Beam<T> {
    entries: Vec<Ranked<T>>,
}

impl<T> View for Beam<T> {
    type V = Seq<Ranked<T>>;

    closed spec fn view(&self) -> Seq<Ranked<T>> {
        self.entries@
    }
}

impl<T> Beam<T> {
    /// The candidates are in descending order of score.
    pub open spec fn wf(&self) -> bool {
        descending(self@)
    }

    /// A collection without candidates.
    pub fn new() -> (beam: Self)
        ensures
            beam@ == Seq::<Ranked<T>>::empty(),
            beam.wf(),
    {
        Beam { entries: Vec::new() }
    }

    /// Number of candidates.
    pub fn len(&self) -> (n: usize)
        ensures
            n == self@.len(),
    {
        self.entries.len()
    }

    /// Whether there is no candidate.
    pub fn is_empty(&self) -> (empty: bool)
        ensures
            empty == (self@.len() == 0),
    {
        self.entries.len() == 0
    }

    /// Adds a candidate behind those that score at least as much.
    pub fn push(&mut self, score: i64, item: T)
        requires
            old(self).wf(),
        ensures
            final(self)@ == placed(old(self)@, Ranked { score, item }),
            final(self).wf(),
    {
        let mut k: usize = 0;
        while k < self.entries.len() && self.entries[k].score >= score
            invariant
                k <= self.entries.len(),
                self.entries@ == old(self)@,
                forall|i: int| 0 <= i < k ==> self.entries@[i].score >= score,
            decreases self.entries.len() - k,
        {
            k = k + 1;
        }
        proof {
            lemma_rank_is_first_lower(self@, score as int, k as int);
            lemma_placed_descending(self@, Ranked { score, item });
        }
        self.entries.insert(k, Ranked { score, item });
    }

    /// The best candidate.
    pub fn peek(&self) -> (top: &Ranked<T>)
        requires
            self@.len() > 0,
        ensures
            *top == self@[0],
    {
        &self.entries[0]
    }

    /// Takes the best candidate out.
    pub fn pop(&mut self) -> (top: Ranked<T>)
        requires
            old(self).wf(),
            old(self)@.len() > 0,
        ensures
            top == old(self)@[0],
            final(self)@ == old(self)@.drop_first(),
            final(self).wf(),
    {
        let top = self.entries.remove(0);
        assert(self.entries@ =~= old(self)@.drop_first());
        top
    }
}

} // verus!
