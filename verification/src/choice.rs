//! Choosing among candidates: the first of the best, which is how every
//! search of this library breaks a tie.
use vstd::prelude::*;

verus! {

/// `i` is the first index at which `values` is greatest.
pub open spec fn is_first_max(values: Seq<int>, i: int) -> bool {
    &&& 0 <= i < values.len()
    &&& forall|j: int| 0 <= j < values.len() ==> values[j] <= values[i]
    &&& forall|j: int| 0 <= j < i ==> values[j] < values[i]
}

/// The first index at which `values` is greatest; 0 where there is no value.
pub open spec fn first_max(values: Seq<int>) -> int
    decreases values.len(),
{
    if values.len() <= 1 {
        0
    } else {
        let i = first_max(values.drop_last());
        if values.last() > values[i] {
            values.len() - 1
        } else {
            i
        }
    }
}

/// `first_max` is the first index of the greatest value, and no other index is.
pub proof fn lemma_first_max(values: Seq<int>)
    requires
        values.len() > 0,
    ensures
        is_first_max(values, first_max(values)),
        forall|i: int| is_first_max(values, i) ==> i == first_max(values),
    decreases values.len(),
{
    if values.len() > 1 {
        let front = values.drop_last();
        lemma_first_max(front);
        let i = first_max(front);
        assert(forall|j: int| 0 <= j < front.len() ==> front[j] == values[j]);
    }
    let m = first_max(values);
    assert forall|i: int| is_first_max(values, i) implies i == m by {
        if i < m {
            assert(values[i] < values[m]);
        } else if m < i {
            assert(values[m] < values[i]);
        }
    }
}

/// Adding a value at the end moves the first maximum there exactly when the
/// value is greater than all before it.
pub proof fn lemma_first_max_push(values: Seq<int>, v: int)
    requires
        values.len() > 0,
    ensures
        first_max(values.push(v)) == if v > values[first_max(values)] {
            values.len() as int
        } else {
            first_max(values)
        },
{
    lemma_first_max(values);
    assert(values.push(v).drop_last() =~= values);
}

/// The values of a vector of numbers.
pub open spec fn ints(values: Seq<i64>) -> Seq<int> {
    values.map_values(|v: i64| v as int)
}

/// Index of the first greatest value.
pub fn firstMaxIndex(values: &Vec<i64>) -> (best: usize)
    requires
        values.len() > 0,
    ensures
        best == first_max(ints(values@)),
        best < values.len(),
{
    let mut best: usize = 0;
    let mut i: usize = 1;
    assert(ints(values@).take(1).len() == 1);
    while i < values.len()
        invariant
            1 <= i <= values.len(),
            best < i,
            best == first_max(ints(values@).take(i as int)),
        decreases values.len() - i,
    {
        proof {
            let front = ints(values@).take(i as int);
            lemma_first_max_push(front, values[i as int] as int);
            assert(front.push(values[i as int] as int) =~= ints(values@).take(i + 1));
        }
        if values[i] > values[best] {
            best = i;
        }
        i = i + 1;
    }
    assert(ints(values@).take(values.len() as int) =~= ints(values@));
    best
}

/// The values of a vector of counts.
pub open spec fn counts(values: Seq<u64>) -> Seq<int> {
    values.map_values(|v: u64| v as int)
}

/// Index of the first greatest count.
pub fn firstMaxCount(values: &Vec<u64>) -> (best: usize)
    requires
        values.len() > 0,
    ensures
        best == first_max(counts(values@)),
        best < values.len(),
{
    let mut best: usize = 0;
    let mut i: usize = 1;
    assert(counts(values@).take(1).len() == 1);
    while i < values.len()
        invariant
            1 <= i <= values.len(),
            best < i,
            best == first_max(counts(values@).take(i as int)),
        decreases values.len() - i,
    {
        proof {
            let front = counts(values@).take(i as int);
            lemma_first_max_push(front, values[i as int] as int);
            assert(front.push(values[i as int] as int) =~= counts(values@).take(i + 1));
        }
        if values[i] > values[best] {
            best = i;
        }
        i = i + 1;
    }
    assert(counts(values@).take(values.len() as int) =~= counts(values@));
    best
}

/// Among the first `n` candidates, the first one tried at least once whose
/// mean `sums[i] / tries[i]` is greatest; -1 where none was tried. A mean is
/// greater than another when it is so as a fraction.
pub open spec fn best_mean(sums: Seq<int>, tries: Seq<int>, n: int) -> int
    decreases n,
{
    if n <= 0 {
        -1
    } else {
        let best = best_mean(sums, tries, n - 1);
        let i = n - 1;
        if tries[i] > 0 && (best < 0 || sums[i] * tries[best] > sums[best] * tries[i]) {
            i
        } else {
            best
        }
    }
}

/// `best_mean` is below `n`. Where it is a candidate, that one was tried, no
/// candidate tried has a greater mean, and every one before it has a lesser
/// mean. Where it is none, no candidate was tried.
pub proof fn lemma_best_mean(sums: Seq<int>, tries: Seq<int>, n: int)
    requires
        0 <= n <= tries.len(),
    ensures
        -1 <= best_mean(sums, tries, n) < n,
        best_mean(sums, tries, n) >= 0 ==> tries[best_mean(sums, tries, n)] > 0,
        best_mean(sums, tries, n) < 0 ==> forall|i: int| 0 <= i < n ==> #[trigger] tries[i] <= 0,
        forall|i: int|
            0 <= i < n && #[trigger] tries[i] > 0 ==> sums[i] * tries[best_mean(sums, tries, n)]
                <= sums[best_mean(sums, tries, n)] * tries[i],
        forall|i: int|
            0 <= i < best_mean(sums, tries, n) && #[trigger] tries[i] > 0 ==> sums[i] * tries[best_mean(
                sums,
                tries,
                n,
            )] < sums[best_mean(sums, tries, n)] * tries[i],
    decreases n,
{
    if n > 0 {
        lemma_best_mean(sums, tries, n - 1);
        let before = best_mean(sums, tries, n - 1);
        let i = n - 1;
        if tries[i] > 0 && before >= 0 && sums[i] * tries[before] > sums[before] * tries[i] {
            assert forall|j: int| 0 <= j < i && #[trigger] tries[j] > 0 implies sums[j] * tries[i]
                < sums[i] * tries[j] by {
                lemma_mean_order(sums[j], tries[j], sums[before], tries[before], sums[i], tries[i]);
            }
        }
    }
}

/// Fractions with positive denominators are ordered transitively.
pub proof fn lemma_mean_order(a: int, x: int, b: int, y: int, c: int, z: int)
    requires
        x > 0,
        y > 0,
        z > 0,
        a * y <= b * x,
        b * z < c * y,
    ensures
        a * z < c * x,
{
    assert(a * y * z <= b * x * z) by (nonlinear_arith)
        requires
            a * y <= b * x,
            z > 0,
    ;
    assert(b * z * x < c * y * x) by (nonlinear_arith)
        requires
            b * z < c * y,
            x > 0,
    ;
    assert(a * z * y < c * x * y) by (nonlinear_arith)
        requires
            a * y * z <= b * x * z,
            b * z * x < c * y * x,
    ;
    assert(a * z < c * x) by (nonlinear_arith)
        requires
            a * z * y < c * x * y,
            y > 0,
    ;
}

/// Index of the first candidate whose mean `sums[i] / tries[i]` is greatest
/// among those tried at least once; 0 where none was tried.
pub fn bestMeanIndex(sums: &Vec<u64>, tries: &Vec<u64>) -> (best: usize)
    requires
        sums.len() == tries.len(),
        sums.len() > 0,
    ensures
        best < sums.len(),
        best == if best_mean(counts(sums@), counts(tries@), sums.len() as int) < 0 {
            0
        } else {
            best_mean(counts(sums@), counts(tries@), sums.len() as int)
        },
{
    let mut best: usize = 0;
    let mut found = false;
    let mut i: usize = 0;
    while i < sums.len()
        invariant
            i <= sums.len(),
            sums.len() == tries.len(),
            !found ==> best == 0 && best_mean(counts(sums@), counts(tries@), i as int) < 0,
            found ==> best < i && best == best_mean(counts(sums@), counts(tries@), i as int),
        decreases sums.len() - i,
    {
        if tries[i] > 0 {
            if !found {
                best = i;
                found = true;
            } else {
                assert(sums[i as int] * tries[best as int] <= u64::MAX * u64::MAX) by (nonlinear_arith)
                    requires
                        0 <= sums[i as int] <= u64::MAX,
                        0 <= tries[best as int] <= u64::MAX,
                ;
                assert(sums[best as int] * tries[i as int] <= u64::MAX * u64::MAX) by (nonlinear_arith)
                    requires
                        0 <= sums[best as int] <= u64::MAX,
                        0 <= tries[i as int] <= u64::MAX,
                ;
                let left = (sums[i] as u128) * (tries[best] as u128);
                let right = (sums[best] as u128) * (tries[i] as u128);
                if left > right {
                    best = i;
                }
            }
        }
        i = i + 1;
    }
    best
}

/// Sum of `s`.
pub open spec fn total(s: Seq<int>) -> int
    decreases s.len(),
{
    if s.len() == 0 {
        0
    } else {
        total(s.drop_last()) + s.last()
    }
}

/// The sum of the first `n + 1` numbers is that of the first `n` and the next.
pub proof fn lemma_total_step(s: Seq<int>, n: int)
    requires
        0 <= n < s.len(),
    ensures
        total(s.take(n + 1)) == total(s.take(n)) + s[n],
        total(s.take(0)) == 0,
{
    assert(s.take(n + 1).drop_last() =~= s.take(n));
}

/// Where the numbers change at `i` alone, the sum changes by as much.
pub proof fn lemma_total_change(before: Seq<int>, after: Seq<int>, i: int)
    requires
        0 <= i < before.len(),
        after.len() == before.len(),
        forall|j: int| 0 <= j < before.len() && j != i ==> after[j] == before[j],
    ensures
        total(after) == total(before) + after[i] - before[i],
    decreases before.len(),
{
    if i < before.len() - 1 {
        lemma_total_change(before.drop_last(), after.drop_last(), i);
    } else {
        assert(before.drop_last() =~= after.drop_last());
    }
}

/// Numbers that are no greater one for one have no greater sum.
pub proof fn lemma_total_le(a: Seq<int>, b: Seq<int>)
    requires
        a.len() == b.len(),
        forall|j: int| 0 <= j < a.len() ==> a[j] <= b[j],
    ensures
        total(a) <= total(b),
    decreases a.len(),
{
    if a.len() > 0 {
        lemma_total_le(a.drop_last(), b.drop_last());
    }
}

/// Of numbers that are not negative, none is greater than the sum, and no
/// sum of the first `n` is.
pub proof fn lemma_total_part(s: Seq<int>, n: int)
    requires
        0 <= n <= s.len(),
        forall|j: int| 0 <= j < s.len() ==> s[j] >= 0,
    ensures
        0 <= total(s.take(n)) <= total(s),
        n < s.len() ==> total(s.take(n)) + s[n] <= total(s),
    decreases s.len() - n,
{
    if n < s.len() {
        lemma_total_step(s, n);
        lemma_total_part(s, n + 1);
        lemma_total_nonneg(s.take(n));
    } else {
        assert(s.take(n) =~= s);
        lemma_total_nonneg(s);
    }
}

/// Numbers that are not negative have a sum that is not negative.
pub proof fn lemma_total_nonneg(s: Seq<int>)
    requires
        forall|j: int| 0 <= j < s.len() ==> s[j] >= 0,
    ensures
        total(s) >= 0,
    decreases s.len(),
{
    if s.len() > 0 {
        lemma_total_nonneg(s.drop_last());
    }
}

/// Numbers that are at most twice others, one for one, sum to at most twice
/// their sum.
pub proof fn lemma_total_le_twice(a: Seq<int>, b: Seq<int>)
    requires
        a.len() == b.len(),
        forall|j: int| 0 <= j < a.len() ==> a[j] <= 2 * b[j],
    ensures
        total(a) <= 2 * total(b),
    decreases a.len(),
{
    if a.len() > 0 {
        lemma_total_le_twice(a.drop_last(), b.drop_last());
    }
}

/// Zeros sum to zero.
pub proof fn lemma_total_zero(s: Seq<int>)
    requires
        forall|j: int| 0 <= j < s.len() ==> s[j] == 0,
    ensures
        total(s) == 0,
    decreases s.len(),
{
    if s.len() > 0 {
        lemma_total_zero(s.drop_last());
    }
}

/// Index of the first zero of `s`; -1 where there is none.
pub open spec fn first_zero(s: Seq<int>) -> int
    decreases s.len(),
{
    if s.len() == 0 {
        -1
    } else if first_zero(s.drop_last()) >= 0 {
        first_zero(s.drop_last())
    } else if s.last() == 0 {
        s.len() - 1
    } else {
        -1
    }
}

/// `first_zero` is a zero with none before it; where it is -1 there is none.
pub proof fn lemma_first_zero(s: Seq<int>)
    ensures
        -1 <= first_zero(s) < s.len(),
        first_zero(s) >= 0 ==> s[first_zero(s)] == 0,
        forall|i: int| 0 <= i < s.len() && (first_zero(s) < 0 || i < first_zero(s)) ==> s[i] != 0,
    decreases s.len(),
{
    if s.len() > 0 {
        let front = s.drop_last();
        lemma_first_zero(front);
        assert forall|i: int|
            0 <= i < s.len() && (first_zero(s) < 0 || i < first_zero(s)) implies s[i] != 0 by {
            if i < front.len() {
                assert(front[i] == s[i]);
            }
        }
    }
}

/// The first zero among the first `n + 1` numbers, from that among the first `n`.
pub proof fn lemma_first_zero_step(s: Seq<int>, n: int)
    requires
        0 <= n < s.len(),
    ensures
        first_zero(s.take(0)) < 0,
        first_zero(s.take(n + 1)) == if first_zero(s.take(n)) >= 0 {
            first_zero(s.take(n))
        } else if s[n] == 0 {
            n
        } else {
            -1
        },
{
    assert(s.take(n + 1).drop_last() =~= s.take(n));
}

/// A first zero among the first `n` numbers is the first zero of all.
pub proof fn lemma_first_zero_found(s: Seq<int>, n: int)
    requires
        0 <= n <= s.len(),
        first_zero(s.take(n)) >= 0,
    ensures
        first_zero(s) == first_zero(s.take(n)),
    decreases s.len() - n,
{
    if n < s.len() {
        lemma_first_zero_step(s, n);
        lemma_first_zero_found(s, n + 1);
    } else {
        assert(s.take(n) =~= s);
    }
}

} // verus!
