use vstd::prelude::*;

use crate::row::{DataRow, labels};

verus! {

/// How many times `l` occurs in `s`.
pub open spec fn occurrences(s: Seq<Seq<char>>, l: Seq<char>) -> nat
    decreases s.len(),
{
    if s.len() == 0 {
        0
    } else {
        occurrences(s.drop_last(), l) + if s.last() == l {
            1nat
        } else {
            0nat
        }
    }
}

/// `sum over i < k of occurrences(t, s[i])`.
pub open spec fn occurrence_sum(s: Seq<Seq<char>>, t: Seq<Seq<char>>, k: int) -> nat
    decreases k,
{
    if k <= 0 {
        0
    } else {
        occurrence_sum(s, t, k - 1) + occurrences(t, s[k - 1])
    }
}

/// The number of ordered pairs `(i, j)` of positions of `s` that hold the
/// same label; it is also the sum of the squares of the class counts.
pub open spec fn same_label_pairs(s: Seq<Seq<char>>) -> nat {
    occurrence_sum(s, s, s.len() as int)
}

/// Every position of `s` holds the same label.
pub open spec fn pure(s: Seq<Seq<char>>) -> bool {
    forall|i: int, j: int| 0 <= i < s.len() && 0 <= j < s.len() ==> s[i] == s[j]
}

/// Gini impurity as a fraction `gini_num / gini_den`: the share of ordered
/// pairs of rows whose labels differ, `1 - sum (count / n)^2`. The empty set
/// has impurity `0 / 1`.
pub open spec fn gini_num(s: Seq<Seq<char>>) -> int {
    s.len() * s.len() - same_label_pairs(s)
}

pub open spec fn gini_den(s: Seq<Seq<char>>) -> int {
    if s.len() == 0 {
        1
    } else {
        (s.len() * s.len()) as int
    }
}

/// A fraction of non-negative integers.
#[derive(Debug, Clone, Copy, PartialEq, Eq)]
pub struct Ratio {
    pub num: u128,
    pub den: u128,
}

/// The class counts of `s`, as a list of distinct labels with the number of
/// times each occurs; every label of `s` is listed.
pub open spec fn counts_of(counts: Seq<(String, usize)>, s: Seq<Seq<char>>) -> bool {
    &&& forall|a: int, b: int|
        0 <= a < counts.len() && 0 <= b < counts.len() && a != b ==> counts[a].0@
            != counts[b].0@
    &&& forall|a: int|
        0 <= a < counts.len() ==> counts[a].1 == occurrences(s, #[trigger] counts[a].0@)
            && counts[a].1 >= 1
    &&& forall|k: int| 0 <= k < s.len() ==> listed(counts, #[trigger] s[k])
}

/// `l` is one of the labels of `counts`.
pub open spec fn listed(counts: Seq<(String, usize)>, l: Seq<char>) -> bool {
    exists|a: int| 0 <= a < counts.len() && #[trigger] counts[a].0@ == l
}

pub proof fn lemma_occurrences_push(s: Seq<Seq<char>>, l: Seq<char>, m: Seq<char>)
    ensures
        occurrences(s.push(l), m) == occurrences(s, m) + if l == m {
            1nat
        } else {
            0nat
        },
{
    assert(s.push(l).drop_last() =~= s);
}

pub proof fn lemma_occurrences_bound(s: Seq<Seq<char>>, l: Seq<char>)
    ensures
        occurrences(s, l) <= s.len(),
        occurrences(s, l) == s.len() <==> forall|k: int| 0 <= k < s.len() ==> s[k] == l,
    decreases s.len(),
{
    if s.len() > 0 {
        lemma_occurrences_bound(s.drop_last(), l);
        if occurrences(s, l) == s.len() {
            assert forall|k: int| 0 <= k < s.len() implies s[k] == l by {
                if k < s.len() - 1 {
                    assert(s.drop_last()[k] == s[k]);
                }
            }
        }
        if forall|k: int| 0 <= k < s.len() ==> s[k] == l {
            assert forall|k: int| 0 <= k < s.drop_last().len() implies s.drop_last()[k] == l by {
                assert(s.drop_last()[k] == s[k]);
            }
        }
    }
}

proof fn lemma_occurrence_sum_prefix(s: Seq<Seq<char>>, x: Seq<char>, t: Seq<Seq<char>>, k: int)
    requires
        0 <= k <= s.len(),
    ensures
        occurrence_sum(s.push(x), t, k) == occurrence_sum(s, t, k),
    decreases k,
{
    if k > 0 {
        lemma_occurrence_sum_prefix(s, x, t, k - 1);
    }
}

proof fn lemma_occurrence_sum_push_t(s: Seq<Seq<char>>, t: Seq<Seq<char>>, l: Seq<char>, k: int)
    requires
        0 <= k <= s.len(),
    ensures
        occurrence_sum(s, t.push(l), k) == occurrence_sum(s, t, k) + occurrences(s.take(k), l),
    decreases k,
{
    if k > 0 {
        lemma_occurrence_sum_push_t(s, t, l, k - 1);
        lemma_occurrences_push(t, l, s[k - 1]);
        assert(s.take(k).drop_last() =~= s.take(k - 1));
    } else {
        assert(s.take(0) =~= Seq::<Seq<char>>::empty());
    }
}

/// Adding a row with a label that occurs `c` times adds `2c + 1` pairs.
pub proof fn lemma_same_label_pairs_push(s: Seq<Seq<char>>, l: Seq<char>)
    ensures
        same_label_pairs(s.push(l)) == same_label_pairs(s) + 2 * occurrences(s, l) + 1,
{
    let t = s.push(l);
    let n = s.len() as int;
    lemma_occurrence_sum_prefix(s, l, t, n);
    lemma_occurrence_sum_push_t(s, s, l, n);
    assert(s.take(n) =~= s);
    assert(t[n] == l);
    lemma_occurrences_push(s, l, l);
}

proof fn lemma_occurrence_sum_bound(s: Seq<Seq<char>>, k: int)
    requires
        0 <= k <= s.len(),
    ensures
        occurrence_sum(s, s, k) <= k * s.len(),
        occurrence_sum(s, s, k) == k * s.len() <==> forall|i: int|
            0 <= i < k ==> occurrences(s, #[trigger] s[i]) == s.len(),
    decreases k,
{
    if k > 0 {
        let n = s.len() as int;
        lemma_occurrence_sum_bound(s, k - 1);
        lemma_occurrences_bound(s, s[k - 1]);
        assert((k - 1) * n + n == k * n) by (nonlinear_arith);
        if occurrence_sum(s, s, k) == k * n {
            assert(occurrence_sum(s, s, k - 1) == (k - 1) * n);
            assert(occurrences(s, s[k - 1]) == n);
        }
        if forall|i: int| 0 <= i < k ==> occurrences(s, #[trigger] s[i]) == s.len() {
            assert(forall|i: int| 0 <= i < k - 1 ==> occurrences(s, #[trigger] s[i]) == s.len());
            assert(occurrences(s, s[k - 1]) == n);
        }
    } else {
        assert(k * s.len() == 0) by (nonlinear_arith)
            requires
                k == 0,
        ;
    }
}

/// For a non-empty set of rows, the Gini impurity is zero exactly when every
/// row has the same label.
pub proof fn lemma_gini_zero_iff_pure<T: DataRow>(rows: Seq<&T>)
    requires
        rows.len() > 0,
    ensures
        gini_num(labels(rows)) == 0 <==> pure(labels(rows)),
{
    let s = labels(rows);
    let n = s.len() as int;
    lemma_occurrence_sum_bound(s, n);
    if pure(s) {
        assert forall|i: int| 0 <= i < n implies occurrences(s, #[trigger] s[i]) == s.len() by {
            lemma_occurrences_bound(s, s[i]);
        }
    }
    if gini_num(s) == 0 {
        assert forall|i: int, j: int| 0 <= i < n && 0 <= j < n implies s[i] == s[j] by {
            assert(occurrences(s, s[i]) == s.len());
            lemma_occurrences_bound(s, s[i]);
        }
    }
}

/// Counts the labels of `rows`, listing each distinct label once, together
/// with the number of same-label pairs.
pub(crate) fn tally<T: DataRow>(rows: &[&T]) -> (r: (Vec<(String, usize)>, u128))
    ensures
        counts_of(r.0@, labels(rows@)),
        r.1 == same_label_pairs(labels(rows@)),
        r.1 <= rows@.len() * rows@.len(),
{
    let ghost s = labels(rows@);
    let mut counts: Vec<(String, usize)> = Vec::new();
    let mut pairs: u128 = 0;
    let mut i: usize = 0;
    assert(s.take(0) =~= Seq::<Seq<char>>::empty());
    while i < rows.len()
        invariant
            i <= rows@.len(),
            s == labels(rows@),
            counts_of(counts@, s.take(i as int)),
            pairs == same_label_pairs(s.take(i as int)),
            pairs <= i * i,
            forall|a: int| 0 <= a < counts@.len() ==> counts@[a].1 <= i,
        decreases rows@.len() - i,
    {
        let ghost prev = s.take(i as int);
        let label = rows[i].label();
        assert(s.take(i + 1) =~= prev.push(label@));
        proof {
            lemma_same_label_pairs_push(prev, label@);
        }
        let mut j: usize = 0;
        while j < counts.len()
            invariant
                j <= counts@.len(),
                forall|a: int| 0 <= a < j ==> counts@[a].0@ != label@,
                counts_of(counts@, prev),
                forall|a: int| 0 <= a < counts@.len() ==> counts@[a].1 <= i,
            ensures
                j <= counts@.len(),
                forall|a: int| 0 <= a < j ==> counts@[a].0@ != label@,
                j < counts@.len() ==> counts@[j as int].0@ == label@,
            decreases counts@.len() - j,
        {
            if counts[j].0 == label {
                break;
            }
            j = j + 1;
        }
        assert(j < counts@.len() ==> counts@[j as int].0@ == label@);
        if j < counts.len() {
            let c = counts[j].1;
            proof {
                assert(counts@[j as int].0@ == label@);
                assert(c == occurrences(prev, label@));
                assert(c <= i);
                assert(pairs + 2 * c + 1 <= (i + 1) * (i + 1)) by (nonlinear_arith)
                    requires
                        pairs <= i * i,
                        c <= i,
                ;
                assert((i + 1) * (i + 1) <= u128::MAX) by (nonlinear_arith)
                    requires
                        i < usize::MAX,
                ;
            }
            pairs = pairs + 2 * (c as u128) + 1;
            let name = counts[j].0.clone();
            let ghost before = counts@;
            counts.set(j, (name, c + 1));
            proof {
                assert forall|a: int| 0 <= a < counts@.len() implies counts@[a].1 == occurrences(
                    s.take(i + 1),
                    #[trigger] counts@[a].0@,
                ) by {
                    lemma_occurrences_push(prev, label@, counts@[a].0@);
                }
                assert forall|k: int| 0 <= k < i + 1 implies listed(counts@, #[trigger] s.take(i + 1)[k]) by {
                    if k < i {
                        assert(s.take(i + 1)[k] == prev[k]);
                        assert(listed(before, prev[k]));
                        let a = choose|a: int| 0 <= a < before.len() && #[trigger] before[a].0@ == prev[k];
                        assert(counts@[a].0@ == before[a].0@);
                    } else {
                        assert(counts@[j as int].0@ == s.take(i + 1)[k]);
                    }
                }
            }
        } else {
            proof {
                assert(occurrences(prev, label@) == 0) by {
                    if occurrences(prev, label@) > 0 {
                        lemma_occurrences_positive(prev, label@);
                        let k = choose|k: int| 0 <= k < prev.len() && prev[k] == label@;
                        assert(counts_of(counts@, prev));
                        assert(0 <= k < prev.len());
                        assert(forall|q: int| 0 <= q < prev.len() ==> listed(counts@, #[trigger] prev[q]));
                        assert(listed(counts@, prev[k]));
                        let a = choose|a: int| 0 <= a < counts@.len() && #[trigger] counts@[a].0@ == prev[k];
                        assert(counts@[a].0@ != label@);
                    }
                }
                assert(pairs + 1 <= (i + 1) * (i + 1)) by (nonlinear_arith)
                    requires
                        pairs <= i * i,
                ;
                assert((i + 1) * (i + 1) <= u128::MAX) by (nonlinear_arith)
                    requires
                        i < usize::MAX,
                ;
            }
            pairs = pairs + 1;
            let ghost before = counts@;
            counts.push((label, 1));
            proof {
                assert forall|a: int| 0 <= a < counts@.len() implies counts@[a].1 == occurrences(
                    s.take(i + 1),
                    #[trigger] counts@[a].0@,
                ) && counts@[a].1 >= 1 by {
                    lemma_occurrences_push(prev, label@, counts@[a].0@);
                }
                assert forall|k: int| 0 <= k < i + 1 implies listed(counts@, #[trigger] s.take(i + 1)[k]) by {
                    if k < i {
                        assert(s.take(i + 1)[k] == prev[k]);
                        assert(listed(before, prev[k]));
                        let a = choose|a: int| 0 <= a < before.len() && #[trigger] before[a].0@ == prev[k];
                        assert(counts@[a] == before[a]);
                    } else {
                        assert(counts@[counts@.len() - 1].0@ == s.take(i + 1)[k]);
                    }
                }
            }
        }
        i = i + 1;
    }
    assert(s.take(rows@.len() as int) =~= s);
    (counts, pairs)
}

pub proof fn lemma_occurrences_positive(s: Seq<Seq<char>>, l: Seq<char>)
    requires
        occurrences(s, l) > 0,
    ensures
        exists|k: int| 0 <= k < s.len() && s[k] == l,
    decreases s.len(),
{
    if s.last() == l {
        assert(s[s.len() - 1] == l);
    } else {
        lemma_occurrences_positive(s.drop_last(), l);
        let k = choose|k: int| 0 <= k < s.drop_last().len() && s.drop_last()[k] == l;
        assert(s[k] == l);
    }
}

/// Returns a count of each label in the dataset: each distinct label once,
/// with the number of rows that carry it.
pub fn class_counts<T: DataRow>(rows: &[&T]) -> (r: Vec<(String, usize)>)
    ensures
        counts_of(r@, labels(rows@)),
{
    tally(rows).0
}

/// Returns the number of rows together with the count of each label.
pub fn class_counts_iter<T: DataRow>(rows: &[&T]) -> (r: (usize, Vec<(String, usize)>))
    ensures
        r.0 == rows@.len(),
        counts_of(r.1@, labels(rows@)),
{
    (rows.len(), tally(rows).0)
}

/// The Gini impurity of the rows, `1 - sum over labels of (count / n)^2`,
/// as an exact fraction; `0 / 1` for no rows.
pub fn gini<T: DataRow>(rows: &[&T]) -> (r: Ratio)
    ensures
        r.num == gini_num(labels(rows@)),
        r.den == gini_den(labels(rows@)),
{
    let t = tally(rows);
    let pairs = t.1;
    let n = rows.len() as u128;
    assert(labels(rows@).len() == rows@.len());
    assert(pairs <= n * n);
    if n == 0 {
        assert(labels(rows@) =~= Seq::<Seq<char>>::empty());
        assert(same_label_pairs(labels(rows@)) == 0);
        assert(labels(rows@).len() * labels(rows@).len() == 0) by (nonlinear_arith)
            requires
                labels(rows@).len() == 0,
        ;
        Ratio { num: 0, den: 1 }
    } else {
        assert(n * n <= u128::MAX) by (nonlinear_arith)
            requires
                n <= usize::MAX,
        ;
        let r = Ratio { num: n * n - pairs, den: n * n };
        assert(r.num == n * n - pairs);
        assert(pairs == same_label_pairs(labels(rows@)));
        assert(r.num == gini_num(labels(rows@)));
        r
    }
}

} // verus!
