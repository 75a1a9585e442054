use vstd::multiset::Multiset;
use vstd::prelude::*;

use crate::col::{Col, ColView, col_lt, lemma_col_lt_transitive, lemma_col_lt_trichotomy, text_less, text_lt};
use crate::question::{Question, QuestionView};
use crate::impurity::{Ratio, class_counts, counts_of, listed, same_label_pairs, tally};
use crate::row::{DataRow, compatible, labels, same_schema};

verus! {

/// Some row holds `v` in column `col`.
pub open spec fn in_column<T: DataRow>(rows: Seq<&T>, col: int, v: ColView) -> bool {
    exists|i: int| 0 <= i < rows.len() && #[trigger] rows[i].spec_value(col) == v
}

/// `v` is one of the values of `vals`.
pub open spec fn among(vals: Seq<Col>, v: ColView) -> bool {
    exists|a: int| 0 <= a < vals.len() && #[trigger] vals[a]@ == v
}

/// `vals` holds exactly the distinct values of column `col` of `rows`, in
/// ascending `col_lt` order.
pub open spec fn distinct_column_values<T: DataRow>(vals: Seq<Col>, rows: Seq<&T>, col: int) -> bool {
    &&& forall|a: int, b: int| 0 <= a < b < vals.len() ==> vals[a]@ != vals[b]@
    &&& forall|a: int| 0 <= a < vals.len() - 1 ==> col_lt(#[trigger] vals[a]@, vals[a + 1]@)
    &&& forall|a: int| 0 <= a < vals.len() ==> in_column(rows, col, #[trigger] vals[a]@)
    &&& forall|i: int| 0 <= i < rows.len() ==> among(vals, #[trigger] rows[i].spec_value(col))
}

/// The rows for which the question holds, in their order.
pub open spec fn true_rows<T: DataRow>(rows: Seq<&T>, q: QuestionView) -> Seq<&T> {
    rows.filter(|x: &T| q.holds_for(x))
}

/// The rows for which the question does not hold, in their order.
pub open spec fn false_rows<T: DataRow>(rows: Seq<&T>, q: QuestionView) -> Seq<&T> {
    rows.filter(|x: &T| !q.holds_for(x))
}

proof fn lemma_insert_value<T: DataRow>(
    old_out: Seq<Col>,
    p: int,
    v: Col,
    prefix: Seq<&T>,
    row: &T,
    col: int,
)
    requires
        distinct_column_values(old_out, prefix, col),
        0 <= p <= old_out.len(),
        p > 0 ==> col_lt(old_out[p - 1]@, v@),
        p < old_out.len() ==> !col_lt(old_out[p]@, v@),
        forall|a: int| 0 <= a < old_out.len() ==> old_out[a]@ != v@,
        row.spec_value(col) == v@,
    ensures
        distinct_column_values(old_out.insert(p, v), prefix.push(row), col),
{
    let out = old_out.insert(p, v);
    if p < old_out.len() {
        lemma_col_lt_trichotomy(old_out[p]@, v@);
    }
    assert forall|a: int, b: int| 0 <= a < b < out.len() implies out[a]@ != out[b]@ by {
        if a < p && b > p {
            assert(out[b] == old_out[b - 1]);
        } else if a > p {
            assert(out[b] == old_out[b - 1]);
            assert(out[a] == old_out[a - 1]);
        }
    }
    assert forall|a: int| 0 <= a < out.len() - 1 implies col_lt(#[trigger] out[a]@, out[a + 1]@) by {
        if a > p {
            assert(out[a] == old_out[a - 1]);
            assert(out[a + 1] == old_out[a]);
            assert(col_lt(old_out[a - 1]@, old_out[a]@));
        } else if a == p {
            assert(out[a] == v);
            assert(out[a + 1] == old_out[a]);
            assert(old_out[a]@ != v@);
        } else if a == p - 1 {
            assert(out[a] == old_out[a]);
            assert(out[a + 1] == v);
        } else {
            assert(out[a] == old_out[a]);
            assert(out[a + 1] == old_out[a + 1]);
            assert(col_lt(old_out[a]@, old_out[a + 1]@));
        }
    }
    lemma_insert_members(old_out, p, v, prefix, row, col);
}

proof fn lemma_insert_members<T: DataRow>(
    old_out: Seq<Col>,
    p: int,
    v: Col,
    prefix: Seq<&T>,
    row: &T,
    col: int,
)
    requires
        forall|a: int| 0 <= a < old_out.len() ==> in_column(prefix, col, #[trigger] old_out[a]@),
        forall|i: int| 0 <= i < prefix.len() ==> among(old_out, #[trigger] prefix[i].spec_value(col)),
        0 <= p <= old_out.len(),
        row.spec_value(col) == v@,
    ensures
        forall|a: int|
            0 <= a < old_out.len() + 1 ==> in_column(prefix.push(row), col, #[trigger] old_out.insert(p, v)[a]@),
        forall|i: int|
            0 <= i < prefix.len() + 1 ==> among(old_out.insert(p, v), #[trigger] prefix.push(row)[i].spec_value(col)),
{
    let out = old_out.insert(p, v);
    let next = prefix.push(row);
    assert forall|a: int| 0 <= a < out.len() implies in_column(next, col, #[trigger] out[a]@) by {
        if a == p {
            assert(next[prefix.len() as int] == row);
        } else {
            let b = if a < p {
                a
            } else {
                a - 1
            };
            assert(out[a] == old_out[b]);
            assert(in_column(prefix, col, old_out[b]@));
            let k = choose|k: int| 0 <= k < prefix.len() && #[trigger] prefix[k].spec_value(col) == old_out[b]@;
            assert(next[k] == prefix[k]);
        }
    }
    assert forall|k: int| 0 <= k < next.len() implies among(out, #[trigger] next[k].spec_value(col)) by {
        if k == prefix.len() {
            assert(out[p]@ == v@);
        } else {
            assert(next[k] == prefix[k]);
            assert(among(old_out, prefix[k].spec_value(col)));
            let b = choose|b: int| 0 <= b < old_out.len() && #[trigger] old_out[b]@ == prefix[k].spec_value(col);
            if b < p {
                assert(out[b] == old_out[b]);
            } else {
                assert(out[b + 1] == old_out[b]);
            }
        }
    }
}

proof fn lemma_repeat_value<T: DataRow>(out: Seq<Col>, j: int, prefix: Seq<&T>, row: &T, col: int)
    requires
        distinct_column_values(out, prefix, col),
        0 <= j < out.len(),
        out[j]@ == row.spec_value(col),
    ensures
        distinct_column_values(out, prefix.push(row), col),
{
    let next = prefix.push(row);
    assert forall|a: int| 0 <= a < out.len() implies in_column(next, col, #[trigger] out[a]@) by {
        assert(in_column(prefix, col, out[a]@));
        let k = choose|k: int| 0 <= k < prefix.len() && #[trigger] prefix[k].spec_value(col) == out[a]@;
        assert(next[k] == prefix[k]);
    }
    assert forall|k: int| 0 <= k < next.len() implies among(out, #[trigger] next[k].spec_value(col)) by {
        if k < prefix.len() {
            assert(next[k] == prefix[k]);
        }
    }
}

/// Returns the distinct values of column `col`, sorted.
pub fn column_values<T: DataRow>(rows: &[&T], col: usize) -> (r: Vec<Col>)
    requires
        forall|i: int| 0 <= i < rows@.len() ==> col < #[trigger] rows@[i].spec_len(),
    ensures
        distinct_column_values(r@, rows@, col as int),
{
    let mut out: Vec<Col> = Vec::new();
    let mut i: usize = 0;
    while i < rows.len()
        invariant
            i <= rows@.len(),
            forall|i: int| 0 <= i < rows@.len() ==> col < #[trigger] rows@[i].spec_len(),
            distinct_column_values(out@, rows@.take(i as int), col as int),
        decreases rows@.len() - i,
    {
        let v = rows[i].value(col);
        let ghost prefix = rows@.take(i as int);
        assert(rows@.take(i + 1) =~= prefix.push(rows@[i as int]));
        let mut j: usize = 0;
        let mut found = false;
        while j < out.len()
            invariant_except_break
                !found,
            invariant
                j <= out@.len(),
                forall|a: int| 0 <= a < j ==> out@[a]@ != v@,
            ensures
                found ==> j < out@.len() && out@[j as int]@ == v@,
                !found ==> forall|a: int| 0 <= a < out@.len() ==> out@[a]@ != v@,
            decreases out@.len() - j,
        {
            if out[j] == v {
                found = true;
                break;
            }
            j = j + 1;
        }
        if !found {
            let mut p: usize = 0;
            while p < out.len() && out[p].less(&v)
                invariant
                    p <= out@.len(),
                    p > 0 ==> col_lt(out@[p - 1]@, v@),
                decreases out@.len() - p,
            {
                p = p + 1;
            }
            let ghost old_out = out@;
            assert(p < old_out.len() ==> !col_lt(old_out[p as int]@, v@));
            out.insert(p, v);
            proof {
                lemma_insert_value(old_out, p as int, v, prefix, rows@[i as int], col as int);
            }
        } else {
            proof {
                lemma_repeat_value(out@, j as int, prefix, rows@[i as int], col as int);
            }
        }
        i = i + 1;
    }
    assert(rows@.take(rows@.len() as int) =~= rows@);
    out
}

proof fn lemma_sorted_pairwise(vals: Seq<Col>, a: int, b: int)
    requires
        forall|k: int| 0 <= k < vals.len() - 1 ==> col_lt(#[trigger] vals[k]@, vals[k + 1]@),
        0 <= a < b < vals.len(),
    ensures
        col_lt(vals[a]@, vals[b]@),
    decreases b - a,
{
    if b > a + 1 {
        lemma_sorted_pairwise(vals, a, b - 1);
        assert(col_lt(vals[b - 1]@, vals[b]@));
        lemma_col_lt_transitive(vals[a]@, vals[b - 1]@, vals[b]@);
    }
}

proof fn lemma_filter_step<T: DataRow>(rows: Seq<&T>, q: QuestionView, i: int)
    requires
        0 <= i < rows.len(),
    ensures
        true_rows(rows.take(i + 1), q) == if q.holds_for(rows[i]) {
            true_rows(rows.take(i), q).push(rows[i])
        } else {
            true_rows(rows.take(i), q)
        },
        false_rows(rows.take(i + 1), q) == if q.holds_for(rows[i]) {
            false_rows(rows.take(i), q)
        } else {
            false_rows(rows.take(i), q).push(rows[i])
        },
{
    reveal(Seq::filter);
    assert(rows.take(i + 1).drop_last() =~= rows.take(i));
    assert(rows.take(i + 1).last() == rows[i]);
}

/// Partitions the rows into those for which the question holds and those
/// for which it does not, each in the order of the input.
pub fn partition<'a, T: DataRow>(rows: &[&'a T], question: &Question) -> (r: (Vec<&'a T>, Vec<&'a T>))
    requires
        forall|i: int| 0 <= i < rows@.len() ==> question@.applies_to(#[trigger] rows@[i]),
    ensures
        r.0@ == true_rows(rows@, question@),
        r.1@ == false_rows(rows@, question@),
{
    let mut yes: Vec<&'a T> = Vec::new();
    let mut no: Vec<&'a T> = Vec::new();
    let mut i: usize = 0;
    proof {
        reveal(Seq::filter);
        assert(rows@.take(0) =~= Seq::<&T>::empty());
    }
    while i < rows.len()
        invariant
            i <= rows@.len(),
            forall|i: int| 0 <= i < rows@.len() ==> question@.applies_to(#[trigger] rows@[i]),
            yes@ == true_rows(rows@.take(i as int), question@),
            no@ == false_rows(rows@.take(i as int), question@),
        decreases rows@.len() - i,
    {
        proof {
            lemma_filter_step(rows@, question@, i as int);
        }
        if question.matchit(rows[i]) {
            yes.push(rows[i]);
        } else {
            no.push(rows[i]);
        }
        i = i + 1;
    }
    assert(rows@.take(rows@.len() as int) =~= rows@);
    (yes, no)
}

/// A partition keeps every row exactly once: the two sides together have
/// as many rows as the input, and hold the same rows with the same
/// multiplicities.
pub proof fn lemma_partition_keeps_rows<T: DataRow>(rows: Seq<&T>, q: QuestionView)
    ensures
        true_rows(rows, q).len() + false_rows(rows, q).len() == rows.len(),
        true_rows(rows, q).to_multiset().add(false_rows(rows, q).to_multiset()) =~= rows.to_multiset(),
    decreases rows.len(),
{
    if rows.len() == 0 {
        reveal(Seq::filter);
        assert(true_rows(rows, q) =~= Seq::<&T>::empty());
        assert(false_rows(rows, q) =~= Seq::<&T>::empty());
        assert(rows.to_multiset() =~= Multiset::empty()) by {
            rows.to_multiset_ensures();
        }
        Seq::<&T>::empty().to_multiset_ensures();
    } else {
        let n = rows.len() as int;
        let init = rows.drop_last();
        lemma_partition_keeps_rows(init, q);
        assert(rows.take(n - 1) =~= init);
        assert(rows.take(n) =~= rows);
        lemma_filter_step(rows, q, n - 1);
        assert(rows =~= init.push(rows[n - 1]));
        init.to_multiset_ensures();
        true_rows(init, q).to_multiset_ensures();
        false_rows(init, q).to_multiset_ensures();
    }
}

/// The largest number of rows a split search takes: its exact arithmetic
/// on counts of pairs of rows must fit in 128 bits.
pub const MAX_ROWS: usize = 33554432;

/// The question that asks whether column `c` satisfies the value that row
/// `i` holds there, named after the first row's column name.
pub open spec fn candidate<T: DataRow>(rows: Seq<&T>, c: int, i: int) -> QuestionView {
    question_on(rows, c, rows[i].spec_value(c))
}

/// The question that asks whether column `c` satisfies `v`, named after the
/// first row's column name.
pub open spec fn question_on<T: DataRow>(rows: Seq<&T>, c: int, v: ColView) -> QuestionView {
    QuestionView { field_name: rows[0].spec_name(c), col: c as nat, val: v }
}

/// The question separates the rows: both sides are non-empty.
pub open spec fn separates<T: DataRow>(rows: Seq<&T>, q: QuestionView) -> bool {
    true_rows(rows, q).len() > 0 && false_rows(rows, q).len() > 0
}

/// A split's score is `score_num / score_den`, the sum over the two sides of
/// same-label pairs divided by the side's size. A higher score is a lower
/// weighted Gini impurity of the two sides.
pub open spec fn score_num<T: DataRow>(rows: Seq<&T>, q: QuestionView) -> int {
    let t = labels(true_rows(rows, q));
    let f = labels(false_rows(rows, q));
    (same_label_pairs(t) * f.len() + same_label_pairs(f) * t.len()) as int
}

pub open spec fn score_den<T: DataRow>(rows: Seq<&T>, q: QuestionView) -> int {
    (true_rows(rows, q).len() * false_rows(rows, q).len()) as int
}

/// The information gain of the split as a fraction `gain_num / gain_den`:
/// the Gini impurity of the rows minus the size-weighted Gini impurities
/// of the two sides.
pub open spec fn gain_num<T: DataRow>(rows: Seq<&T>, q: QuestionView) -> int {
    rows.len() * score_num(rows, q) - same_label_pairs(labels(rows)) * score_den(rows, q)
}

pub open spec fn gain_den<T: DataRow>(rows: Seq<&T>, q: QuestionView) -> int {
    rows.len() * rows.len() * score_den(rows, q)
}

/// The split lowers the impurity: its gain is positive.
pub open spec fn gains<T: DataRow>(rows: Seq<&T>, q: QuestionView) -> bool {
    gain_num(rows, q) > 0
}

/// `q` scores no higher than the fraction `num / den`.
pub open spec fn scores_at_most<T: DataRow>(rows: Seq<&T>, q: QuestionView, num: int, den: int) -> bool {
    score_num(rows, q) * den <= num * score_den(rows, q)
}

/// `q` scores lower than the fraction `num / den`.
pub open spec fn scores_below<T: DataRow>(rows: Seq<&T>, q: QuestionView, num: int, den: int) -> bool {
    score_num(rows, q) * den < num * score_den(rows, q)
}

/// The search order of candidate questions: by column, then by ascending
/// threshold.
pub open spec fn comes_before(a: QuestionView, b: QuestionView) -> bool {
    a.col < b.col || (a.col == b.col && col_lt(a.val, b.val))
}

/// `q` is a candidate question (its column exists and its threshold is a
/// value that the column holds), it separates the rows, it has positive
/// gain, no separating candidate has a higher gain, and every separating
/// candidate that comes before it in the search order has a lower gain.
pub open spec fn is_best_split<T: DataRow>(rows: Seq<&T>, q: QuestionView) -> bool {
    &&& q.col < rows[0].spec_len()
    &&& exists|i: int| 0 <= i < rows.len() && q == #[trigger] candidate(rows, q.col as int, i)
    &&& separates(rows, q)
    &&& gains(rows, q)
    &&& forall|c: int, i: int|
        0 <= c < rows[0].spec_len() && 0 <= i < rows.len() && separates(rows, #[trigger] candidate(rows, c, i))
            ==> scores_at_most(rows, candidate(rows, c, i), score_num(rows, q), score_den(rows, q))
    &&& forall|c: int, i: int|
        0 <= c < rows[0].spec_len() && 0 <= i < rows.len() && separates(rows, #[trigger] candidate(rows, c, i))
            && comes_before(candidate(rows, c, i), q) ==> scores_below(rows, candidate(rows, c, i), score_num(rows, q), score_den(rows, q))
}

/// No candidate question that separates the rows has positive gain.
pub open spec fn no_useful_split<T: DataRow>(rows: Seq<&T>) -> bool {
    forall|c: int, i: int|
        0 <= c < rows[0].spec_len() && 0 <= i < rows.len() && separates(rows, #[trigger] candidate(rows, c, i))
            ==> !gains(rows, candidate(rows, c, i))
}

proof fn lemma_fraction_order(a: int, b: int, c: int, d: int, e: int, f: int)
    requires
        b > 0,
        d > 0,
        f > 0,
        a * d <= c * b,
        c * f < e * d,
    ensures
        a * f < e * b,
{
    assert(a * d * f <= c * b * f) by (nonlinear_arith)
        requires
            a * d <= c * b,
            f > 0,
    ;
    assert(c * f * b < e * d * b) by (nonlinear_arith)
        requires
            c * f < e * d,
            b > 0,
    ;
    assert(a * d * f == a * f * d && c * b * f == c * f * b && e * d * b == e * b * d) by (nonlinear_arith);
    assert(a * f < e * b) by (nonlinear_arith)
        requires
            a * f * d < e * b * d,
            d > 0,
    ;
}

proof fn lemma_fraction_order_strict(a: int, b: int, c: int, d: int, e: int, f: int)
    requires
        b > 0,
        d > 0,
        f > 0,
        a * d < c * b,
        c * f < e * d,
    ensures
        a * f < e * b,
{
    assert(a * d * f < c * b * f) by (nonlinear_arith)
        requires
            a * d < c * b,
            f > 0,
    ;
    assert(c * f * b < e * d * b) by (nonlinear_arith)
        requires
            c * f < e * d,
            b > 0,
    ;
    assert(a * d * f == a * f * d && c * b * f == c * f * b && e * d * b == e * b * d) by (nonlinear_arith);
    assert(a * f < e * b) by (nonlinear_arith)
        requires
            a * f * d < e * b * d,
            d > 0,
    ;
}

proof fn lemma_score_bounds(t: int, f: int, pt: int, pf: int, n: int)
    requires
        t >= 0,
        f >= 0,
        t + f == n,
        0 <= pt <= t * t,
        0 <= pf <= f * f,
        n <= MAX_ROWS,
    ensures
        0 <= pt * f + pf * t <= n * n * n,
        0 <= t * f <= n * n,
        n * n * n * (n * n) <= 0x3fff_ffff_ffff_ffff_ffff_ffff_ffff_ffff,
        n * n <= n * n * n || n == 0,
        n * n * n <= 0xffff_ffff_ffff_ffff_ffff,
        n * n <= 0xffff_ffff_ffff_ffff,
{
    assert(pt * f <= t * t * f) by (nonlinear_arith)
        requires
            pt <= t * t,
            f >= 0,
    ;
    assert(pf * t <= f * f * t) by (nonlinear_arith)
        requires
            pf <= f * f,
            t >= 0,
    ;
    assert(t * t * f + f * f * t <= n * n * n) by (nonlinear_arith)
        requires
            t >= 0,
            f >= 0,
            t + f == n,
    ;
    assert(0 <= pt * f && 0 <= pf * t) by (nonlinear_arith)
        requires
            pt >= 0,
            pf >= 0,
            t >= 0,
            f >= 0,
    ;
    assert(0 <= t * f <= n * n) by (nonlinear_arith)
        requires
            t >= 0,
            f >= 0,
            t + f == n,
    ;
    assert(n * n * n * (n * n) <= 0x3fff_ffff_ffff_ffff_ffff_ffff_ffff_ffff) by (nonlinear_arith)
        requires
            0 <= n <= 33554432,
    ;
    assert(n * n <= n * n * n || n == 0) by (nonlinear_arith)
        requires
            n >= 0,
    ;
    assert(n * n * n <= 0xffff_ffff_ffff_ffff_ffff && n * n <= 0xffff_ffff_ffff_ffff) by (nonlinear_arith)
        requires
            0 <= n <= 33554432,
    ;
}

proof fn lemma_candidate_applies<T: DataRow>(rows: Seq<&T>, q: QuestionView, j: int)
    requires
        same_schema(rows),
        0 <= j < rows.len(),
        q.col < rows[j].spec_len(),
        rows[j].spec_value(q.col as int) == q.val,
    ensures
        forall|i: int| 0 <= i < rows.len() ==> q.applies_to(#[trigger] rows[i]),
{
    assert forall|i: int| 0 <= i < rows.len() implies q.applies_to(#[trigger] rows[i]) by {
        assert(rows[i].spec_len() == rows[j].spec_len());
        assert(compatible(rows[i].spec_value(q.col as int), rows[j].spec_value(q.col as int)));
    }
}

/// Scores a candidate question: `None` when one side of its split is
/// empty, else the score as `(numerator, denominator)`.
fn score_split<T: DataRow>(rows: &[&T], q: &Question) -> (r: Option<(u128, u128)>)
    requires
        0 < rows@.len() <= MAX_ROWS,
        forall|i: int| 0 <= i < rows@.len() ==> q@.applies_to(#[trigger] rows@[i]),
    ensures
        match r {
            None => !separates(rows@, q@),
            Some((num, den)) => {
                &&& separates(rows@, q@)
                &&& num == score_num(rows@, q@)
                &&& den == score_den(rows@, q@)
                &&& num <= rows@.len() * rows@.len() * rows@.len()
                &&& 0 < den <= rows@.len() * rows@.len()
            },
        },
{
    let (t, f) = partition(rows, q);
    if t.len() == 0 || f.len() == 0 {
        return None;
    }
    let pt = tally(t.as_slice()).1;
    let pf = tally(f.as_slice()).1;
    let tl = t.len() as u128;
    let fl = f.len() as u128;
    proof {
        lemma_partition_keeps_rows(rows@, q@);
        lemma_score_bounds(tl as int, fl as int, pt as int, pf as int, rows@.len() as int);
        assert(tl * fl > 0) by (nonlinear_arith)
            requires
                tl > 0,
                fl > 0,
        ;
    }
    let num = pt * fl + pf * tl;
    let den = tl * fl;
    Some((num, den))
}

proof fn lemma_raise_best<T: DataRow>(
    rows: Seq<&T>,
    col: int,
    values: Seq<Col>,
    k: int,
    bn: int,
    bd: int,
    num: int,
    den: int,
)
    requires
        0 <= k < values.len(),
        bd > 0,
        den > 0,
        num * bd > bn * den,
        separates(rows, question_on(rows, col, values[k]@)),
        num == score_num(rows, question_on(rows, col, values[k]@)),
        den == score_den(rows, question_on(rows, col, values[k]@)),
        forall|c: int, i: int|
            0 <= c < col && 0 <= i < rows.len() && separates(rows, #[trigger] candidate(rows, c, i))
                ==> scores_at_most(rows, candidate(rows, c, i), bn, bd),
        forall|a: int|
            0 <= a < k && separates(rows, #[trigger] question_on(rows, col, values[a]@))
                ==> scores_at_most(rows, question_on(rows, col, values[a]@), bn, bd),
        distinct_column_values(values, rows, col),
        0 <= col < rows[0].spec_len(),
    ensures
        forall|c: int, i: int|
            0 <= c < rows[0].spec_len() && 0 <= i < rows.len() && separates(rows, #[trigger] candidate(rows, c, i))
                && comes_before(candidate(rows, c, i), question_on(rows, col, values[k]@))
                ==> scores_below(rows, candidate(rows, c, i), num, den),
        forall|c: int, i: int|
            0 <= c < col && 0 <= i < rows.len() && separates(rows, #[trigger] candidate(rows, c, i))
                ==> scores_at_most(rows, candidate(rows, c, i), num, den),
        forall|a: int|
            0 <= a < k + 1 && separates(rows, #[trigger] question_on(rows, col, values[a]@))
                ==> scores_at_most(rows, question_on(rows, col, values[a]@), num, den),
{
    assert forall|c: int, i: int|
        0 <= c < col && 0 <= i < rows.len() && separates(rows, #[trigger] candidate(rows, c, i))
            implies scores_at_most(rows, candidate(rows, c, i), num, den) by {
        let x = candidate(rows, c, i);
        lemma_score_den_positive(rows, x);
        lemma_fraction_order(score_num(rows, x), score_den(rows, x), bn, bd, num, den);
    }
    assert forall|a: int|
        0 <= a < k + 1 && separates(rows, #[trigger] question_on(rows, col, values[a]@))
            implies scores_at_most(rows, question_on(rows, col, values[a]@), num, den) by {
        let x = question_on(rows, col, values[a]@);
        if a < k {
            lemma_score_den_positive(rows, x);
            lemma_fraction_order(score_num(rows, x), score_den(rows, x), bn, bd, num, den);
        }
    }
    let q = question_on(rows, col, values[k]@);
    assert forall|c: int, i: int|
        0 <= c < rows[0].spec_len() && 0 <= i < rows.len() && separates(rows, #[trigger] candidate(rows, c, i))
            && comes_before(candidate(rows, c, i), q) implies scores_below(rows, candidate(rows, c, i), num, den) by {
        let x = candidate(rows, c, i);
        lemma_score_den_positive(rows, x);
        if c < col {
            lemma_fraction_order(score_num(rows, x), score_den(rows, x), bn, bd, num, den);
        } else {
            let v = rows[i].spec_value(c);
            assert(among(values, v));
            let a = choose|a: int| 0 <= a < values.len() && #[trigger] values[a]@ == v;
            lemma_col_lt_trichotomy(values[a]@, values[k]@);
            if a > k {
                lemma_sorted_pairwise(values, k, a);
            }
            assert(a < k);
            assert(x == question_on(rows, col, values[a]@));
            lemma_fraction_order(score_num(rows, x), score_den(rows, x), bn, bd, num, den);
        }
    }
}

proof fn lemma_score_den_positive<T: DataRow>(rows: Seq<&T>, q: QuestionView)
    requires
        separates(rows, q),
    ensures
        score_den(rows, q) > 0,
{
    let t = true_rows(rows, q).len() as int;
    let f = false_rows(rows, q).len() as int;
    assert(t * f > 0) by (nonlinear_arith)
        requires
            t > 0,
            f > 0,
    ;
}

/// Finds the question with the highest information gain over every column
/// and every value the column holds, keeping the first one found among
/// equals; none where no split has a positive gain.
#[verifier::rlimit(40)]
pub fn find_best_split<T: DataRow>(rows: &[&T]) -> (r: (Ratio, Option<Question>))
    requires
        rows@.len() > 0,
        rows@.len() <= MAX_ROWS,
        same_schema(rows@),
    ensures
        match r.1 {
            None => r.0 == (Ratio { num: 0, den: 1 }) && no_useful_split(rows@),
            Some(q) => is_best_split(rows@, q@) && r.0.num == gain_num(rows@, q@) && r.0.den
                == gain_den(rows@, q@),
        },
{
    let n = rows.len();
    let current = tally(rows).1;
    let nfeatures = rows[0].len();
    let mut best_num: u128 = current;
    let mut best_den: u128 = n as u128;
    let mut best_question: Option<Question> = None;
    proof {
        lemma_score_bounds(n as int, 0, current as int, 0, n as int);
        assert(n <= n * n) by (nonlinear_arith)
            requires
                n >= 1,
        ;
    }
    let mut col: usize = 0;
    while col < nfeatures
        invariant
            n == rows@.len(),
            0 < n <= MAX_ROWS,
            same_schema(rows@),
            nfeatures == rows@[0].spec_len(),
            col <= nfeatures,
            current == same_label_pairs(labels(rows@)),
            0 < best_den <= n * n,
            best_num <= n * n * n,
            best_question is None ==> best_num == current && best_den == n,
            best_question matches Some(q) ==> {
                &&& q@.col < nfeatures
                &&& exists|i: int| 0 <= i < n && q@ == #[trigger] candidate(rows@, q@.col as int, i)
                &&& separates(rows@, q@)
                &&& gains(rows@, q@)
                &&& best_num == score_num(rows@, q@)
                &&& best_den == score_den(rows@, q@)
                &&& forall|c: int, i: int|
                    0 <= c < nfeatures && 0 <= i < n && separates(rows@, #[trigger] candidate(rows@, c, i))
                        && comes_before(candidate(rows@, c, i), q@) ==> scores_below(rows@, candidate(rows@, c, i), best_num as int, best_den as int)
            },
            forall|c: int, i: int|
                0 <= c < col && 0 <= i < n && separates(rows@, #[trigger] candidate(rows@, c, i))
                    ==> scores_at_most(rows@, candidate(rows@, c, i), best_num as int, best_den as int),
        decreases nfeatures - col,
    {
        assert forall|i: int| 0 <= i < rows@.len() implies col < #[trigger] rows@[i].spec_len() by {
            assert(rows@[i].spec_len() == rows@[0].spec_len());
        }
        let values = column_values(rows, col);
        let name = rows[0].name(col);
        let mut k: usize = 0;
        while k < values.len()
            invariant
                n == rows@.len(),
                0 < n <= MAX_ROWS,
                same_schema(rows@),
                nfeatures == rows@[0].spec_len(),
                col < nfeatures,
                name@ == rows@[0].spec_name(col as int),
                distinct_column_values(values@, rows@, col as int),
                k <= values@.len(),
                current == same_label_pairs(labels(rows@)),
                0 < best_den <= n * n,
                best_num <= n * n * n,
                best_question is None ==> best_num == current && best_den == n,
                best_question matches Some(q) ==> {
                    &&& q@.col < nfeatures
                    &&& exists|i: int| 0 <= i < n && q@ == #[trigger] candidate(rows@, q@.col as int, i)
                    &&& separates(rows@, q@)
                    &&& gains(rows@, q@)
                    &&& best_num == score_num(rows@, q@)
                    &&& best_den == score_den(rows@, q@)
                    &&& forall|c: int, i: int|
                        0 <= c < nfeatures && 0 <= i < n && separates(rows@, #[trigger] candidate(rows@, c, i))
                            && comes_before(candidate(rows@, c, i), q@) ==> scores_below(rows@, candidate(rows@, c, i), best_num as int, best_den as int)
                },
                forall|c: int, i: int|
                    0 <= c < col && 0 <= i < n && separates(rows@, #[trigger] candidate(rows@, c, i))
                        ==> scores_at_most(rows@, candidate(rows@, c, i), best_num as int, best_den as int),
                forall|a: int|
                    0 <= a < k && separates(rows@, #[trigger] question_on(rows@, col as int, values@[a]@))
                        ==> scores_at_most(rows@, question_on(rows@, col as int, values@[a]@), best_num as int, best_den as int),
            decreases values@.len() - k,
        {
            let q = Question::new(name.clone(), col, values[k].duplicate());
            let ghost qv = question_on(rows@, col as int, values@[k as int]@);
            assert(q@ == qv);
            proof {
                assert(in_column(rows@, col as int, values@[k as int]@));
                let j = choose|j: int| 0 <= j < rows@.len() && #[trigger] rows@[j].spec_value(col as int) == values@[k as int]@;
                assert(rows@[j].spec_len() == rows@[0].spec_len());
                lemma_candidate_applies(rows@, qv, j);
                assert(qv == candidate(rows@, col as int, j));
            }
            let scored = score_split(rows, &q);
            if let Some((num, den)) = scored {
                proof {
                    let big = n * n * n * (n * n);
                    lemma_score_bounds(n as int, 0, 0, 0, n as int);
                    assert(num * best_den <= big && best_num * den <= big) by (nonlinear_arith)
                        requires
                            num <= n * n * n,
                            best_num <= n * n * n,
                            0 <= den <= n * n,
                            0 <= best_den <= n * n,
                            num >= 0,
                            best_num >= 0,
                            big == n * n * n * (n * n),
                    ;
                }
                if num * best_den > best_num * den {
                    proof {
                        lemma_raise_best(rows@, col as int, values@, k as int, best_num as int, best_den as int, num as int, den as int);
                        match best_question {
                            None => {},
                            Some(old) => {
                                lemma_fraction_order_strict(current as int, n as int, best_num as int, best_den as int, num as int, den as int);
                            },
                        }
                    }
                    best_num = num;
                    best_den = den;
                    best_question = Some(q);
                } else {
                    assert(scores_at_most(rows@, qv, best_num as int, best_den as int));
                }
            }
            k = k + 1;
        }
        proof {
            assert forall|c: int, i: int|
                0 <= c < col + 1 && 0 <= i < n && separates(rows@, #[trigger] candidate(rows@, c, i))
                    implies scores_at_most(rows@, candidate(rows@, c, i), best_num as int, best_den as int) by {
                if c == col {
                    assert(among(values@, rows@[i].spec_value(col as int)));
                    let a = choose|a: int| 0 <= a < values@.len() && #[trigger] values@[a]@ == rows@[i].spec_value(col as int);
                    assert(candidate(rows@, c, i) == question_on(rows@, col as int, values@[a]@));
                }
            }
        }
        col = col + 1;
    }
    match best_question {
        None => {
            proof {
                assert forall|c: int, i: int|
                    0 <= c < rows@[0].spec_len() && 0 <= i < rows@.len() && separates(rows@, #[trigger] candidate(rows@, c, i))
                        implies !gains(rows@, candidate(rows@, c, i)) by {
                    let x = candidate(rows@, c, i);
                    assert(scores_at_most(rows@, x, current as int, n as int));
                    assert(score_num(rows@, x) * n == n * score_num(rows@, x)) by (nonlinear_arith);
                }
            }
            (Ratio { num: 0, den: 1 }, None)
        },
        Some(q) => {
            proof {
                lemma_score_bounds(n as int, 0, 0, 0, n as int);
                assert(n * best_num <= n * n * n * n && n * n * best_den <= n * n * n * n) by (nonlinear_arith)
                    requires
                        best_num <= n * n * n,
                        best_den <= n * n,
                        n >= 0,
                ;
                assert(current * best_den <= n * n * n * n) by (nonlinear_arith)
                    requires
                        current <= n * n,
                        best_den <= n * n,
                ;
                assert(n * n * n * n <= 0x3fff_ffff_ffff_ffff_ffff_ffff_ffff_ffff) by (nonlinear_arith)
                    requires
                        0 <= n <= 33554432,
                ;
            }
            let nn = n as u128;
            (Ratio { num: nn * best_num - current * best_den, den: nn * nn * best_den }, Some(q))
        },
    }
}

/// A decision tree: a leaf holds the class counts of the training rows
/// that reached it; a decision node holds a question and owns the subtrees
/// for the rows that satisfy it and for those that do not.
#[derive(Debug)]
pub enum Node {
    Leaf { predictions: Vec<(String, usize)> },
    Decision { question: Question, true_branch: Box<Node>, false_branch: Box<Node> },
}

/// The depth budget is spent: a node built with it is a leaf.
pub open spec fn depth_spent(depth: Option<u64>) -> bool {
    depth matches Some(d) && d <= 1
}

/// The depth budget of the children of a decision node.
pub open spec fn child_depth(depth: Option<u64>) -> Option<u64> {
    match depth {
        Some(d) => Some((d - 1) as u64),
        None => None,
    }
}

/// `node` is the tree that training on `rows` with the depth budget builds:
/// a leaf holds the class counts of its rows, and is built when the budget
/// is spent or no split has a positive gain; otherwise the node asks the
/// best question and its subtrees are built from the two sides of the split
/// with one level less.
pub open spec fn built_from<T: DataRow>(node: Node, rows: Seq<&T>, depth: Option<u64>) -> bool
    decreases node,
{
    match node {
        Node::Leaf { predictions } => counts_of(predictions@, labels(rows)) && (depth_spent(depth)
            || no_useful_split(rows)),
        Node::Decision { question, true_branch, false_branch } => {
            &&& !depth_spent(depth)
            &&& is_best_split(rows, question@)
            &&& built_from(*true_branch, true_rows(rows, question@), child_depth(depth))
            &&& built_from(*false_branch, false_rows(rows, question@), child_depth(depth))
        },
    }
}

/// The leaf counts are never empty.
pub open spec fn leaves_filled(node: Node) -> bool
    decreases node,
{
    match node {
        Node::Leaf { predictions } => predictions@.len() > 0,
        Node::Decision { true_branch, false_branch, .. } => leaves_filled(*true_branch)
            && leaves_filled(*false_branch),
    }
}

/// Every question on the row's path through the tree can be put to it, and
/// the leaf it reaches is not empty.
pub open spec fn classifiable<T: DataRow>(node: Node, row: &T) -> bool
    decreases node,
{
    match node {
        Node::Leaf { predictions } => predictions@.len() > 0,
        Node::Decision { question, true_branch, false_branch } => question@.applies_to(row) && if question@.holds_for(row) {
            classifiable(*true_branch, row)
        } else {
            classifiable(*false_branch, row)
        },
    }
}

/// The class counts of the leaf that the row reaches.
pub open spec fn reached_leaf<T: DataRow>(node: Node, row: &T) -> Seq<(String, usize)>
    decreases node,
{
    match node {
        Node::Leaf { predictions } => predictions@,
        Node::Decision { question, true_branch, false_branch } => if question@.holds_for(row) {
            reached_leaf(*true_branch, row)
        } else {
            reached_leaf(*false_branch, row)
        },
    }
}

/// Entry `a` wins over entry `b`: a higher count, or the same count and a
/// label that comes first in text order.
pub open spec fn prefers(a: (String, usize), b: (String, usize)) -> bool {
    a.1 > b.1 || (a.1 == b.1 && text_lt(a.0@, b.0@))
}

/// The position of the winning entry of the class counts.
pub open spec fn best_index(p: Seq<(String, usize)>) -> int
    decreases p.len(),
{
    if p.len() <= 1 {
        0
    } else {
        let b = best_index(p.drop_last());
        if prefers(p.last(), p[b]) {
            p.len() - 1
        } else {
            b
        }
    }
}

/// The label with the highest count; among equal counts, the first label in
/// text order.
pub open spec fn majority(p: Seq<(String, usize)>) -> Seq<char> {
    p[best_index(p)].0@
}

/// The label the tree predicts for the row.
pub open spec fn classification<T: DataRow>(node: Node, row: &T) -> Seq<char> {
    majority(reached_leaf(node, row))
}

impl Node {
    fn new_leaf<T: DataRow>(rows: &[&T]) -> (r: Node)
        ensures
            r matches Node::Leaf { predictions } && counts_of(predictions@, labels(rows@)),
    {
        Node::Leaf { predictions: class_counts(rows) }
    }

    fn new_decision(question: Question, true_branch: Node, false_branch: Node) -> (r: Node)
        ensures
            r == (Node::Decision {
                question,
                true_branch: Box::new(true_branch),
                false_branch: Box::new(false_branch),
            }),
    {
        Node::Decision {
            question,
            true_branch: Box::new(true_branch),
            false_branch: Box::new(false_branch),
        }
    }

    /// Whether `classify` can be asked about the row: every question on its
    /// path can be put to it, and the leaf it reaches is not empty.
    pub fn can_classify<T: DataRow>(&self, row: &T) -> (r: bool)
        ensures
            r == classifiable(*self, row),
        decreases self,
    {
        match self {
            Node::Leaf { predictions } => predictions.len() > 0,
            Node::Decision { question, true_branch, false_branch } => {
                if !question.applies_to(row) {
                    false
                } else if question.matchit(row) {
                    true_branch.can_classify(row)
                } else {
                    false_branch.can_classify(row)
                }
            },
        }
    }
}

proof fn lemma_side_schema<T: DataRow>(rows: Seq<&T>, q: QuestionView)
    requires
        same_schema(rows),
    ensures
        same_schema(true_rows(rows, q)),
        same_schema(false_rows(rows, q)),
        forall|k: int| 0 <= k < true_rows(rows, q).len() ==> rows.contains(#[trigger] true_rows(rows, q)[k]),
        forall|k: int| 0 <= k < false_rows(rows, q).len() ==> rows.contains(#[trigger] false_rows(rows, q)[k]),
{
    lemma_sides_contained(rows, q);
    lemma_subset_schema(rows, true_rows(rows, q));
    lemma_subset_schema(rows, false_rows(rows, q));
}

proof fn lemma_sides_contained<T: DataRow>(rows: Seq<&T>, q: QuestionView)
    ensures
        forall|k: int| 0 <= k < true_rows(rows, q).len() ==> rows.contains(#[trigger] true_rows(rows, q)[k]),
        forall|k: int| 0 <= k < false_rows(rows, q).len() ==> rows.contains(#[trigger] false_rows(rows, q)[k]),
    decreases rows.len(),
{
    if rows.len() == 0 {
        reveal(Seq::filter);
    } else {
        let n = rows.len() as int;
        let init = rows.drop_last();
        lemma_sides_contained(init, q);
        assert(rows.take(n - 1) =~= init);
        assert(rows.take(n) =~= rows);
        lemma_filter_step(rows, q, n - 1);
        assert forall|k: int| 0 <= k < true_rows(rows, q).len() implies rows.contains(#[trigger] true_rows(rows, q)[k]) by {
            if k < true_rows(init, q).len() {
                let x = true_rows(init, q)[k];
                assert(true_rows(rows, q)[k] == x);
                let j = choose|j: int| 0 <= j < init.len() && init[j] == x;
                assert(rows[j] == x);
            } else {
                assert(rows[n - 1] == true_rows(rows, q)[k]);
            }
        }
        assert forall|k: int| 0 <= k < false_rows(rows, q).len() implies rows.contains(#[trigger] false_rows(rows, q)[k]) by {
            if k < false_rows(init, q).len() {
                let x = false_rows(init, q)[k];
                assert(false_rows(rows, q)[k] == x);
                let j = choose|j: int| 0 <= j < init.len() && init[j] == x;
                assert(rows[j] == x);
            } else {
                assert(rows[n - 1] == false_rows(rows, q)[k]);
            }
        }
    }
}

pub proof fn lemma_subset_schema<T: DataRow>(rows: Seq<&T>, sub: Seq<&T>)
    requires
        same_schema(rows),
        forall|k: int| 0 <= k < sub.len() ==> rows.contains(#[trigger] sub[k]),
    ensures
        same_schema(sub),
{
    assert forall|i: int, j: int| 0 <= i < sub.len() && 0 <= j < sub.len() implies #[trigger] sub[i].spec_len()
        == #[trigger] sub[j].spec_len() by {
        assert(rows.contains(sub[i]));
        assert(rows.contains(sub[j]));
    }
    assert forall|i: int, j: int, c: int|
        0 <= i < sub.len() && 0 <= j < sub.len() && 0 <= c < sub[i].spec_len() implies compatible(
        #[trigger] sub[i].spec_value(c),
        #[trigger] sub[j].spec_value(c),
    ) by {
        assert(rows.contains(sub[i]));
        assert(rows.contains(sub[j]));
        let a = choose|a: int| 0 <= a < rows.len() && rows[a] == sub[i];
        let b = choose|b: int| 0 <= b < rows.len() && rows[b] == sub[j];
        assert(compatible(rows[a].spec_value(c), rows[b].spec_value(c)));
    }
}

/// Builds the decision tree for the rows. With `Some(d)`, the tree has at
/// most `d` levels of nodes (`Some(0)` and `Some(1)` both give a single
/// leaf); with `None` it grows until no split has a positive gain.
pub fn build_tree<T: DataRow>(rows: &[&T], depth: Option<u64>) -> (r: Node)
    requires
        0 < rows@.len() <= MAX_ROWS,
        same_schema(rows@),
    ensures
        built_from(r, rows@, depth),
    decreases rows@.len(),
{
    if let Some(d) = depth {
        if d <= 1 {
            return Node::new_leaf(rows);
        }
    }
    let (_, best) = find_best_split(rows);
    match best {
        None => Node::new_leaf(rows),
        Some(q) => {
            proof {
                let i = choose|i: int| 0 <= i < rows@.len() && q@ == #[trigger] candidate(rows@, q@.col as int, i);
                assert(rows@[i].spec_len() == rows@[0].spec_len());
                lemma_candidate_applies(rows@, q@, i);
                lemma_partition_keeps_rows(rows@, q@);
                lemma_side_schema(rows@, q@);
            }
            let (t, f) = partition(rows, &q);
            let next = match depth {
                Some(d) => Some(d - 1),
                None => None,
            };
            let true_branch = build_tree(t.as_slice(), next);
            let false_branch = build_tree(f.as_slice(), next);
            Node::new_decision(q, true_branch, false_branch)
        },
    }
}

/// Takes the class counts and chooses the most likely label: the highest
/// count, and among equal counts the label first in text order.
pub fn prediction(classification: &Vec<(String, usize)>) -> (r: String)
    requires
        classification@.len() > 0,
    ensures
        r@ == majority(classification@),
        forall|j: int|
            0 <= j < classification@.len() ==> #[trigger] classification@[j].1
                <= classification@[best_index(classification@)].1,
{
    let ghost p = classification@;
    let mut best: usize = 0;
    let mut i: usize = 1;
    assert(p.take(1).drop_last().len() == 0);
    while i < classification.len()
        invariant
            p == classification@,
            1 <= i <= p.len(),
            best == best_index(p.take(i as int)),
            best < i,
            forall|j: int| 0 <= j < i ==> #[trigger] p[j].1 <= p[best as int].1,
        decreases p.len() - i,
    {
        assert(p.take(i + 1).drop_last() =~= p.take(i as int));
        let (label, count) = (&classification[i].0, classification[i].1);
        let (best_label, best_count) = (&classification[best].0, classification[best].1);
        if count > best_count || (count == best_count && text_less(label, best_label)) {
            best = i;
        }
        i = i + 1;
    }
    assert(p.take(p.len() as int) =~= p);
    classification[best].0.clone()
}

/// Walks the tree from the root, following the answer to each question,
/// and predicts the majority label of the leaf the row reaches.
pub fn classify<T: DataRow>(row: &T, node: &Node) -> (r: String)
    requires
        classifiable(*node, row),
    ensures
        r@ == classification(*node, row),
    decreases node,
{
    match node {
        Node::Leaf { predictions } => prediction(predictions),
        Node::Decision { question, true_branch, false_branch } => {
            if question.matchit(row) {
                classify(row, true_branch)
            } else {
                classify(row, false_branch)
            }
        },
    }
}

/// The winning entry of non-empty class counts has the highest count.
pub proof fn lemma_best_index_max(p: Seq<(String, usize)>)
    requires
        p.len() > 0,
    ensures
        0 <= best_index(p) < p.len(),
        forall|j: int| 0 <= j < p.len() ==> #[trigger] p[j].1 <= p[best_index(p)].1,
    decreases p.len(),
{
    if p.len() > 1 {
        let q = p.drop_last();
        lemma_best_index_max(q);
        assert forall|j: int| 0 <= j < p.len() implies #[trigger] p[j].1 <= p[best_index(p)].1 by {
            if j < p.len() - 1 {
                assert(p[j] == q[j]);
                assert(q[j].1 <= q[best_index(q)].1);
            }
        }
    }
}

/// A row that the tree was trained on reaches a leaf whose class counts
/// list the row's own label at least once, and the tree predicts the
/// majority label of that leaf for it: a label of the leaf whose count is
/// the highest there.
pub proof fn lemma_training_row_in_its_leaf<T: DataRow>(
    node: Node,
    rows: Seq<&T>,
    depth: Option<u64>,
    k: int,
)
    requires
        built_from(node, rows, depth),
        0 <= k < rows.len(),
    ensures
        listed(reached_leaf(node, rows[k]), rows[k].spec_label()),
        classification(node, rows[k]) == majority(reached_leaf(node, rows[k])),
        listed(reached_leaf(node, rows[k]), classification(node, rows[k])),
        forall|j: int|
            0 <= j < reached_leaf(node, rows[k]).len() ==> #[trigger] reached_leaf(node, rows[k])[j].1
                <= reached_leaf(node, rows[k])[best_index(reached_leaf(node, rows[k]))].1,
    decreases node,
{
    lemma_training_row_listed(node, rows, depth, k);
    let leaf = reached_leaf(node, rows[k]);
    lemma_best_index_max(leaf);
    assert(leaf[best_index(leaf)].0@ == classification(node, rows[k]));
}

proof fn lemma_training_row_listed<T: DataRow>(node: Node, rows: Seq<&T>, depth: Option<u64>, k: int)
    requires
        built_from(node, rows, depth),
        0 <= k < rows.len(),
    ensures
        listed(reached_leaf(node, rows[k]), rows[k].spec_label()),
    decreases node,
{
    match node {
        Node::Leaf { predictions } => {
            assert(labels(rows)[k] == rows[k].spec_label());
        },
        Node::Decision { question, true_branch, false_branch } => {
            let q = question@;
            let row = rows[k];
            lemma_row_on_its_side(rows, q, k);
            if q.holds_for(row) {
                let j = choose|j: int| 0 <= j < true_rows(rows, q).len() && true_rows(rows, q)[j] == row;
                lemma_training_row_listed(*true_branch, true_rows(rows, q), child_depth(depth), j);
            } else {
                let j = choose|j: int| 0 <= j < false_rows(rows, q).len() && false_rows(rows, q)[j] == row;
                lemma_training_row_listed(*false_branch, false_rows(rows, q), child_depth(depth), j);
            }
        },
    }
}

proof fn lemma_row_on_its_side<T: DataRow>(rows: Seq<&T>, q: QuestionView, k: int)
    requires
        0 <= k < rows.len(),
    ensures
        q.holds_for(rows[k]) ==> true_rows(rows, q).contains(rows[k]),
        !q.holds_for(rows[k]) ==> false_rows(rows, q).contains(rows[k]),
    decreases rows.len(),
{
    let n = rows.len() as int;
    let init = rows.drop_last();
    assert(rows.take(n - 1) =~= init);
    assert(rows.take(n) =~= rows);
    lemma_filter_step(rows, q, n - 1);
    if k == n - 1 {
        if q.holds_for(rows[k]) {
            assert(true_rows(rows, q).last() == rows[k]);
        } else {
            assert(false_rows(rows, q).last() == rows[k]);
        }
    } else {
        lemma_row_on_its_side(init, q, k);
        assert(init[k] == rows[k]);
        if q.holds_for(rows[k]) {
            let j = choose|j: int| 0 <= j < true_rows(init, q).len() && true_rows(init, q)[j] == rows[k];
            assert(true_rows(rows, q)[j] == rows[k]);
        } else {
            let j = choose|j: int| 0 <= j < false_rows(init, q).len() && false_rows(init, q)[j] == rows[k];
            assert(false_rows(rows, q)[j] == rows[k]);
        }
    }
}

/// A tree trained on some rows of a dataset that follows one schema can
/// classify every row of that dataset.
pub proof fn lemma_classifiable<T: DataRow>(
    node: Node,
    rows: Seq<&T>,
    depth: Option<u64>,
    all: Seq<&T>,
    row: &T,
)
    requires
        built_from(node, rows, depth),
        rows.len() > 0,
        forall|k: int| 0 <= k < rows.len() ==> all.contains(#[trigger] rows[k]),
        same_schema(all),
        all.contains(row),
    ensures
        classifiable(node, row),
    decreases node,
{
    match node {
        Node::Leaf { predictions } => {
            assert(labels(rows)[0] == rows[0].spec_label());
            assert(listed(predictions@, labels(rows)[0]));
        },
        Node::Decision { question, true_branch, false_branch } => {
            let q = question@;
            let i = choose|i: int| 0 <= i < rows.len() && q == #[trigger] candidate(rows, q.col as int, i);
            assert(all.contains(rows[i]));
            assert(all.contains(rows[0]));
            let a = choose|a: int| 0 <= a < all.len() && all[a] == rows[i];
            let b = choose|b: int| 0 <= b < all.len() && all[b] == rows[0];
            let c = choose|c: int| 0 <= c < all.len() && all[c] == row;
            assert(all[a].spec_len() == all[c].spec_len() && all[b].spec_len() == all[c].spec_len());
            assert(compatible(all[c].spec_value(q.col as int), all[a].spec_value(q.col as int)));
            lemma_sides_contained(rows, q);
            if q.holds_for(row) {
                let side = true_rows(rows, q);
                assert forall|k: int| 0 <= k < side.len() implies all.contains(#[trigger] side[k]) by {
                    assert(rows.contains(side[k]));
                    let j = choose|j: int| 0 <= j < rows.len() && rows[j] == side[k];
                    assert(all.contains(rows[j]));
                }
                lemma_classifiable(*true_branch, side, child_depth(depth), all, row);
            } else {
                let side = false_rows(rows, q);
                assert forall|k: int| 0 <= k < side.len() implies all.contains(#[trigger] side[k]) by {
                    assert(rows.contains(side[k]));
                    let j = choose|j: int| 0 <= j < rows.len() && rows[j] == side[k];
                    assert(all.contains(rows[j]));
                }
                lemma_classifiable(*false_branch, side, child_depth(depth), all, row);
            }
        },
    }
}

} // verus!
