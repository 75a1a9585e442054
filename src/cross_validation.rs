use vstd::arithmetic::div_mod::lemma_small_mod;
use vstd::prelude::*;

use crate::row::{DataRow, same_schema};
use crate::tree::{
    MAX_ROWS, Node, build_tree, built_from, classifiable, classification, classify,
    lemma_classifiable, lemma_subset_schema,
};

verus! {

/// The rows of fold `current` (when `test`) or of every other fold (when
/// not), in their order; row `i` belongs to fold `i % folds`.
pub open spec fn fold_part<A>(rows: Seq<A>, folds: nat, current: nat, test: bool) -> Seq<A>
    decreases rows.len(),
{
    if rows.len() == 0 {
        rows
    } else {
        let init = fold_part(rows.drop_last(), folds, current, test);
        if (((rows.len() - 1) as int % folds as int) == current as int) == test {
            init.push(rows.last())
        } else {
            init
        }
    }
}

/// The number of test rows whose label the tree predicts.
pub open spec fn hits<T: DataRow>(tests: Seq<&T>, tree: Node) -> nat
    decreases tests.len(),
{
    if tests.len() == 0 {
        0
    } else {
        hits(tests.drop_last(), tree) + if tests.last().spec_label() == classification(
            tree,
            tests.last(),
        ) {
            1nat
        } else {
            0nat
        }
    }
}

/// The result of one fold: how many of its test rows were classified
/// correctly, out of how many.
#[derive(Debug, Clone, Copy, PartialEq, Eq)]
pub struct FoldScore {
    pub correct: usize,
    pub tested: usize,
}

proof fn lemma_fold_part_facts<A>(rows: Seq<A>, folds: nat, current: nat)
    requires
        folds > 0,
    ensures
        fold_part(rows, folds, current, true).len() + fold_part(rows, folds, current, false).len()
            == rows.len(),
        forall|k: int|
            0 <= k < fold_part(rows, folds, current, false).len() ==> rows.contains(
                #[trigger] fold_part(rows, folds, current, false)[k],
            ),
    decreases rows.len(),
{
    if rows.len() > 0 {
        let init = rows.drop_last();
        lemma_fold_part_facts(init, folds, current);
        let train = fold_part(rows, folds, current, false);
        let init_train = fold_part(init, folds, current, false);
        assert forall|k: int| 0 <= k < train.len() implies rows.contains(#[trigger] train[k]) by {
            if k < init_train.len() {
                assert(train[k] == init_train[k]);
                assert(init.contains(init_train[k]));
                let j = choose|j: int| 0 <= j < init.len() && init[j] == init_train[k];
                assert(rows[j] == init[j]);
            } else {
                assert(train[k] == rows[rows.len() - 1]);
            }
        }
    }
}

proof fn lemma_fold_nonempty<A>(rows: Seq<A>, folds: nat, current: nat, test: bool, i: int)
    requires
        folds > 0,
        0 <= i < rows.len(),
        (i % folds as int == current as int) == test,
    ensures
        fold_part(rows, folds, current, test).len() > 0,
    decreases rows.len(),
{
    if i < rows.len() - 1 {
        lemma_fold_nonempty(rows.drop_last(), folds, current, test, i);
    }
}

/// Splits the rows into the training rows and the test rows of fold
/// `current`: row `i` is a test row when `i % folds == current`.
pub fn fold_dataset<'a, T>(rows: &Vec<&'a T>, folds: usize, current: usize) -> (r: (
    Vec<&'a T>,
    Vec<&'a T>,
))
    requires
        folds > 0,
    ensures
        r.0@ == fold_part(rows@, folds as nat, current as nat, false),
        r.1@ == fold_part(rows@, folds as nat, current as nat, true),
{
    let mut train: Vec<&'a T> = Vec::new();
    let mut test: Vec<&'a T> = Vec::new();
    let mut idx: usize = 0;
    assert(rows@.take(0) =~= Seq::<&T>::empty());
    while idx < rows.len()
        invariant
            folds > 0,
            idx <= rows@.len(),
            train@ == fold_part(rows@.take(idx as int), folds as nat, current as nat, false),
            test@ == fold_part(rows@.take(idx as int), folds as nat, current as nat, true),
        decreases rows@.len() - idx,
    {
        assert(rows@.take(idx + 1).drop_last() =~= rows@.take(idx as int));
        assert(rows@.take(idx + 1).last() == rows@[idx as int]);
        if idx % folds == current {
            test.push(rows[idx]);
        } else {
            train.push(rows[idx]);
        }
        idx = idx + 1;
    }
    assert(rows@.take(rows@.len() as int) =~= rows@);
    (train, test)
}

/// Counts the test rows whose label the tree predicts.
fn count_hits<T: DataRow>(tests: &Vec<&T>, tree: &Node) -> (r: usize)
    requires
        forall|k: int| 0 <= k < tests@.len() ==> classifiable(*tree, #[trigger] tests@[k]),
    ensures
        r == hits(tests@, *tree),
        r <= tests@.len(),
{
    let mut correct: usize = 0;
    let mut k: usize = 0;
    assert(tests@.take(0) =~= Seq::<&T>::empty());
    while k < tests.len()
        invariant
            k <= tests@.len(),
            forall|k: int| 0 <= k < tests@.len() ==> classifiable(*tree, #[trigger] tests@[k]),
            correct == hits(tests@.take(k as int), *tree),
            correct <= k,
        decreases tests@.len() - k,
    {
        assert(tests@.take(k + 1).drop_last() =~= tests@.take(k as int));
        assert(tests@.take(k + 1).last() == tests@[k as int]);
        let label = tests[k].label();
        let predicted = classify(tests[k], tree);
        if label == predicted {
            correct = correct + 1;
        }
        k = k + 1;
    }
    assert(tests@.take(tests@.len() as int) =~= tests@);
    correct
}

/// Cross-validates a training function: for each fold, trains a tree on the
/// other folds and scores it on the rows of the fold. The mean of
/// `correct / tested` over the folds is the cross-validation score.
pub fn validate<T: DataRow, F: Fn(Vec<&T>) -> Node>(rows: &Vec<&T>, folds: usize, train_fn: F) -> (r:
    Vec<FoldScore>)
    requires
        2 <= folds <= rows@.len(),
        forall|v: Vec<&T>|
            0 < v@.len() < rows@.len() && (forall|k: int| 0 <= k < v@.len() ==> rows@.contains(#[trigger] v@[k]))
                ==> #[trigger] train_fn.requires((v,)),
        forall|v: Vec<&T>, tree: Node, row: &T|
            #![trigger train_fn.ensures((v,), tree), classifiable(tree, row)]
            train_fn.ensures((v,), tree) && rows@.contains(row) ==> classifiable(tree, row),
    ensures
        r@.len() == folds,
        forall|f: int|
            0 <= f < folds ==> {
                &&& #[trigger] r@[f].tested == fold_part(rows@, folds as nat, f as nat, true).len()
                &&& r@[f].tested > 0
                &&& r@[f].correct <= r@[f].tested
                &&& exists|v: Vec<&T>, tree: Node|
                    v@ == fold_part(rows@, folds as nat, f as nat, false) && train_fn.ensures((v,), tree)
                        && r@[f].correct == hits(fold_part(rows@, folds as nat, f as nat, true), tree)
            },
{
    let mut scores: Vec<FoldScore> = Vec::new();
    let mut f: usize = 0;
    while f < folds
        invariant
            2 <= folds <= rows@.len(),
            forall|v: Vec<&T>|
                0 < v@.len() < rows@.len() && (forall|k: int| 0 <= k < v@.len() ==> rows@.contains(#[trigger] v@[k]))
                    ==> #[trigger] train_fn.requires((v,)),
            forall|v: Vec<&T>, tree: Node, row: &T|
                #![trigger train_fn.ensures((v,), tree), classifiable(tree, row)]
                train_fn.ensures((v,), tree) && rows@.contains(row) ==> classifiable(tree, row),
            f <= folds,
            scores@.len() == f,
            forall|g: int|
                0 <= g < f ==> {
                    &&& #[trigger] scores@[g].tested == fold_part(rows@, folds as nat, g as nat, true).len()
                    &&& scores@[g].tested > 0
                    &&& scores@[g].correct <= scores@[g].tested
                    &&& exists|v: Vec<&T>, tree: Node|
                        v@ == fold_part(rows@, folds as nat, g as nat, false) && train_fn.ensures((v,), tree)
                            && scores@[g].correct == hits(fold_part(rows@, folds as nat, g as nat, true), tree)
                },
        decreases folds - f,
    {
        let (train, test) = fold_dataset(rows, folds, f);
        proof {
            lemma_fold_part_facts(rows@, folds as nat, f as nat);
            lemma_small_mod(f as nat, folds as nat);
            let other: int = if f == 0 { 1 } else { 0 };
            lemma_small_mod(other as nat, folds as nat);
            lemma_fold_nonempty(rows@, folds as nat, f as nat, true, f as int);
            lemma_fold_nonempty(rows@, folds as nat, f as nat, false, other);
            assert(train_fn.requires((train,)));
            assert forall|k: int| 0 <= k < test@.len() implies rows@.contains(#[trigger] test@[k]) by {
                lemma_fold_test_contained(rows@, folds as nat, f as nat, k);
            }
        }
        let ghost train_copy = train;
        let tree = train_fn(train);
        proof {
            assert forall|k: int| 0 <= k < test@.len() implies classifiable(tree, #[trigger] test@[k]) by {
                assert(rows@.contains(test@[k]));
            }
        }
        let correct = count_hits(&test, &tree);
        let score = FoldScore { correct, tested: test.len() };
        let ghost old_scores = scores@;
        scores.push(score);
        proof {
            assert forall|g: int| 0 <= g < f + 1 implies {
                &&& #[trigger] scores@[g].tested == fold_part(rows@, folds as nat, g as nat, true).len()
                &&& scores@[g].tested > 0
                &&& scores@[g].correct <= scores@[g].tested
                &&& exists|v: Vec<&T>, tree: Node|
                    v@ == fold_part(rows@, folds as nat, g as nat, false) && train_fn.ensures((v,), tree)
                        && scores@[g].correct == hits(fold_part(rows@, folds as nat, g as nat, true), tree)
            } by {
                if g < f {
                    assert(scores@[g] == old_scores[g]);
                } else {
                    assert(scores@[g] == score);
                    assert(train_copy@ == fold_part(rows@, folds as nat, g as nat, false));
                }
            }
        }
        f = f + 1;
    }
    scores
}

proof fn lemma_fold_test_contained<A>(rows: Seq<A>, folds: nat, current: nat, k: int)
    requires
        folds > 0,
        0 <= k < fold_part(rows, folds, current, true).len(),
    ensures
        rows.contains(fold_part(rows, folds, current, true)[k]),
    decreases rows.len(),
{
    let init = rows.drop_last();
    let part = fold_part(rows, folds, current, true);
    if k < fold_part(init, folds, current, true).len() {
        lemma_fold_test_contained(init, folds, current, k);
        let j = choose|j: int| 0 <= j < init.len() && init[j] == fold_part(init, folds, current, true)[k];
        assert(rows[j] == init[j]);
    } else {
        assert(part[k] == rows[rows.len() - 1]);
    }
}

/// Cross-validates trees built with the depth bound `depth`.
pub fn validate_depth<T: DataRow>(rows: &Vec<&T>, folds: usize, depth: u64) -> (r: Vec<FoldScore>)
    requires
        2 <= folds <= rows@.len(),
        rows@.len() <= MAX_ROWS,
        same_schema(rows@),
    ensures
        r@.len() == folds,
        forall|f: int|
            0 <= f < folds ==> {
                &&& #[trigger] r@[f].tested == fold_part(rows@, folds as nat, f as nat, true).len()
                &&& r@[f].tested > 0
                &&& r@[f].correct <= r@[f].tested
                &&& exists|tree: Node|
                    #[trigger] built_from(tree, fold_part(rows@, folds as nat, f as nat, false), Some(depth))
                        && r@[f].correct == hits(fold_part(rows@, folds as nat, f as nat, true), tree)
            },
{
    let train_fn = |t: Vec<&T>| -> (tree: Node)
        requires
            0 < t@.len() < rows@.len(),
            rows@.len() <= MAX_ROWS,
            same_schema(rows@),
            forall|k: int| 0 <= k < t@.len() ==> rows@.contains(#[trigger] t@[k]),
        ensures
            built_from(tree, t@, Some(depth)),
            forall|row: &T| rows@.contains(row) ==> #[trigger] classifiable(tree, row),
        {
            proof {
                lemma_subset_schema(rows@, t@);
            }
            let tree = build_tree(t.as_slice(), Some(depth));
            proof {
                assert forall|row: &T| rows@.contains(row) implies #[trigger] classifiable(tree, row) by {
                    lemma_classifiable(tree, t@, Some(depth), rows@, row);
                }
            }
            tree
        };
    let r = validate(rows, folds, train_fn);
    proof {
        assert forall|f: int| 0 <= f < folds implies {
            &&& #[trigger] r@[f].tested == fold_part(rows@, folds as nat, f as nat, true).len()
            &&& r@[f].tested > 0
            &&& r@[f].correct <= r@[f].tested
            &&& exists|tree: Node|
                #[trigger] built_from(tree, fold_part(rows@, folds as nat, f as nat, false), Some(depth))
                    && r@[f].correct == hits(fold_part(rows@, folds as nat, f as nat, true), tree)
        } by {
            assert(r@[f].tested == fold_part(rows@, folds as nat, f as nat, true).len());
            let (v, tree) = choose|v: Vec<&T>, tree: Node|
                v@ == fold_part(rows@, folds as nat, f as nat, false) && train_fn.ensures((v,), tree)
                    && r@[f].correct == hits(fold_part(rows@, folds as nat, f as nat, true), tree);
            assert(built_from(tree, v@, Some(depth)));
        }
    }
    r
}

} // verus!
