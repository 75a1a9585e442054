use std::collections::HashMap;

use decisions::col::Col;
use decisions::ground_truth::Check;
use decisions::cross_validation::{fold_dataset, validate, validate_depth, FoldScore};
use decisions::impurity::{class_counts, class_counts_iter, gini, Ratio};
use decisions::question::Question;
use decisions::row::{follow_one_schema, DataRow, Row};
use decisions::tree::{build_tree, classify, column_values, find_best_split, partition, prediction, Node};

/// Builds the rows of the fruit dataset: colour, number of things, and
/// the fruit itself, which is also the label.
struct Fruit;

impl Fruit {
    fn new(id: i64, colour: String, things: i64, fruit: String) -> Row {
        let columns = vec![
            ("Colour".to_string(), Col::Text(colour)),
            ("Things".to_string(), Col::Int(things)),
            ("Fruit".to_string(), Col::Text(fruit.clone())),
        ];
        Row::new(id, columns, fruit)
    }
}

/// A row with one optional floating-point measurement.
fn reading(weight: Option<i64>) -> Row {
    let cell = match weight {
        Some(w) => Col::Float(w),
        None => Col::Null,
    };
    Row::new(0, vec![("Weight".to_string(), cell)], "x".to_string())
}

fn training_data() -> Vec<Row> {
    vec![
        Fruit::new(1, "Green".to_string(), 3, "Apple".to_string()),
        Fruit::new(2, "Yellow".to_string(), 3, "Apple".to_string()),
        Fruit::new(3, "Red".to_string(), 1, "Grape".to_string()),
        Fruit::new(4, "Red".to_string(), 1, "Grape".to_string()),
        Fruit::new(5, "Yellow".to_string(), 3, "Lemon".to_string()),
    ]
}

fn as_map(counts: Vec<(String, usize)>) -> HashMap<String, usize> {
    counts.into_iter().collect()
}

fn as_float(r: Ratio) -> f64 {
    r.num as f64 / r.den as f64
}

#[test]
fn test_fold() {
    let data = vec![&1, &2, &3, &4, &5, &6];
    let folded = fold_dataset(&data, 3, 2);

    assert_eq!((vec![&1, &2, &4, &5], vec![&3, &6]), folded);
}

#[test]
fn question_test_question_matches() {
    let q = Question::new("Colour".to_string(), 0, Col::Text("Red".to_string()));

    assert!(q.matchit(&Fruit::new(1, "Red".to_string(), 1, "toenails".to_string())));
    assert!(!q.matchit(&Fruit::new(2, "Green".to_string(), 1, "spleen".to_string())));

    let q = Question::new("Colour".to_string(), 1, Col::Int(42));
    assert!(q.matchit(&Fruit::new(1, "Red".to_string(), 42, "toenails".to_string())));
    assert!(!q.matchit(&Fruit::new(2, "Red".to_string(), 1, "spleen".to_string())));
}

#[test]
fn tree_test_class_counts() {
    let data = training_data();
    let data: Vec<&Row> = data.iter().collect();
    let counts = class_counts(&data);
    let mut expected = HashMap::new();
    expected.insert("Lemon".to_string(), 1);
    expected.insert("Apple".to_string(), 2);
    expected.insert("Grape".to_string(), 2);

    assert_eq!(expected, as_map(counts));
}

#[test]
fn test_class_counts_iter() {
    let data = training_data();
    let data: Vec<&Row> = data.iter().collect();
    let (count, counts) = class_counts_iter(&data);
    let mut expected = HashMap::new();
    expected.insert("Lemon".to_string(), 1);
    expected.insert("Apple".to_string(), 2);
    expected.insert("Grape".to_string(), 2);

    assert_eq!(5, count);
    assert_eq!(expected, as_map(counts));
}

#[test]
fn tree_test_gini_pure() {
    let p = vec![
        Fruit::new(1, "Red".to_string(), 3, "Apple".to_string()),
        Fruit::new(2, "Green".to_string(), 2, "Apple".to_string()),
    ];
    let p: Vec<&Row> = p.iter().collect();

    assert_eq!(0.0, as_float(gini(&p)));
}

#[test]
fn tree_test_gini_impure() {
    let p = vec![
        Fruit::new(1, "Red".to_string(), 3, "Apple".to_string()),
        Fruit::new(2, "Red".to_string(), 3, "Orange".to_string()),
    ];
    let p: Vec<&Row> = p.iter().collect();

    assert_eq!(0.5, as_float(gini(&p)));
}

#[test]
fn tree_test_column_values() {
    let data = training_data();
    let data: Vec<&Row> = data.iter().collect();
    let cols = column_values(&data, 1);
    assert_eq!(vec![Col::Int(1), Col::Int(3)], cols);
}

#[test]
fn tree_test_question_matches() {
    let q = Question::new("Colour".to_string(), 0, Col::Text("Red".to_string()));

    assert!(q.matchit(&Fruit::new(1, "Red".to_string(), 1, "toenails".to_string())));
    assert!(!q.matchit(&Fruit::new(2, "Green".to_string(), 1, "spleen".to_string())));

    let q = Question::new("Colour".to_string(), 1, Col::Int(42));
    assert!(q.matchit(&Fruit::new(
        1,
        "Red".to_string(),
        42,
        "toenails".to_string()
    )));
    assert!(!q.matchit(&Fruit::new(2, "Red".to_string(), 1, "spleen".to_string())));
}

#[test]
fn tree_test_partition() {
    let data = training_data();
    let data: Vec<&Row> = data.iter().collect();
    let q = Question::new("Colour".to_string(), 0, Col::Text("Red".to_string()));

    let (t, f) = partition(&data, &q);

    assert_eq!(2, t.len());
    assert_eq!(3, f.len());
}

#[test]
fn gini_is_zero_only_for_a_single_label() {
    let data = training_data();
    let data: Vec<&Row> = data.iter().collect();
    // labels Apple, Apple, Grape, Grape, Lemon: 1 - (4 + 4 + 1) / 25
    let g = gini(&data);
    assert_eq!((16, 25), (g.num, g.den));
    let apples: Vec<&Row> = data[0..2].to_vec();
    assert_eq!(0, gini(&apples).num);
    let one: Vec<&Row> = data[4..5].to_vec();
    assert_eq!(0, gini(&one).num);
}

#[test]
fn gini_of_no_rows_is_zero() {
    let data: Vec<&Row> = Vec::new();
    assert_eq!(Ratio { num: 0, den: 1 }, gini(&data));
}

#[test]
fn class_counts_keep_first_appearance_order() {
    let data = training_data();
    let data: Vec<&Row> = data.iter().collect();
    let counts = class_counts(&data);
    assert_eq!(
        vec![("Apple".to_string(), 2), ("Grape".to_string(), 2), ("Lemon".to_string(), 1)],
        counts
    );
}

#[test]
fn column_values_sorted_and_distinct() {
    let data = vec![
        Fruit::new(1, "Red".to_string(), 3, "A".to_string()),
        Fruit::new(2, "Red".to_string(), 3, "A".to_string()),
        Fruit::new(3, "Red".to_string(), 1, "A".to_string()),
        Fruit::new(4, "Red".to_string(), 1, "A".to_string()),
        Fruit::new(5, "Red".to_string(), 3, "A".to_string()),
    ];
    let data: Vec<&Row> = data.iter().collect();
    assert_eq!(vec![Col::Int(1), Col::Int(3)], column_values(&data, 1));

    let data = training_data();
    let data: Vec<&Row> = data.iter().collect();
    let expected = vec![
        Col::Text("Green".to_string()),
        Col::Text("Red".to_string()),
        Col::Text("Yellow".to_string()),
    ];
    assert_eq!(expected, column_values(&data, 0));
}

#[test]
fn partition_keeps_every_row_once_in_order() {
    let data = training_data();
    let data: Vec<&Row> = data.iter().collect();
    let q = Question::new("Things".to_string(), 1, Col::Int(3));
    let (t, f) = partition(&data, &q);
    let t_ids: Vec<i64> = t.iter().map(|r| r.id()).collect();
    let f_ids: Vec<i64> = f.iter().map(|r| r.id()).collect();
    assert_eq!(vec![1, 2, 5], t_ids);
    assert_eq!(vec![3, 4], f_ids);
    assert_eq!(data.len(), t.len() + f.len());
}

#[test]
fn absent_cells_never_match() {
    let q = Question::new("Weight".to_string(), 0, Col::Float(10));
    assert!(!q.matchit(&reading(None)));
    assert!(q.matchit(&reading(Some(10))));
    assert!(!q.matchit(&reading(Some(9))));
    let q = Question::new("Weight".to_string(), 0, Col::Null);
    assert!(!q.matchit(&reading(Some(9))));
}

#[test]
fn best_split_separates_the_rows() {
    let data = training_data();
    let data: Vec<&Row> = data.iter().collect();
    let (gain, q) = find_best_split(&data);
    let q = q.expect("a useful split exists");
    let (t, f) = partition(&data, &q);
    assert!(!t.is_empty());
    assert!(!f.is_empty());
    assert!(gain.num > 0);
    // "Colour == Red" separates the grapes with a gain of
    // 0.64 - 0.6 * 4/9 = 0.3733..., the highest there is; later questions
    // with the same gain do not replace it.
    assert_eq!("Colour", q.field_name);
    assert_eq!(Col::Text("Red".to_string()), q.val);
    assert!((as_float(gain) - (0.64 - 0.6 * (4.0 / 9.0))).abs() < 1e-12);
}

#[test]
fn best_split_of_pure_rows_is_none() {
    let data = training_data();
    let apples: Vec<&Row> = data[0..2].iter().collect();
    let (gain, q) = find_best_split(&apples);
    assert!(q.is_none());
    assert_eq!(Ratio { num: 0, den: 1 }, gain);
}

#[test]
fn training_rows_get_their_leaf_majority() {
    let data = training_data();
    let data: Vec<&Row> = data.iter().collect();
    let tree = build_tree(&data, None);
    assert_eq!("Apple", classify(data[0], &tree));
    assert_eq!("Apple", classify(data[1], &tree));
    assert_eq!("Grape", classify(data[2], &tree));
    assert_eq!("Grape", classify(data[3], &tree));
    // The third column is the label itself, so the yellow rows are told
    // apart by "Fruit == Apple" below the split on "Colour == Red".
    assert_eq!("Lemon", classify(data[4], &tree));
}

#[test]
fn depth_one_gives_a_single_leaf() {
    let data = training_data();
    let data: Vec<&Row> = data.iter().collect();
    let tree = build_tree(&data, Some(1));
    match &tree {
        Node::Leaf { predictions } => assert_eq!(3, predictions.len()),
        Node::Decision { .. } => panic!("expected a leaf"),
    }
    let tree = build_tree(&data, Some(2));
    match &tree {
        Node::Decision { true_branch, false_branch, .. } => {
            assert!(matches!(**true_branch, Node::Leaf { .. }));
            assert!(matches!(**false_branch, Node::Leaf { .. }));
        }
        Node::Leaf { .. } => panic!("expected a decision"),
    }
}

#[test]
fn prediction_breaks_ties_by_text_order() {
    let counts = vec![("Lemon".to_string(), 2), ("Apple".to_string(), 2), ("Grape".to_string(), 1)];
    assert_eq!("Apple", prediction(&counts));
    let counts = vec![("Lemon".to_string(), 3), ("Apple".to_string(), 2)];
    assert_eq!("Lemon", prediction(&counts));
}

#[test]
fn fold_striping_example() {
    let data = vec![&0, &1, &2, &3, &4, &5];
    let (train, test) = fold_dataset(&data, 3, 2);
    assert_eq!(vec![&2, &5], test);
    assert_eq!(vec![&0, &1, &3, &4], train);
    let (train, test) = fold_dataset(&data, 3, 0);
    assert_eq!(vec![&0, &3], test);
    assert_eq!(vec![&1, &2, &4, &5], train);
}

#[test]
fn cross_validation_scores_lie_in_unit_range() {
    let data = training_data();
    let data: Vec<&Row> = data.iter().collect();
    let scores = validate_depth(&data, 5, 3);
    assert_eq!(5, scores.len());
    for s in &scores {
        assert_eq!(1, s.tested);
        assert!(s.correct <= s.tested);
    }
    let mean: f64 =
        scores.iter().map(|s| s.correct as f64 / s.tested as f64).sum::<f64>() / scores.len() as f64;
    assert!((0.0..=1.0).contains(&mean));
}

#[test]
fn cross_validation_with_a_training_function() {
    let data = training_data();
    let data: Vec<&Row> = data.iter().collect();
    let scores = validate(&data, 2, |t: Vec<&Row>| build_tree(&t, None));
    // Fold 0 tests rows 1, 3, 5 against "Colour == Red ? Grape : Apple",
    // built from rows 2 and 4: the lemon is missed. Fold 1 tests rows 2 and
    // 4 against "Colour == Green ? Apple : (Colour == Red ? Grape : Lemon)",
    // built from rows 1, 3, 5: the yellow apple is missed.
    assert_eq!(
        vec![FoldScore { correct: 2, tested: 3 }, FoldScore { correct: 1, tested: 2 }],
        scores
    );
}

#[test]
fn breadth_first_numbers_nodes_level_by_level() {
    let data = training_data();
    let data: Vec<&Row> = data.iter().collect();
    let tree = build_tree(&data, None);
    let (nodes, edges) = tree.breadth_first();
    // Colour == Red ? Grape : (Fruit == Apple ? Apple : Lemon)
    assert_eq!(5, nodes.len());
    assert_eq!(
        vec![(1, 2, true), (1, 3, false), (3, 4, true), (3, 5, false)],
        edges
    );
    assert!(matches!(nodes[0], Node::Decision { .. }));
    assert!(matches!(nodes[1], Node::Leaf { .. }));
    assert!(matches!(nodes[2], Node::Decision { .. }));
    match nodes[3] {
        Node::Leaf { predictions } => assert_eq!(vec![("Apple".to_string(), 2)], *predictions),
        Node::Decision { .. } => panic!("expected a leaf"),
    }
}

#[test]
fn rows_of_another_schema_cannot_be_classified() {
    let data = training_data();
    let data: Vec<&Row> = data.iter().collect();
    let tree = build_tree(&data, None);
    assert!(tree.can_classify(data[0]));
    // A number where the root question expects text.
    let odd = Row::new(
        9,
        vec![("Colour".to_string(), Col::Int(1)), ("Things".to_string(), Col::Int(3))],
        "Apple".to_string(),
    );
    assert!(!tree.can_classify(&odd));
    let q = Question::new("Colour".to_string(), 0, Col::Text("Red".to_string()));
    assert!(!q.applies_to(&odd));
    assert!(q.applies_to(data[0]));
    assert!(q.applies_to(&reading(None)));
}

#[test]
fn ground_truth_labels() {
    assert_eq!("Died", Check { id: 1, survived: 0 }.label());
    assert_eq!("Lived", Check { id: 2, survived: 1 }.label());
}

#[test]
fn cell_order() {
    assert!(Col::Text("Apple".to_string()).less(&Col::Text("Apples".to_string())));
    assert!(Col::Text("Apple".to_string()).less(&Col::Text("Banana".to_string())));
    assert!(!Col::Text("b".to_string()).less(&Col::Text("a".to_string())));
    assert!(!Col::Int(3).less(&Col::Int(3)));
    assert!(Col::Int(-4).less(&Col::Int(3)));
    assert!(Col::Null.less(&Col::Text(String::new())));
    assert!(Col::Text("z".to_string()).less(&Col::Int(0)));
    assert!(Col::Int(7).less(&Col::Float(0)));
    assert_eq!(Col::Text("Red".to_string()), Col::Text("Red".to_string()).duplicate());
    assert_ne!(Col::Int(1), Col::Float(1));
}

#[test]
fn schema_check() {
    let data = training_data();
    let data: Vec<&Row> = data.iter().collect();
    assert!(follow_one_schema(&data));
    let empty: Vec<&Row> = Vec::new();
    assert!(follow_one_schema(&empty));
    let readings = vec![reading(None), reading(Some(3)), reading(None)];
    let readings: Vec<&Row> = readings.iter().collect();
    assert!(follow_one_schema(&readings));
    // A number where the colour column holds text.
    let odd = Row::new(
        9,
        vec![
            ("Colour".to_string(), Col::Int(1)),
            ("Things".to_string(), Col::Int(3)),
            ("Fruit".to_string(), Col::Text("Apple".to_string())),
        ],
        "Apple".to_string(),
    );
    let mut mixed = data.clone();
    mixed.push(&odd);
    assert!(!follow_one_schema(&mixed));
    // A row with fewer columns.
    let short = reading(Some(1));
    let mut ragged = data.clone();
    ragged.push(&short);
    assert!(!follow_one_schema(&ragged));
}
