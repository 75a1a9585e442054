//! A CART-style decision tree over typed tabular rows: Gini-impurity split
//! search, depth-bounded tree building, classification, and k-fold
//! cross-validation.
//!
//! Impurities and gains are exact fractions of integers, so the choice of a
//! split never depends on rounding.

pub mod col;
pub mod cross_validation;
pub mod ground_truth;
pub mod impurity;
pub mod layout;
pub mod question;
pub mod row;
pub mod tree;

pub use col::{Col, ColView};
pub use cross_validation::{FoldScore, fold_dataset, validate, validate_depth};
pub use ground_truth::Check;
pub use impurity::{Ratio, class_counts, class_counts_iter, gini};
pub use question::Question;
pub use row::{DataRow, Row, follow_one_schema};
pub use tree::{
    MAX_ROWS, Node, build_tree, classify, column_values, find_best_split, partition, prediction,
};
