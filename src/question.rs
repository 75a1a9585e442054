use vstd::prelude::*;

use crate::col::{Col, ColView};
use crate::row::{DataRow, comparable, compatible};

verus! {

/// A split predicate: does the row's value in column `col` satisfy `val`?
#[derive(Debug, Clone)]
pub struct Question {
    pub field_name: String,
    pub col: usize,
    pub val: Col,
}

/// A question as a mathematical value.
pub struct QuestionView {
    pub field_name: Seq<char>,
    pub col: nat,
    pub val: ColView,
}

impl View for Question {
    type V = QuestionView;

    open spec fn view(&self) -> QuestionView {
        QuestionView { field_name: self.field_name@, col: self.col as nat, val: self.val@ }
    }
}

/// Whether a cell satisfies a threshold: an absent cell or threshold never
/// does; text must be equal; a number must be at least the threshold.
pub open spec fn satisfies(v: ColView, threshold: ColView) -> bool {
    match (v, threshold) {
        (ColView::Text(x), ColView::Text(y)) => x == y,
        (ColView::Int(x), ColView::Int(y)) => x >= y,
        (ColView::Float(x), ColView::Float(y)) => x >= y,
        _ => false,
    }
}

impl QuestionView {
    /// The question can be put to the row: the column exists and its cell is
    /// comparable with the threshold.
    pub open spec fn applies_to<T: DataRow>(self, row: &T) -> bool {
        self.col < row.spec_len() && compatible(row.spec_value(self.col as int), self.val)
    }

    pub open spec fn holds_for<T: DataRow>(self, row: &T) -> bool {
        satisfies(row.spec_value(self.col as int), self.val)
    }
}

impl Question {
    pub fn new(field_name: String, col: usize, val: Col) -> (r: Question)
        ensures
            r.field_name == field_name,
            r.col == col,
            r.val == val,
    {
        Question { field_name, col, val }
    }

    /// A copy of this question.
    pub fn duplicate(&self) -> (r: Question)
        ensures
            r@ == self@,
    {
        Question { field_name: self.field_name.clone(), col: self.col, val: self.val.duplicate() }
    }

    /// Whether the question can be put to the row.
    pub fn applies_to<T: DataRow>(&self, row: &T) -> (r: bool)
        ensures
            r == self@.applies_to(row),
    {
        self.col < row.len() && comparable(&row.value(self.col), &self.val)
    }

    /// Does this question match the given row?
    pub fn matchit<T: DataRow>(&self, example: &T) -> (r: bool)
        requires
            self@.applies_to(example),
        ensures
            r == self@.holds_for(example),
    {
        let v = example.value(self.col);
        match (&v, &self.val) {
            (Col::Null, _) => false,
            (_, Col::Null) => false,
            (Col::Text(them), Col::Text(us)) => *them == *us,
            (Col::Int(them), Col::Int(us)) => *them >= *us,
            (Col::Float(them), Col::Float(us)) => *them >= *us,
            _ => false,
        }
    }
}

} // verus!
