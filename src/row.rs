use vstd::prelude::*;

use crate::col::{Col, ColView, kind_rank};

verus! {

/// What the tree needs of a row of a dataset: its columns, each with a name
/// and a value, and the label the tree learns to predict. The answers are
/// the same each time they are asked, as the spec functions state.
pub trait DataRow {
    spec fn spec_name(&self, col: int) -> Seq<char>;

    spec fn spec_value(&self, col: int) -> ColView;

    spec fn spec_label(&self) -> Seq<char>;

    spec fn spec_len(&self) -> nat;

    fn id(&self) -> i64;

    fn name(&self, col: usize) -> (r: String)
        requires
            col < self.spec_len(),
        ensures
            r@ == self.spec_name(col as int),
    ;

    fn value(&self, col: usize) -> (r: Col)
        requires
            col < self.spec_len(),
        ensures
            r@ == self.spec_value(col as int),
    ;

    fn label(&self) -> (r: String)
        ensures
            r@ == self.spec_label(),
    ;

    fn len(&self) -> (r: usize)
        ensures
            r as nat == self.spec_len(),
    ;
}

/// A row of a dataset: an identifier, named cells, and a label.
#[derive(Debug, Clone)]
pub struct Row {
    pub id: i64,
    pub columns: Vec<(String, Col)>,
    pub label: String,
}

impl Row {
    pub fn new(id: i64, columns: Vec<(String, Col)>, label: String) -> (r: Row)
        ensures
            r.id == id,
            r.columns == columns,
            r.label == label,
    {
        Row { id, columns, label }
    }
}

impl DataRow for Row {
    open spec fn spec_name(&self, col: int) -> Seq<char> {
        self.columns@[col].0@
    }

    open spec fn spec_value(&self, col: int) -> ColView {
        self.columns@[col].1@
    }

    open spec fn spec_label(&self) -> Seq<char> {
        self.label@
    }

    open spec fn spec_len(&self) -> nat {
        self.columns@.len()
    }

    fn id(&self) -> i64 {
        self.id
    }

    fn name(&self, col: usize) -> (r: String) {
        self.columns[col].0.clone()
    }

    fn value(&self, col: usize) -> (r: Col) {
        self.columns[col].1.duplicate()
    }

    fn label(&self) -> (r: String) {
        self.label.clone()
    }

    fn len(&self) -> (r: usize) {
        self.columns.len()
    }
}

/// Two cells can be compared by a question: one of them is absent, or both
/// are of the same kind.
pub open spec fn compatible(a: ColView, b: ColView) -> bool {
    a is Null || b is Null || kind_rank(a) == kind_rank(b)
}

/// Whether a question can compare the two cells.
pub fn comparable(a: &Col, b: &Col) -> (r: bool)
    ensures
        r == compatible(a@, b@),
{
    match (a, b) {
        (Col::Null, _) => true,
        (_, Col::Null) => true,
        _ => a.rank() == b.rank(),
    }
}

/// The labels of a sequence of rows, in order.
pub open spec fn labels<T: DataRow>(rows: Seq<&T>) -> Seq<Seq<char>> {
    Seq::new(rows.len(), |i: int| rows[i].spec_label())
}

/// The rows follow one schema: they have the same number of columns, and in
/// each column the cells that are present are of one kind.
pub open spec fn same_schema<T: DataRow>(rows: Seq<&T>) -> bool {
    &&& forall|i: int, j: int|
        0 <= i < rows.len() && 0 <= j < rows.len() ==> #[trigger] rows[i].spec_len()
            == #[trigger] rows[j].spec_len()
    &&& forall|i: int, j: int, c: int|
        0 <= i < rows.len() && 0 <= j < rows.len() && 0 <= c < rows[i].spec_len() ==> compatible(
            #[trigger] rows[i].spec_value(c),
            #[trigger] rows[j].spec_value(c),
        )
}

/// Column `c` of `rows` holds cells of at most one kind besides absent ones.
pub open spec fn column_of_one_kind<T: DataRow>(rows: Seq<&T>, c: int) -> bool {
    forall|i: int, j: int|
        0 <= i < rows.len() && 0 <= j < rows.len() ==> compatible(
            #[trigger] rows[i].spec_value(c),
            #[trigger] rows[j].spec_value(c),
        )
}

/// Checks column `c`, whose cells exist in every row.
fn column_is_of_one_kind<T: DataRow>(rows: &[&T], c: usize) -> (r: bool)
    requires
        forall|i: int| 0 <= i < rows@.len() ==> c < #[trigger] rows@[i].spec_len(),
    ensures
        r == column_of_one_kind(rows@, c as int),
{
    let mut first = Col::Null;
    let ghost mut at: int = 0;
    let mut i: usize = 0;
    while i < rows.len()
        invariant
            i <= rows@.len(),
            forall|i: int| 0 <= i < rows@.len() ==> c < #[trigger] rows@[i].spec_len(),
            first@ is Null ==> forall|k: int| 0 <= k < i ==> #[trigger] rows@[k].spec_value(c as int) is Null,
            !(first@ is Null) ==> 0 <= at < i && rows@[at].spec_value(c as int) == first@,
            forall|k: int| 0 <= k < i ==> compatible(#[trigger] rows@[k].spec_value(c as int), first@),
        decreases rows@.len() - i,
    {
        let v = rows[i].value(c);
        if !comparable(&v, &first) {
            proof {
                assert(!compatible(rows@[i as int].spec_value(c as int), rows@[at].spec_value(c as int)));
            }
            return false;
        }
        if let Col::Null = first {
            proof {
                at = i as int;
            }
            first = v;
        }
        i = i + 1;
    }
    true
}

/// Whether the rows follow one schema.
pub fn follow_one_schema<T: DataRow>(rows: &[&T]) -> (r: bool)
    ensures
        r == same_schema(rows@),
{
    if rows.len() == 0 {
        return true;
    }
    let width = rows[0].len();
    let mut i: usize = 0;
    while i < rows.len()
        invariant
            0 < rows@.len(),
            i <= rows@.len(),
            width == rows@[0].spec_len(),
            forall|k: int| 0 <= k < i ==> #[trigger] rows@[k].spec_len() == width,
        decreases rows@.len() - i,
    {
        if rows[i].len() != width {
            return false;
        }
        i = i + 1;
    }
    let mut c: usize = 0;
    while c < width
        invariant
            0 < rows@.len(),
            width == rows@[0].spec_len(),
            c <= width,
            forall|k: int| 0 <= k < rows@.len() ==> #[trigger] rows@[k].spec_len() == width,
            forall|d: int| 0 <= d < c ==> column_of_one_kind(rows@, d),
        decreases width - c,
    {
        if !column_is_of_one_kind(rows, c) {
            proof {
                assert(!column_of_one_kind(rows@, c as int));
                let (a, b) = choose|a: int, b: int|
                    0 <= a < rows@.len() && 0 <= b < rows@.len() && !compatible(
                        #[trigger] rows@[a].spec_value(c as int),
                        #[trigger] rows@[b].spec_value(c as int),
                    );
                assert(0 <= c < rows@[a].spec_len());
            }
            return false;
        }
        c = c + 1;
    }
    proof {
        assert forall|a: int, b: int, d: int|
            0 <= a < rows@.len() && 0 <= b < rows@.len() && 0 <= d < rows@[a].spec_len() implies compatible(
            #[trigger] rows@[a].spec_value(d),
            #[trigger] rows@[b].spec_value(d),
        ) by {
            assert(column_of_one_kind(rows@, d));
        }
    }
    true
}

} // verus!
