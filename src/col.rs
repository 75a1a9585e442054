use vstd::prelude::*;
use vstd::utf8::*;

verus! {

broadcast use encode_utf8_decode_utf8;

/// One cell of a row.
///
/// A floating-point cell is held as its order key: the integer whose order
/// is the order of the numbers it stands for. Only the order of such cells
/// is ever read, so nothing is lost by holding them this way.
#[derive(Debug, Clone)]
pub enum Col {
    Null,
    Text(String),
    Int(i64),
    Float(i64),
}

/// What a cell holds, as a mathematical value.
pub enum ColView {
    Null,
    Text(Seq<char>),
    Int(i64),
    Float(i64),
}

impl View for Col {
    type V = ColView;

    open spec fn view(&self) -> ColView {
        match self {
            Col::Null => ColView::Null,
            Col::Text(s) => ColView::Text(s@),
            Col::Int(i) => ColView::Int(*i),
            Col::Float(k) => ColView::Float(*k),
        }
    }
}

/// Lexicographic order on byte strings (a proper prefix comes first).
pub open spec fn bytes_lt(a: Seq<u8>, b: Seq<u8>) -> bool
    decreases a.len(),
{
    if b.len() == 0 {
        false
    } else if a.len() == 0 {
        true
    } else if a[0] != b[0] {
        a[0] < b[0]
    } else {
        bytes_lt(a.drop_first(), b.drop_first())
    }
}

/// Text order: lexicographic on the UTF-8 encoding, which is the order of
/// code points.
pub open spec fn text_lt(a: Seq<char>, b: Seq<char>) -> bool {
    bytes_lt(encode_utf8(a), encode_utf8(b))
}

/// Cells of different kinds are ordered by kind.
pub open spec fn kind_rank(c: ColView) -> int {
    match c {
        ColView::Null => 0,
        ColView::Text(_) => 1,
        ColView::Int(_) => 2,
        ColView::Float(_) => 3,
    }
}

/// The total order on cells used to sort and deduplicate a column.
pub open spec fn col_lt(a: ColView, b: ColView) -> bool {
    match (a, b) {
        (ColView::Text(x), ColView::Text(y)) => text_lt(x, y),
        (ColView::Int(x), ColView::Int(y)) => x < y,
        (ColView::Float(x), ColView::Float(y)) => x < y,
        _ => kind_rank(a) < kind_rank(b),
    }
}

pub proof fn lemma_bytes_lt_trichotomy(a: Seq<u8>, b: Seq<u8>)
    ensures
        !(bytes_lt(a, b) && bytes_lt(b, a)),
        !bytes_lt(a, a),
        a != b ==> bytes_lt(a, b) || bytes_lt(b, a),
    decreases a.len(),
{
    if a.len() > 0 && b.len() > 0 && a[0] == b[0] {
        lemma_bytes_lt_trichotomy(a.drop_first(), b.drop_first());
        if a != b {
            assert(a.drop_first() != b.drop_first()) by {
                if a.drop_first() == b.drop_first() {
                    assert(a =~= seq![a[0]] + a.drop_first());
                    assert(b =~= seq![b[0]] + b.drop_first());
                }
            }
        }
    }
    if a.len() > 0 {
        lemma_bytes_lt_trichotomy(a.drop_first(), a.drop_first());
    }
    if a.len() == 0 && b.len() == 0 {
        assert(a =~= b);
    }
}

pub proof fn lemma_bytes_lt_transitive(a: Seq<u8>, b: Seq<u8>, c: Seq<u8>)
    requires
        bytes_lt(a, b),
        bytes_lt(b, c),
    ensures
        bytes_lt(a, c),
    decreases a.len(),
{
    if a.len() > 0 && a[0] == b[0] && b[0] == c[0] {
        lemma_bytes_lt_transitive(a.drop_first(), b.drop_first(), c.drop_first());
    }
}

/// `col_lt` is transitive.
pub proof fn lemma_col_lt_transitive(a: ColView, b: ColView, c: ColView)
    requires
        col_lt(a, b),
        col_lt(b, c),
    ensures
        col_lt(a, c),
{
    match (a, b, c) {
        (ColView::Text(x), ColView::Text(y), ColView::Text(z)) => {
            lemma_bytes_lt_transitive(encode_utf8(x), encode_utf8(y), encode_utf8(z));
        },
        _ => {},
    }
}

/// `col_lt` is a strict total order: irreflexive, asymmetric and total.
pub proof fn lemma_col_lt_trichotomy(a: ColView, b: ColView)
    ensures
        !col_lt(a, a),
        !(col_lt(a, b) && col_lt(b, a)),
        a != b ==> col_lt(a, b) || col_lt(b, a),
{
    match (a, b) {
        (ColView::Text(x), ColView::Text(y)) => {
            lemma_bytes_lt_trichotomy(encode_utf8(x), encode_utf8(y));
            lemma_bytes_lt_trichotomy(encode_utf8(x), encode_utf8(x));
            encode_utf8_decode_utf8(x);
            encode_utf8_decode_utf8(y);
        },
        (ColView::Text(x), _) => {
            lemma_bytes_lt_trichotomy(encode_utf8(x), encode_utf8(x));
        },
        _ => {},
    }
}

/// Byte-wise lexicographic comparison.
pub fn bytes_less(a: &[u8], b: &[u8]) -> (r: bool)
    ensures
        r == bytes_lt(a@, b@),
{
    let mut i: usize = 0;
    assert(a@.skip(0) =~= a@);
    assert(b@.skip(0) =~= b@);
    while i < a.len() && i < b.len()
        invariant
            i <= a@.len(),
            i <= b@.len(),
            bytes_lt(a@, b@) == bytes_lt(a@.skip(i as int), b@.skip(i as int)),
        decreases a@.len() - i,
    {
        if a[i] != b[i] {
            return a[i] < b[i];
        }
        assert(a@.skip(i as int).drop_first() =~= a@.skip(i + 1));
        assert(b@.skip(i as int).drop_first() =~= b@.skip(i + 1));
        i = i + 1;
    }
    i < b.len()
}

/// Lexicographic comparison of two texts.
pub fn text_less(a: &String, b: &String) -> (r: bool)
    ensures
        r == text_lt(a@, b@),
{
    let x = a.as_str();
    let y = b.as_str();
    bytes_less(x.as_bytes(), y.as_bytes())
}

impl Col {
    /// The order of `col_lt`.
    pub fn less(&self, other: &Col) -> (r: bool)
        ensures
            r == col_lt(self@, other@),
    {
        match (self, other) {
            (Col::Text(x), Col::Text(y)) => text_less(x, y),
            (Col::Int(x), Col::Int(y)) => *x < *y,
            (Col::Float(x), Col::Float(y)) => *x < *y,
            _ => self.rank() < other.rank(),
        }
    }

    pub(crate) fn rank(&self) -> (r: u8)
        ensures
            r as int == kind_rank(self@),
    {
        match self {
            Col::Null => 0,
            Col::Text(_) => 1,
            Col::Int(_) => 2,
            Col::Float(_) => 3,
        }
    }

    /// A copy of this cell.
    pub fn duplicate(&self) -> (r: Col)
        ensures
            r@ == self@,
    {
        match self {
            Col::Null => Col::Null,
            Col::Text(s) => Col::Text(s.clone()),
            Col::Int(i) => Col::Int(*i),
            Col::Float(k) => Col::Float(*k),
        }
    }
}

impl Default for Col {
    fn default() -> (r: Col)
        ensures
            r@ == ColView::Null,
    {
        Col::Null
    }
}

impl PartialEq for Col {
    fn eq(&self, other: &Col) -> (r: bool) {
        match (self, other) {
            (Col::Null, Col::Null) => true,
            (Col::Text(x), Col::Text(y)) => *x == *y,
            (Col::Int(x), Col::Int(y)) => *x == *y,
            (Col::Float(x), Col::Float(y)) => *x == *y,
            _ => false,
        }
    }
}

impl vstd::std_specs::cmp::PartialEqSpecImpl for Col {
    open spec fn obeys_eq_spec() -> bool {
        true
    }

    open spec fn eq_spec(&self, other: &Col) -> bool {
        self@ == other@
    }
}

} // verus!
