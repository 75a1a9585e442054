use vstd::prelude::*;

verus! {

broadcast use vstd::string::group_string_axioms;

/// One record of a ground-truth file: a passenger and whether they
/// survived (`0` for no).
#[derive(Debug, Clone, Copy, PartialEq, Eq)]
pub struct Check {
    pub id: i64,
    pub survived: i64,
}

/// The label that a survival flag stands for.
pub open spec fn outcome_label(survived: i64) -> Seq<char> {
    if survived == 0 {
        "Died"@
    } else {
        "Lived"@
    }
}

impl Check {
    /// The label this record expects for its passenger.
    pub fn label(&self) -> (r: String)
        ensures
            r@ == outcome_label(self.survived),
    {
        if self.survived == 0 {
            "Died".to_string()
        } else {
            "Lived".to_string()
        }
    }
}

} // verus!
