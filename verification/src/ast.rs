//! Filter expressions over named fields.
use vstd::prelude::*;

use crate::labels::InvertedIndexView;
use crate::values::{CompareOp, ValueView};

verus! {

/// A filter expression whose leaves compare the fields of a document.
pub enum ASTExpr {
    And(Vec<ASTExpr>),
    Or(Vec<ASTExpr>),
    Not(Box<ASTExpr>),
    Compare { field: String, op: CompareOp },
}

impl ASTExpr {
    /// The expression selects `id`, where `index` gives the value of each document under
    /// each field and the documents are numbered below `universe`. A comparison selects the
    /// documents whose value under the field makes it hold.
    pub open spec fn selects(
        self,
        index: InvertedIndexView,
        universe: usize,
        id: usize,
    ) -> bool
        decreases self,
    {
        match self {
            ASTExpr::And(subs) => if subs@.len() == 0 {
                id < universe
            } else {
                forall|i: int|
                    0 <= i < subs@.len() ==> (#[trigger] subs@[i]).selects(index, universe, id)
            },
            ASTExpr::Or(subs) => exists|i: int|
                0 <= i < subs@.len() && (#[trigger] subs@[i]).selects(index, universe, id),
            ASTExpr::Not(sub) => id < universe && !sub.selects(index, universe, id),
            ASTExpr::Compare { field, op } => exists|value: ValueView| #[trigger]
                index.posting(field@).contains((value, id)) && op.holds(Some(value)),
        }
    }

    /// All that the expression selects.
    pub open spec fn selection(
        self,
        index: InvertedIndexView,
        universe: usize,
    ) -> Set<usize> {
        Set::new(|id: usize| self.selects(index, universe, id))
    }
}

} // verus!
