//! Filter expressions over encoded label ids.
use vstd::prelude::*;

verus! {

/// A filter expression whose leaves are label ids.
pub enum ASTIdExpr {
    And(Vec<ASTIdExpr>),
    Or(Vec<ASTIdExpr>),
    Not(Box<ASTIdExpr>),
    Terminal(u64),
}

/// A point carries `label`. Carried labels are 32-bit, so a wider id is carried by no point.
pub open spec fn carries(labels: Seq<u32>, label: u64) -> bool {
    label <= u32::MAX && labels.contains(label as u32)
}

impl ASTIdExpr {
    /// The expression holds for a point that carries exactly `labels`.
    pub open spec fn holds(self, labels: Seq<u32>) -> bool
        decreases self,
    {
        match self {
            ASTIdExpr::And(subs) => forall|i: int|
                0 <= i < subs@.len() ==> (#[trigger] subs@[i]).holds(labels),
            ASTIdExpr::Or(subs) => exists|i: int|
                0 <= i < subs@.len() && (#[trigger] subs@[i]).holds(labels),
            ASTIdExpr::Not(sub) => !sub.holds(labels),
            ASTIdExpr::Terminal(label) => carries(labels, label),
        }
    }
}

/// A disjunction holds exactly where one of its parts does.
pub proof fn lemma_or_holds(subs: Vec<ASTIdExpr>, labels: Seq<u32>)
    ensures
        ASTIdExpr::Or(subs).holds(labels) == exists|i: int|
            0 <= i < subs@.len() && (#[trigger] subs@[i]).holds(labels),
{
    let expr = ASTIdExpr::Or(subs);
    assert(expr.holds(labels) == match expr {
        ASTIdExpr::Or(parts) => exists|i: int|
            0 <= i < parts@.len() && (#[trigger] parts@[i]).holds(labels),
        _ => false,
    });
}

/// A filter expression after its comparisons were replaced by label ids.
pub struct EncodedFilterExpr {
    expr: ASTIdExpr,
}

impl View for EncodedFilterExpr {
    type V = ASTIdExpr;

    closed spec fn view(&self) -> ASTIdExpr {
        self.expr
    }
}

impl EncodedFilterExpr {
    pub fn new(expr: ASTIdExpr) -> (filter: Self)
        ensures
            filter@ == expr,
    {
        EncodedFilterExpr { expr }
    }

    pub fn encoded_filter_expr(&self) -> (expr: &ASTIdExpr)
        ensures
            *expr == self@,
    {
        &self.expr
    }
}

} // verus!
