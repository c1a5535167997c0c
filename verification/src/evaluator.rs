//! Evaluation of filter expressions against the labels of one point.
use vstd::prelude::*;

use crate::filter_expr::{carries, ASTIdExpr};

verus! {

/// The labels ascend; a label may occur more than once.
pub open spec fn ascending(labels: Seq<u32>) -> bool {
    forall|i: int, j: int| 0 <= i < j < labels.len() ==> labels[i] <= labels[j]
}

/// Evaluates filter expressions on the labels of one point.
///
/// A label is looked up by a linear scan in a short list and by binary search
/// in a longer one.
pub struct SlicePredicateEvaluator<'a> {
    labels: &'a [u32],
}

impl<'a> SlicePredicateEvaluator<'a> {
    /// The longest list that is scanned from one end to the other.
    pub const LINEAR_SCAN_THRESHOLD: usize = 32;

    pub closed spec fn labels(&self) -> Seq<u32> {
        self.labels@
    }

    /// Labels can be looked up: they ascend, or they are few enough to be scanned.
    pub open spec fn searchable(&self) -> bool {
        ascending(self.labels()) || self.labels().len() <= Self::LINEAR_SCAN_THRESHOLD
    }

    pub fn new(labels: &'a [u32]) -> (evaluator: Self)
        ensures
            evaluator.labels() == labels@,
    {
        SlicePredicateEvaluator { labels }
    }

    /// `id` is among the labels.
    pub fn contains_id(&self, id: u32) -> (found: bool)
        requires
            self.searchable(),
        ensures
            found == self.labels().contains(id),
    {
        if self.labels.len() <= Self::LINEAR_SCAN_THRESHOLD {
            self.scan(id)
        } else {
            self.search(id)
        }
    }

    fn scan(&self, id: u32) -> (found: bool)
        ensures
            found == self.labels().contains(id),
    {
        let n: usize = self.labels.len();
        for i in 0..n
            invariant
                n == self.labels().len(),
                forall|j: int| 0 <= j < i ==> self.labels()[j] != id,
        {
            if self.labels[i] == id {
                return true;
            }
        }
        false
    }

    fn search(&self, id: u32) -> (found: bool)
        requires
            ascending(self.labels()),
        ensures
            found == self.labels().contains(id),
    {
        let mut low: usize = 0;
        let mut high: usize = self.labels.len();
        while low < high
            invariant
                low <= high <= self.labels().len(),
                ascending(self.labels()),
                forall|j: int| 0 <= j < low ==> self.labels()[j] < id,
                forall|j: int| high <= j < self.labels().len() ==> self.labels()[j] > id,
            decreases high - low,
        {
            let middle: usize = low + (high - low) / 2;
            let label: u32 = self.labels[middle];
            if label == id {
                return true;
            } else if label < id {
                low = middle + 1;
            } else {
                high = middle;
            }
        }
        false
    }

    /// The expression holds for the labels.
    pub fn visit(&self, expr: &ASTIdExpr) -> (r: bool)
        requires
            self.searchable(),
        ensures
            r == expr.holds(self.labels()),
        decreases *expr, 0int,
    {
        match expr {
            ASTIdExpr::And(exprs) => self.visit_and(exprs.as_slice()),
            ASTIdExpr::Or(exprs) => self.visit_or(exprs.as_slice()),
            ASTIdExpr::Not(sub) => self.visit_not(sub),
            ASTIdExpr::Terminal(label_id) => self.visit_terminal(*label_id),
        }
    }

    /// Every expression holds for the labels.
    pub fn visit_and(&self, exprs: &[ASTIdExpr]) -> (r: bool)
        requires
            self.searchable(),
        ensures
            r == forall|i: int|
                0 <= i < exprs@.len() ==> (#[trigger] exprs@[i]).holds(self.labels()),
        decreases exprs@, 0int,
    {
        let n: usize = exprs.len();
        for i in 0..n
            invariant
                n == exprs@.len(),
                self.searchable(),
                forall|j: int| 0 <= j < i ==> (#[trigger] exprs@[j]).holds(self.labels()),
        {
            if !self.visit(&exprs[i]) {
                assert(!exprs@[i as int].holds(self.labels()));
                return false;
            }
        }
        true
    }

    /// Some expression holds for the labels.
    pub fn visit_or(&self, exprs: &[ASTIdExpr]) -> (r: bool)
        requires
            self.searchable(),
        ensures
            r == exists|i: int|
                0 <= i < exprs@.len() && (#[trigger] exprs@[i]).holds(self.labels()),
        decreases exprs@, 0int,
    {
        let n: usize = exprs.len();
        for i in 0..n
            invariant
                n == exprs@.len(),
                self.searchable(),
                forall|j: int| 0 <= j < i ==> !(#[trigger] exprs@[j]).holds(self.labels()),
        {
            if self.visit(&exprs[i]) {
                assert(exprs@[i as int].holds(self.labels()));
                return true;
            }
        }
        false
    }

    /// The expression does not hold for the labels.
    pub fn visit_not(&self, expr: &ASTIdExpr) -> (r: bool)
        requires
            self.searchable(),
        ensures
            r == !expr.holds(self.labels()),
        decreases *expr, 1int,
    {
        !self.visit(expr)
    }

    /// The point carries `label_id`.
    pub fn visit_terminal(&self, label_id: u64) -> (r: bool)
        requires
            self.searchable(),
        ensures
            r == carries(self.labels(), label_id),
    {
        if label_id > u32::MAX as u64 {
            return false;
        }
        self.contains_id(label_id as u32)
    }
}

} // verus!
