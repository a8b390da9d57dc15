//! Formulas: goals under quantifiers and assumptions.
use crate::grammar::{goals_view, Goal, GoalView, Kind};
use vstd::prelude::*;

verus! {

/// A goal built from atomic goals.
///
/// Bound placeholders are numbered from the outside in: the variables of the
/// outermost quantifier come first, those of the next quantifier inside it
/// follow, and so on.
#[derive(Debug)]
pub enum Formula {
    /// All of the goals hold.
    All(Vec<Goal>),
    /// The body holds of `binders` variables: of all values, if the kind is
    /// universal; of some values, if it is existential.
    Quantified { kind: Kind, binders: usize, body: Box<Formula> },
    /// The body holds if the conditions do.
    Implies { conditions: Vec<Goal>, body: Box<Formula> },
}

/// The mathematical value of a [`Formula`].
pub enum FormulaView {
    All(Seq<GoalView>),
    Quantified { kind: Kind, binders: nat, body: Box<FormulaView> },
    Implies { conditions: Seq<GoalView>, body: Box<FormulaView> },
}

/// The mathematical value of a formula.
pub open spec fn formula_view(f: Formula) -> FormulaView
    decreases f,
{
    match f {
        Formula::All(goals) => FormulaView::All(goals_view(goals@)),
        Formula::Quantified { kind, binders, body } => FormulaView::Quantified {
            kind,
            binders: binders as nat,
            body: Box::new(formula_view(*body)),
        },
        Formula::Implies { conditions, body } => FormulaView::Implies {
            conditions: goals_view(conditions@),
            body: Box::new(formula_view(*body)),
        },
    }
}

impl View for Formula {
    type V = FormulaView;

    open spec fn view(&self) -> FormulaView {
        formula_view(*self)
    }
}

impl Formula {
    /// The conjunction of the goals.
    pub fn all(goals: Vec<Goal>) -> (r: Formula)
        ensures
            r@ == FormulaView::All(goals_view(goals@)),
    {
        Formula::All(goals)
    }

    /// The body, of every value of `binders` variables.
    pub fn for_all(binders: usize, body: Formula) -> (r: Formula)
        ensures
            r@ == (FormulaView::Quantified {
                kind: Kind::Universal,
                binders: binders as nat,
                body: Box::new(body@),
            }),
    {
        Formula::Quantified { kind: Kind::Universal, binders, body: Box::new(body) }
    }

    /// The body, of some value of `binders` variables.
    pub fn for_some(binders: usize, body: Formula) -> (r: Formula)
        ensures
            r@ == (FormulaView::Quantified {
                kind: Kind::Existential,
                binders: binders as nat,
                body: Box::new(body@),
            }),
    {
        Formula::Quantified { kind: Kind::Existential, binders, body: Box::new(body) }
    }

    /// The body, under the conditions.
    pub fn implies(conditions: Vec<Goal>, body: Formula) -> (r: Formula)
        ensures
            r@ == (FormulaView::Implies {
                conditions: goals_view(conditions@),
                body: Box::new(body@),
            }),
    {
        Formula::Implies { conditions, body: Box::new(body) }
    }
}

} // verus!
