//! Terms, goals and clauses: the shapes the solver works on.
//!
//! Every executable type here has a mathematical view in which vectors become
//! sequences; two values are structurally equal exactly when their views are
//! equal.
use vstd::prelude::*;

verus! {

/// How a variable is quantified.
#[derive(Clone, Copy, Debug, PartialEq, Eq, Hash, Structural)]
pub enum Kind {
    /// Some specific but unknown value, which the solver may bind.
    Existential,
    /// Any value whatsoever; the solver may never bind it.
    Universal,
    /// A placeholder under the binder of a clause; it is replaced by a fresh
    /// variable whenever the clause is used and never occurs in an environment.
    Bound,
}

/// A variable: its quantifier and the index that tells it from the others of
/// that quantifier.
#[derive(Clone, Copy, Debug, PartialEq, Eq, Hash, Structural)]
pub struct Variable {
    pub kind: Kind,
    pub index: u64,
}

/// A type term.
#[derive(Debug)]
pub enum Term {
    /// A type constructor applied to parameters.
    Rigid { name: u64, parameters: Vec<Term> },
    /// An associated type of an interface, projected from parameters.
    Alias { name: u64, parameters: Vec<Term> },
    /// A variable.
    Var(Variable),
}

/// The mathematical value of a [`Term`].
pub enum TermView {
    Rigid { name: u64, parameters: Seq<TermView> },
    Alias { name: u64, parameters: Seq<TermView> },
    Var(Variable),
}

/// What a proposition states of its terms.
#[derive(Clone, Copy, Debug, PartialEq, Eq, Hash, Structural)]
pub enum Shape {
    /// The terms are the parameters of an implementation of this interface.
    Implemented(u64),
    /// The last term is a value of this associated type projected from the
    /// terms before it.
    NormalizesTo(u64),
    /// The two terms are equal.
    Equals,
}

/// An atomic proposition: a shape applied to terms.
#[derive(Debug)]
pub struct Goal {
    pub shape: Shape,
    pub terms: Vec<Term>,
}

/// The mathematical value of a [`Goal`].
pub struct GoalView {
    pub shape: Shape,
    pub terms: Seq<TermView>,
}

/// An implication under a binder: for every value of the `binders` bound
/// variables (those with index below `binders`), if all `conditions` hold then
/// so does `conclusion`.
#[derive(Debug)]
pub struct Clause {
    pub binders: usize,
    pub conditions: Vec<Goal>,
    pub conclusion: Goal,
}

/// The mathematical value of a [`Clause`].
pub struct ClauseView {
    pub binders: nat,
    pub conditions: Seq<GoalView>,
    pub conclusion: GoalView,
}

/// The mathematical values of a list of terms.
pub open spec fn terms_view(ts: Seq<Term>) -> Seq<TermView>
    decreases ts, 0int,
{
    Seq::new(
        ts.len(),
        |i: int|
            if 0 <= i < ts.len() {
                term_view(ts[i])
            } else {
                TermView::Var(Variable { kind: Kind::Bound, index: 0 })
            },
    )
}

/// The mathematical value of a term.
pub open spec fn term_view(t: Term) -> TermView
    decreases t, 1int,
{
    match t {
        Term::Rigid { name, parameters } => TermView::Rigid {
            name,
            parameters: terms_view(parameters@),
        },
        Term::Alias { name, parameters } => TermView::Alias {
            name,
            parameters: terms_view(parameters@),
        },
        Term::Var(v) => TermView::Var(v),
    }
}

impl View for Term {
    type V = TermView;

    open spec fn view(&self) -> TermView {
        term_view(*self)
    }
}

impl View for Goal {
    type V = GoalView;

    open spec fn view(&self) -> GoalView {
        GoalView { shape: self.shape, terms: terms_view(self.terms@) }
    }
}

/// The mathematical values of a list of goals.
pub open spec fn goals_view(gs: Seq<Goal>) -> Seq<GoalView> {
    Seq::new(gs.len(), |i: int| gs[i]@)
}

impl View for Clause {
    type V = ClauseView;

    open spec fn view(&self) -> ClauseView {
        ClauseView {
            binders: self.binders as nat,
            conditions: goals_view(self.conditions@),
            conclusion: self.conclusion@,
        }
    }
}

/// The mathematical values of a list of clauses.
pub open spec fn clauses_view(ks: Seq<Clause>) -> Seq<ClauseView> {
    Seq::new(ks.len(), |i: int| ks[i]@)
}

impl TermView {
    /// Whether the term is a variable.
    pub open spec fn is_variable(self) -> bool {
        self is Var
    }
}

impl GoalView {
    /// The proposition that `a` and `b` are equal.
    pub open spec fn eq(a: TermView, b: TermView) -> GoalView {
        GoalView { shape: Shape::Equals, terms: seq![a, b] }
    }

    /// One equation for each position that both sequences have.
    pub open spec fn all_eq(a_s: Seq<TermView>, b_s: Seq<TermView>) -> Seq<GoalView> {
        Seq::new(
            if a_s.len() <= b_s.len() {
                a_s.len()
            } else {
                b_s.len()
            },
            |i: int| GoalView::eq(a_s[i], b_s[i]),
        )
    }
}

impl ClauseView {
    /// A clause without bound variables or conditions.
    pub open spec fn is_fact(self) -> bool {
        self.binders == 0 && self.conditions.len() == 0
    }
}

/// A copy of the terms.
pub fn clone_terms(ts: &Vec<Term>) -> (r: Vec<Term>)
    ensures
        terms_view(r@) == terms_view(ts@),
    decreases ts, 0int,
{
    let mut r: Vec<Term> = Vec::new();
    let mut i: usize = 0;
    while i < ts.len()
        invariant
            0 <= i <= ts.len(),
            r.len() == i,
            forall|j: int| 0 <= j < i ==> term_view(r[j]) == term_view(ts[j]),
        decreases ts.len() - i,
    {
        r.push(clone_term(&ts[i]));
        i += 1;
    }
    assert(terms_view(r@) =~= terms_view(ts@));
    r
}

/// A copy of the term.
pub fn clone_term(t: &Term) -> (r: Term)
    ensures
        r@ == t@,
    decreases t, 1int,
{
    match t {
        Term::Rigid { name, parameters } => Term::Rigid {
            name: *name,
            parameters: clone_terms(parameters),
        },
        Term::Alias { name, parameters } => Term::Alias {
            name: *name,
            parameters: clone_terms(parameters),
        },
        Term::Var(v) => Term::Var(*v),
    }
}

/// Whether the two lists hold structurally equal terms.
pub fn terms_eq(a_s: &Vec<Term>, b_s: &Vec<Term>) -> (r: bool)
    ensures
        r == (terms_view(a_s@) == terms_view(b_s@)),
    decreases a_s, 0int,
{
    if a_s.len() != b_s.len() {
        assert(terms_view(a_s@).len() != terms_view(b_s@).len());
        return false;
    }
    let mut i: usize = 0;
    while i < a_s.len()
        invariant
            0 <= i <= a_s.len(),
            a_s.len() == b_s.len(),
            forall|j: int| 0 <= j < i ==> term_view(a_s[j]) == term_view(b_s[j]),
        decreases a_s.len() - i,
    {
        if !term_eq(&a_s[i], &b_s[i]) {
            assert(terms_view(a_s@)[i as int] != terms_view(b_s@)[i as int]);
            return false;
        }
        i += 1;
    }
    assert(terms_view(a_s@) =~= terms_view(b_s@));
    true
}

/// Whether the two terms are structurally equal.
pub fn term_eq(a: &Term, b: &Term) -> (r: bool)
    ensures
        r == (a@ == b@),
    decreases a, 1int,
{
    match (a, b) {
        (
            Term::Rigid { name: a_name, parameters: a_parameters },
            Term::Rigid { name: b_name, parameters: b_parameters },
        ) => {
            *a_name == *b_name && terms_eq(a_parameters, b_parameters)
        },
        (
            Term::Alias { name: a_name, parameters: a_parameters },
            Term::Alias { name: b_name, parameters: b_parameters },
        ) => {
            *a_name == *b_name && terms_eq(a_parameters, b_parameters)
        },
        (Term::Var(v), Term::Var(w)) => *v == *w,
        _ => false,
    }
}

impl Variable {
    /// The existential variable with the given index.
    pub fn existential(index: u64) -> (r: Variable)
        ensures
            r == (Variable { kind: Kind::Existential, index }),
    {
        Variable { kind: Kind::Existential, index }
    }

    /// The universal variable with the given index.
    pub fn universal(index: u64) -> (r: Variable)
        ensures
            r == (Variable { kind: Kind::Universal, index }),
    {
        Variable { kind: Kind::Universal, index }
    }

    /// The bound placeholder with the given index.
    pub fn bound(index: u64) -> (r: Variable)
        ensures
            r == (Variable { kind: Kind::Bound, index }),
    {
        Variable { kind: Kind::Bound, index }
    }

    /// Whether the variable is existential.
    pub fn is_existential(&self) -> (r: bool)
        ensures
            r == (self.kind == Kind::Existential),
    {
        self.kind == Kind::Existential
    }

    /// Whether the variable is universal.
    pub fn is_universal(&self) -> (r: bool)
        ensures
            r == (self.kind == Kind::Universal),
    {
        self.kind == Kind::Universal
    }
}

impl Clone for Term {
    fn clone(&self) -> (r: Term)
        ensures
            r@ == self@,
    {
        clone_term(self)
    }
}

impl Term {
    /// The constructor `name` applied to the parameters.
    pub fn rigid(name: u64, parameters: Vec<Term>) -> (r: Term)
        ensures
            r@ == (TermView::Rigid { name, parameters: terms_view(parameters@) }),
    {
        Term::Rigid { name, parameters }
    }

    /// The associated type `name`, projected from the parameters.
    pub fn alias(name: u64, parameters: Vec<Term>) -> (r: Term)
        ensures
            r@ == (TermView::Alias { name, parameters: terms_view(parameters@) }),
    {
        Term::Alias { name, parameters }
    }

    /// The variable as a term.
    pub fn var(v: Variable) -> (r: Term)
        ensures
            r@ == TermView::Var(v),
    {
        Term::Var(v)
    }

    /// Whether the term is a variable.
    pub fn is_variable(&self) -> (r: bool)
        ensures
            r == self@.is_variable(),
    {
        match self {
            Term::Var(_) => true,
            _ => false,
        }
    }

    /// Structural equality.
    pub fn equals(&self, other: &Term) -> (r: bool)
        ensures
            r == (self@ == other@),
    {
        term_eq(self, other)
    }
}

impl Clone for Goal {
    fn clone(&self) -> (r: Goal)
        ensures
            r@ == self@,
    {
        Goal { shape: self.shape, terms: clone_terms(&self.terms) }
    }
}

impl Goal {
    /// The proposition that the interface is implemented for the parameters.
    pub fn implemented(interface: u64, parameters: Vec<Term>) -> (r: Goal)
        ensures
            r@ == (GoalView {
                shape: Shape::Implemented(interface),
                terms: terms_view(parameters@),
            }),
    {
        Goal { shape: Shape::Implemented(interface), terms: parameters }
    }

    /// The proposition that the associated type `name`, projected from the
    /// parameters, has the given value.
    pub fn normalizes_to(name: u64, parameters: Vec<Term>, value: Term) -> (r: Goal)
        ensures
            r@ == (GoalView {
                shape: Shape::NormalizesTo(name),
                terms: terms_view(parameters@).push(value@),
            }),
    {
        let mut terms = parameters;
        terms.push(value);
        assert(terms_view(terms@) =~= terms_view(parameters@).push(value@));
        Goal { shape: Shape::NormalizesTo(name), terms }
    }

    /// The proposition that `a` and `b` are equal.
    pub fn eq(a: Term, b: Term) -> (r: Goal)
        ensures
            r@ == GoalView::eq(a@, b@),
    {
        let mut terms: Vec<Term> = Vec::new();
        terms.push(a);
        terms.push(b);
        assert(terms_view(terms@) =~= seq![a@, b@]);
        Goal { shape: Shape::Equals, terms }
    }

    /// One equation for each position that both lists have.
    pub fn all_eq(a_s: &Vec<Term>, b_s: &Vec<Term>) -> (r: Vec<Goal>)
        ensures
            goals_view(r@) == GoalView::all_eq(terms_view(a_s@), terms_view(b_s@)),
    {
        let n = if a_s.len() <= b_s.len() {
            a_s.len()
        } else {
            b_s.len()
        };
        let mut r: Vec<Goal> = Vec::new();
        let mut i: usize = 0;
        while i < n
            invariant
                0 <= i <= n,
                n <= a_s.len(),
                n <= b_s.len(),
                r.len() == i,
                forall|j: int| 0 <= j < i ==> r[j]@ == GoalView::eq(a_s[j]@, b_s[j]@),
            decreases n - i,
        {
            r.push(Goal::eq(clone_term(&a_s[i]), clone_term(&b_s[i])));
            i += 1;
        }
        assert(goals_view(r@) =~= GoalView::all_eq(terms_view(a_s@), terms_view(b_s@)));
        r
    }

    /// Structural equality.
    pub fn equals(&self, other: &Goal) -> (r: bool)
        ensures
            r == (self@ == other@),
    {
        self.shape == other.shape && terms_eq(&self.terms, &other.terms)
    }
}

/// A copy of the goals.
pub fn clone_goals(gs: &Vec<Goal>) -> (r: Vec<Goal>)
    ensures
        goals_view(r@) == goals_view(gs@),
{
    let mut r: Vec<Goal> = Vec::new();
    let mut i: usize = 0;
    while i < gs.len()
        invariant
            0 <= i <= gs.len(),
            r.len() == i,
            forall|j: int| 0 <= j < i ==> r[j]@ == gs[j]@,
        decreases gs.len() - i,
    {
        r.push(gs[i].clone());
        i += 1;
    }
    assert(goals_view(r@) =~= goals_view(gs@));
    r
}

/// Whether the two lists hold structurally equal goals.
pub fn goals_eq(a_s: &Vec<Goal>, b_s: &Vec<Goal>) -> (r: bool)
    ensures
        r == (goals_view(a_s@) == goals_view(b_s@)),
{
    if a_s.len() != b_s.len() {
        assert(goals_view(a_s@).len() != goals_view(b_s@).len());
        return false;
    }
    let mut i: usize = 0;
    while i < a_s.len()
        invariant
            0 <= i <= a_s.len(),
            a_s.len() == b_s.len(),
            forall|j: int| 0 <= j < i ==> a_s[j]@ == b_s[j]@,
        decreases a_s.len() - i,
    {
        if !a_s[i].equals(&b_s[i]) {
            assert(goals_view(a_s@)[i as int] != goals_view(b_s@)[i as int]);
            return false;
        }
        i += 1;
    }
    assert(goals_view(a_s@) =~= goals_view(b_s@));
    true
}

impl Clone for Clause {
    fn clone(&self) -> (r: Clause)
        ensures
            r@ == self@,
    {
        Clause {
            binders: self.binders,
            conditions: clone_goals(&self.conditions),
            conclusion: self.conclusion.clone(),
        }
    }
}

impl Clause {
    /// The clause that states `conclusion` outright.
    pub fn fact(conclusion: Goal) -> (r: Clause)
        ensures
            r@ == (ClauseView { binders: 0, conditions: Seq::empty(), conclusion: conclusion@ }),
            r@.is_fact(),
    {
        let r = Clause { binders: 0, conditions: Vec::new(), conclusion };
        assert(goals_view(r.conditions@) =~= Seq::empty());
        r
    }

    /// The clause with the given bound variables, conditions and conclusion.
    pub fn new(binders: usize, conditions: Vec<Goal>, conclusion: Goal) -> (r: Clause)
        ensures
            r@ == (ClauseView {
                binders: binders as nat,
                conditions: goals_view(conditions@),
                conclusion: conclusion@,
            }),
    {
        Clause { binders, conditions, conclusion }
    }

    /// Structural equality.
    pub fn equals(&self, other: &Clause) -> (r: bool)
        ensures
            r == (self@ == other@),
    {
        self.binders == other.binders && goals_eq(&self.conditions, &other.conditions)
            && self.conclusion.equals(&other.conclusion)
    }
}

/// A copy of the clauses.
pub fn clone_clauses(ks: &Vec<Clause>) -> (r: Vec<Clause>)
    ensures
        clauses_view(r@) == clauses_view(ks@),
{
    let mut r: Vec<Clause> = Vec::new();
    let mut i: usize = 0;
    while i < ks.len()
        invariant
            0 <= i <= ks.len(),
            r.len() == i,
            forall|j: int| 0 <= j < i ==> r[j]@ == ks[j]@,
        decreases ks.len() - i,
    {
        r.push(ks[i].clone());
        i += 1;
    }
    assert(clauses_view(r@) =~= clauses_view(ks@));
    r
}

} // verus!
