//! The database of declarations that the solver consults.
use crate::grammar::{
    clauses_view, clone_clauses, clone_term, clone_terms, terms_view, Clause, ClauseView, Goal,
    GoalView, Kind, Shape, Term, TermView, Variable,
};
use vstd::prelude::*;

verus! {

/// What the solver asks of the declarations. Each query is a function of its
/// arguments: the same question always has the same answer.
pub trait Database {
    /// The facts that follow from a relation between terms.
    spec fn hypotheses_of(&self, relation: GoalView) -> Seq<ClauseView>;

    /// The implications that may always be assumed when a goal of the given
    /// shape is to be proved.
    spec fn invariants_of(&self, shape: Shape) -> Seq<ClauseView>;

    /// The clauses by which a goal of the given shape may be proved.
    spec fn clauses_of(&self, shape: Shape) -> Seq<ClauseView>;

    fn elaborate_relation(&self, relation: &Goal) -> (r: Vec<Clause>)
        ensures
            clauses_view(r@) == self.hypotheses_of(relation@),
    ;

    fn invariants_for_predicate(&self, shape: Shape) -> (r: Vec<Clause>)
        ensures
            clauses_view(r@) == self.invariants_of(shape),
    ;

    fn program_clauses(&self, shape: Shape) -> (r: Vec<Clause>)
        ensures
            clauses_view(r@) == self.clauses_of(shape),
    ;
}

/// A database that holds its clauses and invariants as two lists and answers
/// every query with the whole list, whatever the shape asked for.
#[derive(Debug)]
pub struct MockDb {
    pub invariants: Vec<Clause>,
    pub clauses: Vec<Clause>,
}

impl MockDb {
    /// The database that holds the given clauses and invariants.
    pub fn new(clauses: Vec<Clause>, invariants: Vec<Clause>) -> (r: MockDb)
        ensures
            clauses_view(r.clauses@) == clauses_view(clauses@),
            clauses_view(r.invariants@) == clauses_view(invariants@),
            r.clauses == clauses,
            r.invariants == invariants,
    {
        MockDb { invariants, clauses }
    }
}

impl Database for MockDb {
    open spec fn hypotheses_of(&self, relation: GoalView) -> Seq<ClauseView> {
        Seq::empty()
    }

    open spec fn invariants_of(&self, shape: Shape) -> Seq<ClauseView> {
        clauses_view(self.invariants@)
    }

    open spec fn clauses_of(&self, shape: Shape) -> Seq<ClauseView> {
        clauses_view(self.clauses@)
    }

    fn elaborate_relation(&self, relation: &Goal) -> (r: Vec<Clause>) {
        let r: Vec<Clause> = Vec::new();
        assert(clauses_view(r@) =~= Seq::empty());
        r
    }

    fn invariants_for_predicate(&self, shape: Shape) -> (r: Vec<Clause>) {
        clone_clauses(&self.invariants)
    }

    fn program_clauses(&self, shape: Shape) -> (r: Vec<Clause>) {
        clone_clauses(&self.clauses)
    }
}

/// The interface of the example program.
pub const DEBUG: u64 = 1;

/// The one-parameter type constructor of the example program.
pub const VEC: u64 = 2;

/// The type without parameters of the example program.
pub const U32: u64 = 3;

/// A declared interface: its name, the number of its parameters, and the
/// implications that hold of whatever implements it.
#[derive(Debug)]
pub struct TraitDecl {
    pub name: u64,
    pub parameters: usize,
    pub invariants: Vec<Clause>,
}

/// A program: its declarations in the form of clauses, and the depth to which
/// goals about it are searched.
#[derive(Debug)]
pub struct Program {
    pub max_size: usize,
    pub trait_decls: Vec<TraitDecl>,
    /// Each concludes that an interface is implemented.
    pub impl_decls: Vec<Clause>,
    /// Each concludes what a projection of an associated type equals.
    pub alias_eq_decls: Vec<Clause>,
    /// Each concludes that a projection of an associated type implements an
    /// interface.
    pub alias_bound_decls: Vec<Clause>,
}

/// Those of the first `n` clauses that conclude a proposition of the given
/// shape.
pub open spec fn matching_upto(ks: Seq<ClauseView>, shape: Shape, n: int) -> Seq<ClauseView>
    decreases n,
{
    if n <= 0 || n > ks.len() {
        Seq::empty()
    } else if ks[n - 1].conclusion.shape == shape {
        matching_upto(ks, shape, n - 1).push(ks[n - 1])
    } else {
        matching_upto(ks, shape, n - 1)
    }
}

/// The clauses that conclude a proposition of the given shape.
pub open spec fn matching(ks: Seq<ClauseView>, shape: Shape) -> Seq<ClauseView> {
    matching_upto(ks, shape, ks.len() as int)
}

/// The invariants of the first `n` declared interfaces that conclude a
/// proposition of the given shape.
pub open spec fn trait_invariants_upto(ds: Seq<TraitDecl>, shape: Shape, n: int) -> Seq<ClauseView>
    decreases n,
{
    if n <= 0 || n > ds.len() {
        Seq::empty()
    } else {
        trait_invariants_upto(ds, shape, n - 1) + matching(
            clauses_view(ds[n - 1].invariants@),
            shape,
        )
    }
}

/// What follows from an equation: if one side is a projection of an
/// associated type, the other side is a value of that projection.
pub open spec fn elaborated(relation: GoalView) -> Seq<ClauseView> {
    if relation.shape == Shape::Equals && relation.terms.len() == 2 {
        let left = match relation.terms[0] {
            TermView::Alias { name, parameters } => seq![
                ClauseView {
                    binders: 0,
                    conditions: Seq::empty(),
                    conclusion: GoalView {
                        shape: Shape::NormalizesTo(name),
                        terms: parameters.push(relation.terms[1]),
                    },
                },
            ],
            _ => Seq::empty(),
        };
        let right = match relation.terms[1] {
            TermView::Alias { name, parameters } => seq![
                ClauseView {
                    binders: 0,
                    conditions: Seq::empty(),
                    conclusion: GoalView {
                        shape: Shape::NormalizesTo(name),
                        terms: parameters.push(relation.terms[0]),
                    },
                },
            ],
            _ => Seq::empty(),
        };
        left + right
    } else {
        Seq::empty()
    }
}

/// Where every one of the first `n` clauses concludes a proposition of the
/// shape, all of them match; where none does, none matches.
pub proof fn lemma_matching(ks: Seq<ClauseView>, shape: Shape, n: int)
    requires
        0 <= n <= ks.len(),
    ensures
        (forall|i: int| 0 <= i < n ==> (#[trigger] ks[i]).conclusion.shape == shape)
            ==> matching_upto(ks, shape, n) == ks.take(n),
        (forall|i: int| 0 <= i < n ==> (#[trigger] ks[i]).conclusion.shape != shape)
            ==> matching_upto(ks, shape, n) == Seq::<ClauseView>::empty(),
    decreases n,
{
    if n > 0 {
        lemma_matching(ks, shape, n - 1);
        if forall|i: int| 0 <= i < n ==> (#[trigger] ks[i]).conclusion.shape == shape {
            assert(ks[n - 1].conclusion.shape == shape);
            assert(ks.take(n - 1).push(ks[n - 1]) =~= ks.take(n));
        }
        if forall|i: int| 0 <= i < n ==> (#[trigger] ks[i]).conclusion.shape != shape {
            assert(ks[n - 1].conclusion.shape != shape);
        }
    } else {
        assert(ks.take(0) =~= Seq::<ClauseView>::empty());
    }
}

/// What a program that holds the example's declarations answers: for the
/// example's interface its two clauses, for any other shape none, and no
/// invariant for any shape.
pub proof fn lemma_example_answers(p: &Program, shape: Shape)
    requires
        p.trait_decls@.len() == 1,
        clauses_view(p.trait_decls@[0].invariants@) == Seq::<ClauseView>::empty(),
        clauses_view(p.impl_decls@) == example_impls(),
        clauses_view(p.alias_eq_decls@) == Seq::<ClauseView>::empty(),
        clauses_view(p.alias_bound_decls@) == Seq::<ClauseView>::empty(),
    ensures
        p.invariants_of(shape) == Seq::<ClauseView>::empty(),
        shape == Shape::Implemented(DEBUG) ==> p.clauses_of(shape) == example_impls(),
        shape != Shape::Implemented(DEBUG) ==> p.clauses_of(shape) == Seq::<ClauseView>::empty(),
{
    let none = Seq::<ClauseView>::empty();
    lemma_matching(none, shape, 0);
    assert(trait_invariants_upto(p.trait_decls@, shape, 0) == none);
    assert(trait_invariants_upto(p.trait_decls@, shape, 1) =~= none);
    let ks = example_impls();
    lemma_matching(ks, shape, 2);
    assert(ks.take(2) =~= ks);
    assert(ks[0].conclusion.shape == Shape::Implemented(DEBUG));
    assert(ks[1].conclusion.shape == Shape::Implemented(DEBUG));
    assert(p.clauses_of(shape) =~= matching(ks, shape));
}

/// The clauses of `ks` that conclude a proposition of the given shape, added
/// to `out`.
fn push_matching(out: &mut Vec<Clause>, ks: &Vec<Clause>, shape: Shape)
    ensures
        clauses_view(final(out)@) == clauses_view(old(out)@) + matching(clauses_view(ks@), shape),
{
    let mut n: usize = 0;
    assert(clauses_view(out@) =~= clauses_view(old(out)@) + matching_upto(
        clauses_view(ks@),
        shape,
        0,
    ));
    while n < ks.len()
        invariant
            0 <= n <= ks.len(),
            clauses_view(out@) == clauses_view(old(out)@) + matching_upto(
                clauses_view(ks@),
                shape,
                n as int,
            ),
        decreases ks.len() - n,
    {
        if ks[n].conclusion.shape == shape {
            let ghost before = clauses_view(out@);
            out.push(ks[n].clone());
            assert(clauses_view(out@) =~= before.push(ks[n as int]@));
            assert(clauses_view(out@) =~= clauses_view(old(out)@) + matching_upto(
                clauses_view(ks@),
                shape,
                n + 1,
            ));
        }
        n += 1;
    }
}

/// The fact that the projection `name` of `parameters` has the value `value`.
fn projection_fact(name: u64, parameters: &Vec<Term>, value: &Term) -> (r: Clause)
    ensures
        r@ == (ClauseView {
            binders: 0,
            conditions: Seq::empty(),
            conclusion: GoalView {
                shape: Shape::NormalizesTo(name),
                terms: terms_view(parameters@).push(value@),
            },
        }),
{
    Clause::fact(Goal::normalizes_to(name, clone_terms(parameters), clone_term(value)))
}

impl Database for Program {
    open spec fn hypotheses_of(&self, relation: GoalView) -> Seq<ClauseView> {
        elaborated(relation)
    }

    open spec fn invariants_of(&self, shape: Shape) -> Seq<ClauseView> {
        trait_invariants_upto(self.trait_decls@, shape, self.trait_decls@.len() as int)
    }

    open spec fn clauses_of(&self, shape: Shape) -> Seq<ClauseView> {
        matching(clauses_view(self.impl_decls@), shape) + matching(
            clauses_view(self.alias_eq_decls@),
            shape,
        ) + matching(clauses_view(self.alias_bound_decls@), shape)
    }

    fn elaborate_relation(&self, relation: &Goal) -> (r: Vec<Clause>) {
        let mut out: Vec<Clause> = Vec::new();
        assert(clauses_view(out@) =~= Seq::empty());
        if relation.shape == Shape::Equals && relation.terms.len() == 2 {
            assert(relation@.terms[0] == relation.terms[0]@);
            assert(relation@.terms[1] == relation.terms[1]@);
            match &relation.terms[0] {
                Term::Alias { name, parameters } => {
                    out.push(projection_fact(*name, parameters, &relation.terms[1]));
                },
                _ => {},
            }
            let ghost left = clauses_view(out@);
            match &relation.terms[1] {
                Term::Alias { name, parameters } => {
                    out.push(projection_fact(*name, parameters, &relation.terms[0]));
                },
                _ => {},
            }
            assert(clauses_view(out@) =~= elaborated(relation@));
        }
        out
    }

    fn invariants_for_predicate(&self, shape: Shape) -> (r: Vec<Clause>) {
        let mut out: Vec<Clause> = Vec::new();
        let mut n: usize = 0;
        assert(clauses_view(out@) =~= Seq::empty());
        while n < self.trait_decls.len()
            invariant
                0 <= n <= self.trait_decls.len(),
                clauses_view(out@) == trait_invariants_upto(self.trait_decls@, shape, n as int),
            decreases self.trait_decls.len() - n,
        {
            push_matching(&mut out, &self.trait_decls[n].invariants, shape);
            n += 1;
        }
        out
    }

    fn program_clauses(&self, shape: Shape) -> (r: Vec<Clause>) {
        let mut out: Vec<Clause> = Vec::new();
        assert(clauses_view(out@) =~= Seq::empty());
        push_matching(&mut out, &self.impl_decls, shape);
        push_matching(&mut out, &self.alias_eq_decls, shape);
        push_matching(&mut out, &self.alias_bound_decls, shape);
        assert(clauses_view(out@) =~= self.clauses_of(shape));
        out
    }
}

/// The clauses of the example program: whatever implements `DEBUG` makes a
/// `VEC` that implements it, and `U32` implements it.
pub open spec fn example_impls() -> Seq<ClauseView> {
    let element = TermView::Var(Variable { kind: Kind::Bound, index: 0 });
    seq![
        ClauseView {
            binders: 1,
            conditions: seq![GoalView { shape: Shape::Implemented(DEBUG), terms: seq![element] }],
            conclusion: GoalView {
                shape: Shape::Implemented(DEBUG),
                terms: seq![TermView::Rigid { name: VEC, parameters: seq![element] }],
            },
        },
        ClauseView {
            binders: 0,
            conditions: Seq::empty(),
            conclusion: GoalView {
                shape: Shape::Implemented(DEBUG),
                terms: seq![TermView::Rigid { name: U32, parameters: Seq::empty() }],
            },
        },
    ]
}

/// A small example program: one interface, `DEBUG`, with two
/// implementations.
pub fn program() -> (r: Program)
    ensures
        r.max_size == 22,
        r.trait_decls@.len() == 1,
        r.trait_decls@[0].name == DEBUG,
        r.trait_decls@[0].parameters == 1,
        clauses_view(r.trait_decls@[0].invariants@) == Seq::<ClauseView>::empty(),
        clauses_view(r.impl_decls@) == example_impls(),
        clauses_view(r.alias_eq_decls@) == Seq::<ClauseView>::empty(),
        clauses_view(r.alias_bound_decls@) == Seq::<ClauseView>::empty(),
        r.clauses_of(Shape::Implemented(DEBUG)) == example_impls(),
        forall|shape: Shape| #[trigger] r.invariants_of(shape) == Seq::<ClauseView>::empty(),
        forall|shape: Shape|
            shape != Shape::Implemented(DEBUG) ==> #[trigger] r.clauses_of(shape) == Seq::<
                ClauseView,
            >::empty(),
{
    let mut trait_decls: Vec<TraitDecl> = Vec::new();
    trait_decls.push(TraitDecl { name: DEBUG, parameters: 1, invariants: Vec::new() });
    let mut inner: Vec<Term> = Vec::new();
    inner.push(Term::var(Variable::bound(0)));
    let mut conditions: Vec<Goal> = Vec::new();
    conditions.push(Goal::implemented(DEBUG, inner));
    let mut element: Vec<Term> = Vec::new();
    element.push(Term::var(Variable::bound(0)));
    let mut implementer: Vec<Term> = Vec::new();
    implementer.push(Term::rigid(VEC, element));
    let for_vec = Clause::new(1, conditions, Goal::implemented(DEBUG, implementer));
    let mut scalar: Vec<Term> = Vec::new();
    scalar.push(Term::rigid(U32, Vec::new()));
    let for_u32 = Clause::fact(Goal::implemented(DEBUG, scalar));
    let mut impl_decls: Vec<Clause> = Vec::new();
    impl_decls.push(for_vec);
    impl_decls.push(for_u32);
    let r = Program {
        max_size: 22,
        trait_decls,
        impl_decls,
        alias_eq_decls: Vec::new(),
        alias_bound_decls: Vec::new(),
    };
    proof {
        assert(clauses_view(r.trait_decls@[0].invariants@) =~= Seq::empty());
        assert(clauses_view(r.alias_eq_decls@) =~= Seq::empty());
        assert(clauses_view(r.alias_bound_decls@) =~= Seq::empty());
        let ks = clauses_view(r.impl_decls@);
        let want = example_impls();
        assert(ks[0].conditions =~= want[0].conditions) by {
            assert(ks[0].conditions[0].terms =~= want[0].conditions[0].terms);
        }
        assert(ks[0].conclusion.terms =~= want[0].conclusion.terms) by {
            assert(ks[0].conclusion.terms[0]->Rigid_parameters =~= seq![
                TermView::Var(Variable { kind: Kind::Bound, index: 0 }),
            ]);
        }
        assert(ks[1].conclusion.terms =~= want[1].conclusion.terms) by {
            assert(ks[1].conclusion.terms[0]->Rigid_parameters =~= Seq::empty());
        }
        assert(ks =~= want);
        assert forall|shape: Shape| #[trigger]
            r.invariants_of(shape) == Seq::<ClauseView>::empty() by {
            lemma_example_answers(&r, shape);
        }
        assert forall|shape: Shape| shape != Shape::Implemented(DEBUG) implies #[trigger]
            r.clauses_of(shape) == Seq::<ClauseView>::empty() by {
            lemma_example_answers(&r, shape);
        }
        lemma_example_answers(&r, Shape::Implemented(DEBUG));
    }
    r
}

} // verus!
