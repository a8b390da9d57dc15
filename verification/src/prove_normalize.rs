//! Normalization: reducing a projection of an associated type to a value.
use crate::constraints::{solutions_view, Constraints};
use crate::db::Database;
use crate::env::{encloses, encloses_terms, extends, lemma_encloses_extends, well_formed, Env};
use crate::grammar::{
    clauses_view, clone_goals, clone_term, goals_view, term_eq, terms_view, Clause, Goal, Kind,
    Shape, Term, Variable,
};
use crate::model;
use crate::model::NormalizedView;
use crate::prove::{candidates, context, instantiate};
use crate::prove_eq::{lemma_all_eq_enclosed, lemma_parameters_enclosed, prove_after};
use crate::solutions::{
    certain, insert_unique, leave_scope_one, left_below, lemma_insert_unique, sound, union,
    union_upto,
};
use vstd::prelude::*;

verus! {

/// A projection reduced to a value, and the solution under which it is one.
#[derive(Debug)]
pub struct Normalized {
    pub constraints: Constraints,
    pub value: Term,
}

impl View for Normalized {
    type V = NormalizedView;

    open spec fn view(&self) -> NormalizedView {
        NormalizedView { constraints: self.constraints@, value: self.value@ }
    }
}

/// The mathematical values of a list of normalized projections.
pub open spec fn normalized_view(ns: Seq<Normalized>) -> Seq<NormalizedView> {
    Seq::new(ns.len(), |i: int| ns[i]@)
}

/// Every solution is well formed and stated in an environment that extends
/// `env`, every value is in the scope of its solution, and no two entries
/// are equal.
pub open spec fn sound_values(ns: Seq<Normalized>, env: Seq<Variable>) -> bool {
    &&& forall|i: int|
        0 <= i < ns.len() ==> (#[trigger] ns[i]).constraints.well_formed() && extends(
            ns[i]@.constraints.env,
            env,
        ) && encloses(ns[i]@.constraints.env, ns[i]@.value) && ns[i].constraints.known_true
    &&& normalized_view(ns).no_duplicates()
}

impl Clone for Normalized {
    fn clone(&self) -> (r: Normalized)
        ensures
            r@ == self@,
            self.constraints.well_formed() ==> r.constraints.well_formed(),
            r.constraints.known_true == self.constraints.known_true,
    {
        Normalized { constraints: self.constraints.clone(), value: clone_term(&self.value) }
    }
}

impl Normalized {
    /// Structural equality.
    pub fn equals(&self, other: &Normalized) -> (r: bool)
        ensures
            r == (self@ == other@),
    {
        self.constraints.equals(&other.constraints) && term_eq(&self.value, &other.value)
    }
}

fn holds_value(ns: &Vec<Normalized>, n: &Normalized) -> (r: bool)
    ensures
        r == normalized_view(ns@).contains(n@),
{
    let mut i: usize = 0;
    while i < ns.len()
        invariant
            0 <= i <= ns.len(),
            forall|j: int| 0 <= j < i ==> normalized_view(ns@)[j] != n@,
        decreases ns.len() - i,
    {
        if ns[i].equals(n) {
            assert(normalized_view(ns@)[i as int] == n@);
            return true;
        }
        i += 1;
    }
    false
}

fn push_unique_value(ns: &mut Vec<Normalized>, n: Normalized, Ghost(env): Ghost<Seq<Variable>>)
    requires
        sound_values(old(ns)@, env),
        n.constraints.well_formed(),
        n.constraints.known_true,
        extends(n@.constraints.env, env),
        encloses(n@.constraints.env, n@.value),
    ensures
        normalized_view(final(ns)@) == insert_unique(normalized_view(old(ns)@), n@),
        sound_values(final(ns)@, env),
{
    proof {
        lemma_insert_unique(normalized_view(ns@), n@);
    }
    if !holds_value(ns, &n) {
        ns.push(n);
        assert(normalized_view(ns@) =~= normalized_view(old(ns)@).push(n@));
    }
}

fn append_unique_values(
    ns: &mut Vec<Normalized>,
    more: &Vec<Normalized>,
    Ghost(env): Ghost<Seq<Variable>>,
)
    requires
        sound_values(old(ns)@, env),
        sound_values(more@, env),
    ensures
        normalized_view(final(ns)@) == union(normalized_view(old(ns)@), normalized_view(more@)),
        sound_values(final(ns)@, env),
{
    let mut i: usize = 0;
    while i < more.len()
        invariant
            0 <= i <= more.len(),
            sound_values(ns@, env),
            sound_values(more@, env),
            normalized_view(ns@) == union_upto(
                normalized_view(old(ns)@),
                normalized_view(more@),
                i as int,
            ),
        decreases more.len() - i,
    {
        push_unique_value(ns, more[i].clone(), Ghost(env));
        i += 1;
    }
}

fn no_values(Ghost(env): Ghost<Seq<Variable>>) -> (r: Vec<Normalized>)
    ensures
        normalized_view(r@) == Seq::<NormalizedView>::empty(),
        sound_values(r@, env),
{
    let r: Vec<Normalized> = Vec::new();
    assert(normalized_view(r@) =~= Seq::empty());
    r
}

/// The values that the clause `k` gives the projection `name` of
/// `parameters`: the clause must conclude what such a projection equals; its
/// variables are brought in as fresh existential variables, the projection's
/// parameters are made equal to those of the conclusion, and the clause's
/// conditions are proved in order.
pub fn normalize_via<D: Database>(
    db: &D,
    env: &Env,
    assumptions: &Vec<Clause>,
    k: &Clause,
    name: u64,
    parameters: &Vec<Term>,
    depth: usize,
) -> (r: Vec<Normalized>)
    requires
        well_formed(env@),
        encloses_terms(env@, terms_view(parameters@)),
    ensures
        normalized_view(r@) == model::normalize_via(
            db,
            env@,
            clauses_view(assumptions@),
            k@,
            name,
            terms_view(parameters@),
            depth as nat,
        ),
        sound_values(r@, env@),
    decreases depth, 1int, 0int,
{
    reveal(model::normalize_via);
    reveal(model::prove_after);
    let arity = parameters.len();
    if k.conclusion.shape != Shape::NormalizesTo(name) || k.conclusion.terms.len() == 0
        || k.conclusion.terms.len() - 1 != arity {
        return no_values(Ghost(env@));
    }
    match instantiate(env, k) {
        None => no_values(Ghost(env@)),
        Some(instance) => {
            let ghost conclusion = instance.conclusion@;
            assert(instance.conclusion.terms.len() == terms_view(instance.conclusion.terms@).len());
            assert(k.conclusion.terms.len() == terms_view(k.conclusion.terms@).len());
            assert(arity == terms_view(parameters@).len());
            let mut heads: Vec<Term> = Vec::new();
            let mut i: usize = 0;
            while i < arity
                invariant
                    0 <= i <= arity,
                    arity + 1 == instance.conclusion.terms.len(),
                    heads.len() == i,
                    forall|j: int| 0 <= j < i ==> heads[j]@ == instance.conclusion.terms[j]@,
                decreases arity - i,
            {
                heads.push(clone_term(&instance.conclusion.terms[i]));
                i += 1;
            }
            assert(terms_view(heads@) =~= conclusion.terms.take(arity as int));
            let mut goals = Goal::all_eq(parameters, &heads);
            let ghost equations = goals_view(goals@);
            let mut conditions = clone_goals(&instance.conditions);
            let ghost conds = goals_view(conditions@);
            goals.append(&mut conditions);
            proof {
                assert(goals_view(goals@) =~= equations + conds);
                assert(encloses_terms(instance.env@, terms_view(heads@))) by {
                    assert forall|j: int| 0 <= j < terms_view(heads@).len() implies encloses(
                        instance.env@,
                        #[trigger] terms_view(heads@)[j],
                    ) by {
                        assert(terms_view(heads@)[j] == conclusion.terms[j]);
                    }
                }
                assert(encloses_terms(instance.env@, terms_view(parameters@))) by {
                    assert forall|j: int|
                        0 <= j < terms_view(parameters@).len() implies encloses(
                        instance.env@,
                        #[trigger] terms_view(parameters@)[j],
                    ) by {
                        lemma_encloses_extends(instance.env@, env@, terms_view(parameters@)[j]);
                    }
                }
                lemma_all_eq_enclosed(
                    instance.env@,
                    terms_view(parameters@),
                    terms_view(heads@),
                );
                assert forall|j: int| 0 <= j < (equations + conds).len() implies encloses_terms(
                    instance.env@,
                    (#[trigger] (equations + conds)[j]).terms,
                ) by {
                    if j < equations.len() {
                        assert((equations + conds)[j] == equations[j]);
                    } else {
                        assert((equations + conds)[j] == conds[j - equations.len()]);
                    }
                }
            }
            let start = Constraints::none(instance.env.clone());
            let rs = prove_after(db, &start, assumptions, &goals, depth);
            let mut out = no_values(Ghost(env@));
            let mut n: usize = 0;
            while n < rs.len()
                invariant
                    0 <= n <= rs.len(),
                    arity + 1 == instance.conclusion.terms.len(),
                    sound(rs@, instance.env@),
                    certain(rs@),
                    extends(instance.env@, env@),
                    left_below(
                        instance.env@,
                        env@,
                        Kind::Existential,
                        k.binders as nat,
                        instance.first,
                    ),
                    sound_values(out@, env@),
                    normalized_view(out@) == model::normalized_upto(
                        solutions_view(rs@),
                        instance.conclusion@.terms[arity as int],
                        env@,
                        k.binders as nat,
                        n as int,
                    ),
                decreases rs.len() - n,
            {
                let c = leave_scope_one(
                    &rs[n],
                    k.binders,
                    instance.first,
                    Ghost(instance.env@),
                    Ghost(env@),
                    Ghost(Kind::Existential),
                );
                let value = rs[n].substitution.apply(&instance.conclusion.terms[arity]);
                assert(terms_view(instance.conclusion.terms@)[arity as int]
                    == instance.conclusion.terms[arity as int]@);
                if c.env.encloses(&value) {
                    push_unique_value(&mut out, Normalized { constraints: c, value }, Ghost(env@));
                }
                n += 1;
            }
            out
        },
    }
}

/// The values that a projection can be proved to equal, each with the
/// solution under which it does: one entry for each value that some
/// assumption, or some clause of the database for the projection's
/// associated type, gives it. A term that is no projection has none.
pub fn prove_normalize<D: Database>(
    db: &D,
    env: &Env,
    assumptions: &Vec<Clause>,
    t: &Term,
    depth: usize,
) -> (r: Vec<Normalized>)
    requires
        well_formed(env@),
        encloses(env@, t@),
    ensures
        normalized_view(r@) == model::prove_normalize(
            db,
            env@,
            clauses_view(assumptions@),
            t@,
            depth as nat,
        ),
        sound_values(r@, env@),
        !(t@ is Alias) ==> r@.len() == 0,
    decreases depth, 3int, 0int,
{
    reveal(model::prove_normalize);
    reveal(model::normalize_via_upto);
    reveal(model::normalize_via);
    match t {
        Term::Alias { name, parameters } => {
            let shape = Shape::NormalizesTo(*name);
            let known = context(db, assumptions, shape);
            let ks = candidates(db, &known, shape);
            proof {
                lemma_parameters_enclosed(env@, t@);
            }
            let mut out = no_values(Ghost(env@));
            let mut n: usize = 0;
            while n < ks.len()
                invariant
                    0 <= n <= ks.len(),
                    well_formed(env@),
                    encloses_terms(env@, terms_view(parameters@)),
                    sound_values(out@, env@),
                    normalized_view(out@) == model::normalize_via_upto(
                        db,
                        env@,
                        clauses_view(known@),
                        clauses_view(ks@),
                        *name,
                        terms_view(parameters@),
                        depth as nat,
                        n as int,
                    ),
                decreases ks.len() - n,
            {
                reveal(model::normalize_via_upto);
                reveal(model::normalize_via);
                let found = normalize_via(db, env, &known, &ks[n], *name, parameters, depth);
                append_unique_values(&mut out, &found, Ghost(env@));
                n += 1;
            }
            out
        },
        _ => no_values(Ghost(env@)),
    }
}

} // verus!
