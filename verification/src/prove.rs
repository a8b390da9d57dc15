//! The search: proving goals by assumptions and clauses.
use crate::constraints::{lemma_apply_terms_enclosed, solutions_view, Constraints};
use crate::db::{Database, Program};
use crate::env::{
    encloses, encloses_goals, encloses_terms, extends, fresh_variable, has_room,
    lemma_encloses_extends, lemma_extends_reflexive, lemma_extends_transitive, lemma_max_index,
    lemma_rank, lemma_rank_of_member, max_index, rank, well_formed, with_fresh, Env,
};
use crate::grammar::{
    clauses_view, clone_clauses, clone_goals, goals_view, term_eq, Clause, ClauseView, Goal, Kind,
    Shape, Term, Variable,
};
use crate::model;
use crate::prove_eq::{lemma_all_eq_enclosed, no_solutions, one_solution, prove_after, prove_eq};
use crate::solutions::{
    append_unique, certain, leave_scope, left_below, lemma_sound_extends, sequence, sound,
    union_upto,
};
use crate::substitution::{apply_goal, apply_goals, Substitution};
use vstd::prelude::*;

verus! {

/// The depth to which [`prove`] searches.
pub const MAX_DEPTH: usize = 22;

/// A clause made ready for use: its bound variables replaced by fresh
/// existential variables, which `env` holds above all others.
#[derive(Debug)]
pub struct Instance {
    pub env: Env,
    pub first: Variable,
    pub conclusion: Goal,
    pub conditions: Vec<Goal>,
}

/// An environment into which the variables of a binder were brought, and
/// what stands for each bound placeholder since.
#[derive(Debug)]
pub struct Scope {
    pub env: Env,
    pub first: Variable,
    pub renaming: Substitution,
}

/// Brings `binders` fresh variables of the given kind into scope, above all
/// others, to stand for the placeholders numbered from `opened` on.
pub fn open_scope(
    env: &Env,
    kind: Kind,
    binders: usize,
    renaming: &Substitution,
    opened: u64,
) -> (r: Scope)
    requires
        well_formed(env@),
        kind != Kind::Bound,
        has_room(env@, binders as int),
        opened + binders <= u64::MAX,
        renaming.well_formed(),
        forall|v: Variable| #[trigger]
            renaming@.contains_key(v) ==> v.kind == Kind::Bound && v.index < opened,
    ensures
        r.env@ == with_fresh(env@, kind, binders as nat),
        r.renaming@ == model::opening(renaming@, env@, kind, opened as nat, binders as nat),
        r.renaming.well_formed(),
        forall|v: Variable| #[trigger]
            r.renaming@.contains_key(v) ==> v.kind == Kind::Bound && v.index < opened + binders,
        well_formed(r.env@),
        extends(r.env@, env@),
        left_below(r.env@, env@, kind, binders as nat, r.first),
{
    let mut inner = env.clone();
    let mut extended = renaming.clone();
    let mut first = Variable { kind, index: 0 };
    let mut i: usize = 0;
    proof {
        lemma_extends_reflexive(env@);
        assert(inner@.take(env@.len() as int) =~= env@);
    }
    while i < binders
        invariant
            0 <= i <= binders,
            well_formed(env@),
            kind != Kind::Bound,
            has_room(env@, binders as int),
            opened + binders <= u64::MAX,
            inner@ == with_fresh(env@, kind, i as nat),
            extended@ == model::opening(renaming@, env@, kind, opened as nat, i as nat),
            extended.well_formed(),
            forall|v: Variable| #[trigger]
                extended@.contains_key(v) ==> v.kind == Kind::Bound && v.index < opened + i,
            well_formed(inner@),
            extends(inner@, env@),
            max_index(inner@) == max_index(env@) + i,
            inner@.len() == env@.len() + i,
            inner@.take(env@.len() as int) == env@,
            i > 0 ==> first == fresh_variable(env@, kind) && inner@[env@.len() as int] == first,
        decreases binders - i,
    {
        let ghost before = inner@;
        let v = inner.push_fresh(kind);
        if i == 0 {
            first = v;
        }
        proof {
            lemma_extends_transitive(inner@, before, env@);
            assert(inner@.take(env@.len() as int) =~= before.take(env@.len() as int));
        }
        extended.bind(Variable { kind: Kind::Bound, index: opened + i as u64 }, Term::Var(v));
        i += 1;
    }
    proof {
        if binders > 0 {
            lemma_rank(inner@, env@.len() as int);
            assert forall|v: Variable| #[trigger] env@.contains(v) implies rank(inner@, v) < rank(
                inner@,
                first,
            ) by {
                lemma_rank_of_member(env@, v);
                let j = rank(env@, v);
                assert(inner@.take(env@.len() as int)[j] == v);
                assert(inner@[j] == v);
                lemma_rank(inner@, j);
            }
        }
    }
    Scope { env: inner, first, renaming: extended }
}

/// Brings the bound variables of `k` into scope as fresh existential
/// variables. There is no instance if the variables cannot be numbered, or if
/// the clause mentions a variable that is not in scope then.
pub fn instantiate(env: &Env, k: &Clause) -> (r: Option<Instance>)
    requires
        well_formed(env@),
    ensures
        r is Some <==> has_room(env@, k.binders as int) && encloses_terms(
            with_fresh(env@, Kind::Existential, k.binders as nat),
            apply_goal(model::instantiation(env@, k.binders as nat), k@.conclusion).terms,
        ) && encloses_goals(
            with_fresh(env@, Kind::Existential, k.binders as nat),
            apply_goals(model::instantiation(env@, k.binders as nat), k@.conditions),
        ),
        r matches Some(i) ==> {
            &&& i.env@ == with_fresh(env@, Kind::Existential, k.binders as nat)
            &&& i.conclusion@ == apply_goal(
                model::instantiation(env@, k.binders as nat),
                k@.conclusion,
            )
            &&& goals_view(i.conditions@) == apply_goals(
                model::instantiation(env@, k.binders as nat),
                k@.conditions,
            )
            &&& well_formed(i.env@)
            &&& extends(i.env@, env@)
            &&& left_below(i.env@, env@, Kind::Existential, k.binders as nat, i.first)
        },
{
    if !env.has_room(k.binders) {
        return None;
    }
    proof {
        lemma_max_index(env@);
    }
    let scope = open_scope(env, Kind::Existential, k.binders, &Substitution::new(), 0);
    let conclusion = scope.renaming.apply_goal(&k.conclusion);
    let conditions = scope.renaming.apply_goals(&k.conditions);
    if !scope.env.encloses_terms(&conclusion.terms) || !scope.env.encloses_goals(&conditions) {
        return None;
    }
    Some(Instance { env: scope.env, first: scope.first, conclusion, conditions })
}

/// Whether `ks` holds a clause equal to `k`.
fn holds_clause(ks: &Vec<Clause>, k: &Clause) -> (r: bool)
    ensures
        r == clauses_view(ks@).contains(k@),
{
    let mut i: usize = 0;
    while i < ks.len()
        invariant
            0 <= i <= ks.len(),
            forall|j: int| 0 <= j < i ==> clauses_view(ks@)[j] != k@,
        decreases ks.len() - i,
    {
        if ks[i].equals(k) {
            assert(clauses_view(ks@)[i as int] == k@);
            return true;
        }
        i += 1;
    }
    false
}

/// The assumptions under which a goal of the given shape is proved: those
/// given, followed by the invariants that the database has for the shape and
/// that are not among them. An equation has no invariants.
pub fn context<D: Database>(db: &D, assumptions: &Vec<Clause>, shape: Shape) -> (r: Vec<Clause>)
    ensures
        clauses_view(r@) == model::context(db, clauses_view(assumptions@), shape),
{
    let mut out = clone_clauses(assumptions);
    if shape != Shape::Equals {
        let invariants = db.invariants_for_predicate(shape);
        let mut n: usize = 0;
        while n < invariants.len()
            invariant
                0 <= n <= invariants.len(),
                clauses_view(out@) == union_upto(
                    clauses_view(assumptions@),
                    clauses_view(invariants@),
                    n as int,
                ),
            decreases invariants.len() - n,
        {
            if !holds_clause(&out, &invariants[n]) {
                let ghost before = clauses_view(out@);
                out.push(invariants[n].clone());
                assert(clauses_view(out@) =~= before.push(invariants[n as int]@));
            }
            n += 1;
        }
    }
    out
}

/// The clauses by which a goal of the given shape may be proved: the
/// assumptions, what the database derives from the relations stated among
/// them, and, unless the goal is an equation, the clauses that the database
/// has for the shape.
pub fn candidates<D: Database>(db: &D, known: &Vec<Clause>, shape: Shape) -> (r: Vec<Clause>)
    ensures
        clauses_view(r@) == model::candidates(db, clauses_view(known@), shape),
{
    let mut out = clone_clauses(known);
    let mut n: usize = 0;
    while n < known.len()
        invariant
            0 <= n <= known.len(),
            clauses_view(out@) == model::elaborated_upto(db, clauses_view(known@), n as int),
        decreases known.len() - n,
    {
        let k = &known[n];
        if k.binders == 0 && k.conditions.len() == 0 && k.conclusion.shape == Shape::Equals {
            let ghost before = out@;
            let mut derived = db.elaborate_relation(&k.conclusion);
            let ghost more = derived@;
            out.append(&mut derived);
            assert(clauses_view(out@) =~= clauses_view(before) + clauses_view(more));
        }
        n += 1;
    }
    if shape != Shape::Equals {
        let ghost before = out@;
        let mut clauses = db.program_clauses(shape);
        let ghost more = clauses@;
        out.append(&mut clauses);
        assert(clauses_view(out@) =~= clauses_view(before) + clauses_view(more));
    }
    out
}

/// The solutions of `goal` by the clause `k`.
///
/// The clause must conclude a proposition of the goal's shape with as many
/// terms. Its bound variables are brought in as fresh existential variables;
/// its conclusion is made equal to the goal, term by term; its conditions are
/// proved in order, from the left. Each solution is then taken out of the
/// scope of the clause's variables.
pub fn prove_via<D: Database>(
    db: &D,
    env: &Env,
    assumptions: &Vec<Clause>,
    k: &Clause,
    goal: &Goal,
    depth: usize,
) -> (r: Vec<Constraints>)
    requires
        well_formed(env@),
        encloses_terms(env@, goal@.terms),
    ensures
        solutions_view(r@) == model::prove_via(
            db,
            env@,
            clauses_view(assumptions@),
            k@,
            goal@,
            depth as nat,
        ),
        sound(r@, env@),
        certain(r@),
    decreases depth, 1int, 0int,
{
    reveal(model::prove_via);
    reveal(model::prove_after);
    if k.conclusion.shape != goal.shape || k.conclusion.terms.len() != goal.terms.len() {
        return no_solutions(Ghost(env@));
    }
    match instantiate(env, k) {
        None => no_solutions(Ghost(env@)),
        Some(instance) => {
            let mut goals = Goal::all_eq(&instance.conclusion.terms, &goal.terms);
            let ghost equations = goals_view(goals@);
            let mut conditions = clone_goals(&instance.conditions);
            let ghost conds = goals_view(conditions@);
            goals.append(&mut conditions);
            proof {
                assert(goals_view(goals@) =~= equations + conds);
                assert(encloses_terms(instance.env@, goal@.terms)) by {
                    assert forall|j: int| 0 <= j < goal@.terms.len() implies encloses(
                        instance.env@,
                        #[trigger] goal@.terms[j],
                    ) by {
                        lemma_encloses_extends(instance.env@, env@, goal@.terms[j]);
                    }
                }
                lemma_all_eq_enclosed(instance.env@, instance.conclusion@.terms, goal@.terms);
                assert forall|j: int| 0 <= j < (equations + conds).len() implies encloses_terms(
                    instance.env@,
                    (#[trigger] (equations + conds)[j]).terms,
                ) by {
                    if j < equations.len() {
                        assert((equations + conds)[j] == equations[j]);
                    } else {
                        assert((equations + conds)[j] == conds[j - equations.len()]);
                    }
                }
            }
            let start = Constraints::none(instance.env.clone());
            let rs = prove_after(db, &start, assumptions, &goals, depth);
            leave_scope(
                &rs,
                k.binders,
                instance.first,
                Ghost(instance.env@),
                Ghost(env@),
                Ghost(Kind::Existential),
            )
        },
    }
}

/// The solutions of one goal.
///
/// An equation of a term with itself has the one solution that binds
/// nothing. Any other goal is proved under the assumptions and the invariants
/// that the database has for its shape: an equation between two terms has
/// the solutions that make the terms equal, and every goal has, besides, the
/// solutions by each assumption, by each fact derived from the assumptions,
/// and by each clause of the database for its shape. A goal that nothing
/// matches has no solution.
pub fn prove_goal<D: Database>(
    db: &D,
    env: &Env,
    assumptions: &Vec<Clause>,
    goal: &Goal,
    depth: usize,
) -> (r: Vec<Constraints>)
    requires
        well_formed(env@),
        encloses_terms(env@, goal@.terms),
    ensures
        solutions_view(r@) == model::prove_goal(
            db,
            env@,
            clauses_view(assumptions@),
            goal@,
            depth as nat,
        ),
        sound(r@, env@),
        certain(r@),
    decreases depth, 5int, 0int,
{
    reveal(model::prove_goal);
    reveal(model::prove_via_upto);
    reveal(model::prove_via);
    reveal(model::prove_eq);
    if goal.shape == Shape::Equals && goal.terms.len() == 2 {
        assert(goal@.terms[0] == goal.terms[0]@ && goal@.terms[1] == goal.terms[1]@);
        if term_eq(&goal.terms[0], &goal.terms[1]) {
            proof {
                lemma_extends_reflexive(env@);
            }
            return one_solution(Constraints::none(env.clone()), Ghost(env@));
        }
    }
    let known = context(db, assumptions, goal.shape);
    let ks = candidates(db, &known, goal.shape);
    let mut out = if goal.shape == Shape::Equals && goal.terms.len() == 2 {
        assert(goal@.terms[0] == goal.terms[0]@ && goal@.terms[1] == goal.terms[1]@);
        prove_eq(db, env, &known, &goal.terms[0], &goal.terms[1], depth)
    } else {
        no_solutions(Ghost(env@))
    };
    let mut via = no_solutions(Ghost(env@));
    let mut n: usize = 0;
    while n < ks.len()
        invariant
            0 <= n <= ks.len(),
            well_formed(env@),
            encloses_terms(env@, goal@.terms),
            sound(via@, env@),
            certain(via@),
            solutions_view(via@) == model::prove_via_upto(
                db,
                env@,
                clauses_view(known@),
                clauses_view(ks@),
                goal@,
                depth as nat,
                n as int,
            ),
        decreases ks.len() - n,
    {
        reveal(model::prove_via_upto);
        reveal(model::prove_via);
        let found = prove_via(db, env, &known, &ks[n], goal, depth);
        append_unique(&mut via, &found, Ghost(env@));
        n += 1;
    }
    append_unique(&mut out, &via, Ghost(env@));
    out
}

/// The solutions of a conjunction of goals within the given depth.
///
/// The goals are proved in order, from the left: each goal is proved as each
/// solution of the goals before it leaves it, and its solutions are put
/// after that one. No goals have the one solution that binds nothing.
pub fn prove_all<D: Database>(
    db: &D,
    env: &Env,
    assumptions: &Vec<Clause>,
    goals: &Vec<Goal>,
    depth: usize,
) -> (r: Vec<Constraints>)
    requires
        well_formed(env@),
        encloses_goals(env@, goals_view(goals@)),
    ensures
        solutions_view(r@) == model::prove_all(
            db,
            env@,
            clauses_view(assumptions@),
            goals_view(goals@),
            depth as nat,
        ),
        sound(r@, env@),
        certain(r@),
    decreases depth, 8int, 0int,
{
    reveal(model::prove_all);
    reveal(model::prove_all_upto);
    reveal(model::prove_next_upto);
    reveal(model::prove_goal);
    proof {
        lemma_extends_reflexive(env@);
    }
    let mut acc = one_solution(Constraints::none(env.clone()), Ghost(env@));
    let mut n: usize = 0;
    while n < goals.len()
        invariant
            0 <= n <= goals.len(),
            well_formed(env@),
            encloses_goals(env@, goals_view(goals@)),
            sound(acc@, env@),
            certain(acc@),
            solutions_view(acc@) == model::prove_all_upto(
                db,
                env@,
                clauses_view(assumptions@),
                goals_view(goals@),
                depth as nat,
                n as int,
            ),
        decreases goals.len() - n,
    {
        reveal(model::prove_all_upto);
        reveal(model::prove_next_upto);
        let mut next = no_solutions(Ghost(env@));
        let mut m: usize = 0;
        while m < acc.len()
            invariant
                0 <= m <= acc.len(),
                0 <= n < goals.len(),
                well_formed(env@),
                encloses_goals(env@, goals_view(goals@)),
                sound(acc@, env@),
                certain(acc@),
                sound(next@, env@),
                certain(next@),
                solutions_view(next@) == model::prove_next_upto(
                    db,
                    clauses_view(assumptions@),
                    goals_view(goals@)[n as int],
                    depth as nat,
                    solutions_view(acc@),
                    m as int,
                ),
            decreases acc.len() - m,
        {
            reveal(model::prove_next_upto);
            reveal(model::prove_goal);
            let c = &acc[m];
            let goal = c.substitution.apply_goal(&goals[n]);
            let hs = c.substitution.apply_clauses(assumptions);
            proof {
                assert(solutions_view(acc@)[m as int] == c@);
                assert(goals_view(goals@)[n as int] == goals[n as int]@);
                lemma_apply_terms_enclosed(c@, env@, goals[n as int]@.terms);
            }
            let rs = prove_goal(db, &c.env, &hs, &goal, depth);
            let step = sequence(c, &rs);
            proof {
                lemma_sound_extends(step@, c@.env, env@);
            }
            append_unique(&mut next, &step, Ghost(env@));
            m += 1;
        }
        acc = next;
        n += 1;
    }
    acc
}

/// Every way in which the goals hold together under the assumptions, found
/// within [`MAX_DEPTH`]. No solution means that the goals were not proved.
pub fn prove<D: Database>(
    db: &D,
    env: &Env,
    assumptions: &Vec<Clause>,
    goals: &Vec<Goal>,
) -> (r: Vec<Constraints>)
    requires
        well_formed(env@),
        encloses_goals(env@, goals_view(goals@)),
    ensures
        solutions_view(r@) == model::prove_all(
            db,
            env@,
            clauses_view(assumptions@),
            goals_view(goals@),
            MAX_DEPTH as nat,
        ),
        sound(r@, env@),
        certain(r@),
{
    reveal(model::prove_all);
    prove_all(db, env, assumptions, goals, MAX_DEPTH)
}

/// [`prove`], for callers that cannot promise what it requires: nothing is
/// searched if the environment is not well formed or if a goal mentions a
/// variable out of scope.
pub fn try_prove<D: Database>(
    db: &D,
    env: &Env,
    assumptions: &Vec<Clause>,
    goals: &Vec<Goal>,
) -> (r: Option<Vec<Constraints>>)
    ensures
        r is Some <==> well_formed(env@) && encloses_goals(env@, goals_view(goals@)),
        r matches Some(found) ==> solutions_view(found@) == model::prove_all(
            db,
            env@,
            clauses_view(assumptions@),
            goals_view(goals@),
            MAX_DEPTH as nat,
        ) && sound(found@, env@) && certain(found@),
{
    if env.is_well_formed() && env.encloses_goals(goals) {
        Some(prove(db, env, assumptions, goals))
    } else {
        None
    }
}

impl Program {
    /// Every way in which goals without variables hold together of this
    /// program under the assumptions, found within the program's own depth.
    pub fn prove(&self, assumptions: &Vec<Clause>, goals: &Vec<Goal>) -> (r: Vec<Constraints>)
        requires
            encloses_goals(Seq::<Variable>::empty(), goals_view(goals@)),
        ensures
            solutions_view(r@) == model::prove_all(
                self,
                Seq::<Variable>::empty(),
                clauses_view(assumptions@),
                goals_view(goals@),
                self.max_size as nat,
            ),
            sound(r@, Seq::<Variable>::empty()),
            certain(r@),
    {
        let env = Env::new();
        prove_all(self, &env, assumptions, goals, self.max_size)
    }
}

/// The search is a function of what it is given: two runs on the same
/// database, environment, assumptions and goals, to the same depth, yield the
/// same solutions in the same order, fresh variables included.
pub proof fn lemma_prove_deterministic<D: Database>(
    db: &D,
    env: Seq<Variable>,
    assumptions: Seq<ClauseView>,
    goals: Seq<crate::grammar::GoalView>,
    d: nat,
    first: Seq<Constraints>,
    second: Seq<Constraints>,
)
    requires
        solutions_view(first) == model::prove_all(db, env, assumptions, goals, d),
        solutions_view(second) == model::prove_all(db, env, assumptions, goals, d),
    ensures
        solutions_view(first) == solutions_view(second),
        first.len() == second.len(),
        forall|i: int| 0 <= i < first.len() ==> first[i]@ == second[i]@,
{
    assert(solutions_view(first).len() == first.len());
    assert(solutions_view(second).len() == second.len());
    assert forall|i: int| 0 <= i < first.len() implies first[i]@ == second[i]@ by {
        assert(solutions_view(first)[i] == first[i]@);
        assert(solutions_view(second)[i] == second[i]@);
    }
}

} // verus!
