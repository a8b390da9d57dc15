//! Proving formulas: goals under quantifiers and assumptions.
use crate::constraints::{solutions_view, Constraints};
use crate::db::Database;
use crate::env::{has_room, lemma_max_index, well_formed, Env};
use crate::formula::Formula;
use crate::grammar::{
    clauses_view, clone_clauses, goals_view, Clause, Goal, Kind, TermView, Variable,
};
use crate::model;
use crate::prove::{open_scope, prove_all, MAX_DEPTH};
use crate::prove_eq::no_solutions;
use crate::solutions::{certain, leave_scope, sound};
use crate::substitution::Substitution;
use vstd::prelude::*;

verus! {

/// `assumptions`, followed by each of `conditions` as a clause that states it
/// outright.
fn assume_all(assumptions: &Vec<Clause>, conditions: &Vec<Goal>) -> (r: Vec<Clause>)
    ensures
        clauses_view(r@) == clauses_view(assumptions@) + model::facts(goals_view(conditions@)),
{
    let mut out = clone_clauses(assumptions);
    let mut i: usize = 0;
    assert(clauses_view(out@) =~= clauses_view(assumptions@) + model::facts(
        goals_view(conditions@),
    ).take(0));
    while i < conditions.len()
        invariant
            0 <= i <= conditions.len(),
            clauses_view(out@) == clauses_view(assumptions@) + model::facts(
                goals_view(conditions@),
            ).take(i as int),
        decreases conditions.len() - i,
    {
        let ghost before = clauses_view(out@);
        let fact = Clause::fact(conditions[i].clone());
        let ghost stated = fact@;
        out.push(fact);
        proof {
            let all = model::facts(goals_view(conditions@));
            assert(goals_view(conditions@)[i as int] == conditions[i as int]@);
            assert(all[i as int] == stated);
            assert(clauses_view(out@) =~= before.push(stated));
            assert(all.take(i + 1) =~= all.take(i as int).push(stated));
            assert(clauses_view(out@) =~= clauses_view(assumptions@) + all.take(i + 1));
        }
        i += 1;
    }
    assert(model::facts(goals_view(conditions@)).take(conditions.len() as int)
        =~= model::facts(goals_view(conditions@)));
    out
}

/// The solutions of a formula of which binders with `opened` variables in
/// all were opened already, `renaming` saying what stands for each of them.
pub fn prove_opened<D: Database>(
    db: &D,
    env: &Env,
    assumptions: &Vec<Clause>,
    formula: &Formula,
    renaming: &Substitution,
    opened: u64,
    depth: usize,
) -> (r: Vec<Constraints>)
    requires
        well_formed(env@),
        renaming.well_formed(),
        forall|v: Variable| #[trigger]
            renaming@.contains_key(v) ==> v.kind == Kind::Bound && v.index < opened,
    ensures
        solutions_view(r@) == model::prove_formula(
            db,
            env@,
            clauses_view(assumptions@),
            formula@,
            renaming@,
            opened as nat,
            depth as nat,
        ),
        sound(r@, env@),
        certain(r@),
    decreases formula,
{
    match formula {
        Formula::All(goals) => {
            let goals = renaming.apply_goals(goals);
            if env.encloses_goals(&goals) {
                prove_all(db, env, assumptions, &goals, depth)
            } else {
                no_solutions(Ghost(env@))
            }
        },
        Formula::Quantified { kind, binders, body } => {
            if *kind == Kind::Bound || !env.has_room(*binders) {
                return no_solutions(Ghost(env@));
            }
            proof {
                lemma_max_index(env@);
            }
            let wanted = *binders as u64;
            if opened > u64::MAX - wanted {
                return no_solutions(Ghost(env@));
            }
            let scope = open_scope(env, *kind, *binders, renaming, opened);
            let rs = prove_opened(
                db,
                &scope.env,
                assumptions,
                body,
                &scope.renaming,
                opened + wanted,
                depth,
            );
            leave_scope(
                &rs,
                *binders,
                scope.first,
                Ghost(scope.env@),
                Ghost(env@),
                Ghost(*kind),
            )
        },
        Formula::Implies { conditions, body } => {
            let conditions = renaming.apply_goals(conditions);
            let known = assume_all(assumptions, &conditions);
            prove_opened(db, env, &known, body, renaming, opened, depth)
        },
    }
}

/// Every way in which the formula holds under the assumptions, found within
/// [`MAX_DEPTH`].
///
/// A conjunction is proved as [`crate::prove::prove`] proves it. A
/// quantifier brings its variables into scope as fresh variables of its
/// kind, above all others, and each solution of its body is taken out of
/// their scope again. An implication adds its conditions to the assumptions.
/// A formula that mentions a variable out of scope has no solution.
pub fn prove_formula<D: Database>(
    db: &D,
    env: &Env,
    assumptions: &Vec<Clause>,
    formula: &Formula,
) -> (r: Vec<Constraints>)
    requires
        well_formed(env@),
    ensures
        solutions_view(r@) == model::prove_formula(
            db,
            env@,
            clauses_view(assumptions@),
            formula@,
            Map::<Variable, TermView>::empty(),
            0,
            MAX_DEPTH as nat,
        ),
        sound(r@, env@),
        certain(r@),
{
    prove_opened(db, env, assumptions, formula, &Substitution::new(), 0, MAX_DEPTH)
}

} // verus!
