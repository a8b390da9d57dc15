//! The search for solutions, as mathematics.
//!
//! Each function here says which solutions one step of the search yields, in
//! which order. The executable search computes exactly these sequences.
//! `d` is the depth that is left: a step that must go deeper when none is
//! left yields no solution.
use crate::constraints::ConstraintsView;
use crate::db::Database;
use crate::env::{
    encloses, encloses_goals, encloses_terms, fresh_variable, has_room, rank, with_fresh,
};
use crate::formula::FormulaView;
use crate::grammar::{ClauseView, GoalView, Kind, Shape, TermView, Variable};
use crate::solutions::{insert_unique, pop, pop_all, seq_all, union};
use crate::substitution::{apply, apply_clauses, apply_goal, apply_goals};
use crate::visit::free_variables;
use vstd::prelude::*;

verus! {

/// A projection reduced to a value, and the solution under which it is one.
pub struct NormalizedView {
    pub constraints: ConstraintsView,
    pub value: TermView,
}

/// The solution over `env` that binds `v` to `t` and nothing else.
pub open spec fn binding(env: Seq<Variable>, v: Variable, t: TermView) -> ConstraintsView {
    ConstraintsView {
        env,
        known_true: true,
        substitution: Map::<Variable, TermView>::empty().insert(v, t),
    }
}

/// `renaming`, extended for a binder of `n` variables that is opened after
/// `opened` placeholders were: the placeholders numbered from `opened` on are
/// replaced by the `n` fresh variables of the given kind that follow `env`.
pub open spec fn opening(
    renaming: Map<Variable, TermView>,
    env: Seq<Variable>,
    kind: Kind,
    opened: nat,
    n: nat,
) -> Map<Variable, TermView>
    decreases n,
{
    if n == 0 {
        renaming
    } else {
        opening(renaming, env, kind, opened, (n - 1) as nat).insert(
            Variable { kind: Kind::Bound, index: (opened + n - 1) as u64 },
            TermView::Var(fresh_variable(with_fresh(env, kind, (n - 1) as nat), kind)),
        )
    }
}

/// The substitution that replaces the first `n` bound placeholders by the
/// `n` fresh existential variables that follow `env`.
pub open spec fn instantiation(env: Seq<Variable>, n: nat) -> Map<Variable, TermView> {
    opening(Map::empty(), env, Kind::Existential, 0, n)
}

/// A relation stated outright.
pub open spec fn is_relation_fact(k: ClauseView) -> bool {
    k.is_fact() && k.conclusion.shape == Shape::Equals
}

/// `hs`, followed by what the database derives from the relations among the
/// first `n` of them.
pub open spec fn elaborated_upto<D: Database>(db: &D, hs: Seq<ClauseView>, n: int) -> Seq<
    ClauseView,
>
    decreases n,
{
    if n <= 0 || n > hs.len() {
        hs
    } else {
        let acc = elaborated_upto(db, hs, n - 1);
        if is_relation_fact(hs[n - 1]) {
            acc + db.hypotheses_of(hs[n - 1].conclusion)
        } else {
            acc
        }
    }
}

/// The assumptions under which a goal of the given shape is proved: those
/// given, and the invariants that the database has for the shape.
pub open spec fn context<D: Database>(db: &D, hs: Seq<ClauseView>, shape: Shape) -> Seq<
    ClauseView,
> {
    if shape == Shape::Equals {
        hs
    } else {
        union(hs, db.invariants_of(shape))
    }
}

/// The clauses by which a goal of the given shape may be proved: the
/// assumptions, what follows from them, and the clauses of the database.
pub open spec fn candidates<D: Database>(db: &D, hs: Seq<ClauseView>, shape: Shape) -> Seq<
    ClauseView,
> {
    let known = elaborated_upto(db, hs, hs.len() as int);
    if shape == Shape::Equals {
        known
    } else {
        known + db.clauses_of(shape)
    }
}

/// The environment after the first `n` of the variables `fvs` were looked at,
/// and the replacements made: each variable of higher universe than
/// `universe_x` is paired with a fresh variable of its own kind, brought in
/// at `universe_x`. There is none if a fresh variable was needed and could
/// not be numbered; a variable that needs no replacement asks for no room.
pub open spec fn demoted_upto(
    env: Seq<Variable>,
    universe_x: int,
    fvs: Seq<Variable>,
    n: int,
) -> Option<(Seq<Variable>, Seq<(Variable, Variable)>)>
    decreases n,
{
    if n <= 0 || n > fvs.len() {
        Some((env, Seq::empty()))
    } else {
        match demoted_upto(env, universe_x, fvs, n - 1) {
            None => None,
            Some((e, pairs)) => {
                let fv = fvs[n - 1];
                if universe_x < rank(e, fv) {
                    if has_room(e, 1) {
                        let y = fresh_variable(e, fv.kind);
                        Some((e.insert(universe_x, y), pairs.push((fv, y))))
                    } else {
                        None
                    }
                } else {
                    Some((e, pairs))
                }
            },
        }
    }
}

/// The substitution that replaces each of the first `n` paired variables by
/// its partner.
pub open spec fn renaming_upto(pairs: Seq<(Variable, Variable)>, n: int) -> Map<Variable, TermView>
    decreases n,
{
    if n <= 0 || n > pairs.len() {
        Map::empty()
    } else {
        renaming_upto(pairs, n - 1).insert(pairs[n - 1].0, TermView::Var(pairs[n - 1].1))
    }
}

/// The bindings of the existential variables among the first `n` paired
/// variables, each to its partner.
pub open spec fn demotions_upto(pairs: Seq<(Variable, Variable)>, n: int) -> Map<
    Variable,
    TermView,
>
    decreases n,
{
    if n <= 0 || n > pairs.len() {
        Map::empty()
    } else if pairs[n - 1].0.kind == Kind::Existential {
        demotions_upto(pairs, n - 1).insert(pairs[n - 1].0, TermView::Var(pairs[n - 1].1))
    } else {
        demotions_upto(pairs, n - 1)
    }
}

/// For each universal variable among the first `n` paired variables, the goal
/// that it equals its partner.
pub open spec fn obligations_upto(pairs: Seq<(Variable, Variable)>, n: int) -> Seq<GoalView>
    decreases n,
{
    if n <= 0 || n > pairs.len() {
        Seq::empty()
    } else if pairs[n - 1].0.kind == Kind::Universal {
        obligations_upto(pairs, n - 1).push(
            GoalView::eq(TermView::Var(pairs[n - 1].0), TermView::Var(pairs[n - 1].1)),
        )
    } else {
        obligations_upto(pairs, n - 1)
    }
}

/// The solutions of `goals`, each put after `c`: the goals are proved as `c`
/// leaves them, one level deeper.
#[verifier::opaque]
pub open spec fn prove_after<D: Database>(
    db: &D,
    c: ConstraintsView,
    assumptions: Seq<ClauseView>,
    goals: Seq<GoalView>,
    d: nat,
) -> Seq<ConstraintsView>
    decreases d, 0int, 0int,
{
    if goals.len() == 0 {
        seq![c]
    } else if d == 0 {
        Seq::empty()
    } else {
        seq_all(
            c,
            prove_all(
                db,
                c.env,
                apply_clauses(c.substitution, assumptions),
                apply_goals(c.substitution, goals),
                (d - 1) as nat,
            ),
        )
    }
}

/// The solutions that bind the existential variable `x` to the term `p`,
/// which is no variable: none if `x` occurs in `p`, or if a variable of `p`
/// needs a replacement that cannot be numbered; else those of the goals that
/// the replaced universal variables leave, put after the bindings.
#[verifier::opaque]
pub open spec fn equate_variable<D: Database>(
    db: &D,
    env: Seq<Variable>,
    assumptions: Seq<ClauseView>,
    x: Variable,
    p: TermView,
    d: nat,
) -> Seq<ConstraintsView>
    decreases d, 1int, 0int,
{
    let fvs = free_variables(p);
    if fvs.contains(x) {
        Seq::empty()
    } else {
        match demoted_upto(env, rank(env, x), fvs, fvs.len() as int) {
            None => Seq::empty(),
            Some((env1, pairs)) => {
                let n = pairs.len() as int;
                let c = ConstraintsView {
                    env: env1,
                    known_true: true,
                    substitution: demotions_upto(pairs, n).insert(
                        x,
                        apply(renaming_upto(pairs, n), p),
                    ),
                };
                prove_after(db, c, assumptions, obligations_upto(pairs, n), d)
            },
        }
    }
}

/// The solutions that make the existential variable `v` equal to `t`.
#[verifier::opaque]
pub open spec fn prove_existential_var_eq<D: Database>(
    db: &D,
    env: Seq<Variable>,
    assumptions: Seq<ClauseView>,
    v: Variable,
    t: TermView,
    d: nat,
) -> Seq<ConstraintsView>
    decreases d, 2int, 0int,
{
    match t {
        TermView::Var(w) => {
            if w == v {
                seq![ConstraintsView::none(env)]
            } else if w.kind == Kind::Existential {
                if rank(env, v) < rank(env, w) {
                    seq![binding(env, w, TermView::Var(v))]
                } else {
                    seq![binding(env, v, TermView::Var(w))]
                }
            } else if w.kind == Kind::Universal && rank(env, w) < rank(env, v) {
                seq![binding(env, v, t)]
            } else {
                Seq::empty()
            }
        },
        _ => equate_variable(db, env, assumptions, v, t, d),
    }
}

/// The solutions that make the terms of `a_s` equal to those of `b_s`, one
/// by one.
#[verifier::opaque]
pub open spec fn prove_all_eq<D: Database>(
    db: &D,
    env: Seq<Variable>,
    assumptions: Seq<ClauseView>,
    a_s: Seq<TermView>,
    b_s: Seq<TermView>,
    d: nat,
) -> Seq<ConstraintsView>
    decreases d, 1int, 0int,
{
    if a_s == b_s {
        seq![ConstraintsView::none(env)]
    } else if a_s.len() != b_s.len() {
        Seq::empty()
    } else {
        prove_after(db, ConstraintsView::none(env), assumptions, GoalView::all_eq(a_s, b_s), d)
    }
}

/// The solutions that make `a` and `b` equal by their shape alone.
#[verifier::opaque]
pub open spec fn prove_syntactically_eq<D: Database>(
    db: &D,
    env: Seq<Variable>,
    assumptions: Seq<ClauseView>,
    a: TermView,
    b: TermView,
    d: nat,
) -> Seq<ConstraintsView>
    decreases d, 3int, 0int,
{
    if a == b {
        seq![ConstraintsView::none(env)]
    } else {
        match (a, b) {
            (
                TermView::Rigid { name: a_name, parameters: a_parameters },
                TermView::Rigid { name: b_name, parameters: b_parameters },
            ) => {
                if a_name == b_name {
                    prove_all_eq(db, env, assumptions, a_parameters, b_parameters, d)
                } else {
                    Seq::empty()
                }
            },
            (
                TermView::Alias { name: a_name, parameters: a_parameters },
                TermView::Alias { name: b_name, parameters: b_parameters },
            ) => {
                if a_name == b_name {
                    prove_all_eq(db, env, assumptions, a_parameters, b_parameters, d)
                } else {
                    Seq::empty()
                }
            },
            (TermView::Var(v), _) => {
                if v.kind == Kind::Existential {
                    prove_existential_var_eq(db, env, assumptions, v, b, d)
                } else {
                    match b {
                        TermView::Var(w) => if w.kind == Kind::Existential {
                            prove_existential_var_eq(db, env, assumptions, w, a, d)
                        } else {
                            Seq::empty()
                        },
                        _ => Seq::empty(),
                    }
                }
            },
            (_, TermView::Var(w)) => {
                if w.kind == Kind::Existential {
                    prove_existential_var_eq(db, env, assumptions, w, a, d)
                } else {
                    Seq::empty()
                }
            },
            _ => Seq::empty(),
        }
    }
}

/// What the first `n` solutions of `rs` make of a clause that says what a
/// projection equals: the clause's value under the solution, and the solution
/// outside the scope of the clause's variables. A value that mentions a
/// variable out of scope is left out.
pub open spec fn normalized_upto(
    rs: Seq<ConstraintsView>,
    value: TermView,
    outer: Seq<Variable>,
    brought: nat,
    n: int,
) -> Seq<NormalizedView>
    decreases n,
{
    if n <= 0 || n > rs.len() {
        Seq::empty()
    } else {
        let acc = normalized_upto(rs, value, outer, brought, n - 1);
        let c = pop(rs[n - 1], outer, Kind::Existential, brought);
        let v = apply(rs[n - 1].substitution, value);
        if encloses(c.env, v) {
            insert_unique(acc, NormalizedView { constraints: c, value: v })
        } else {
            acc
        }
    }
}

/// The values that the clause `k` gives the projection `name` of
/// `parameters`.
#[verifier::opaque]
pub open spec fn normalize_via<D: Database>(
    db: &D,
    env: Seq<Variable>,
    assumptions: Seq<ClauseView>,
    k: ClauseView,
    name: u64,
    parameters: Seq<TermView>,
    d: nat,
) -> Seq<NormalizedView>
    decreases d, 1int, 0int,
{
    if k.conclusion.shape != Shape::NormalizesTo(name) || k.conclusion.terms.len()
        != parameters.len() + 1 {
        Seq::empty()
    } else if !has_room(env, k.binders as int) {
        Seq::empty()
    } else {
        let env1 = with_fresh(env, Kind::Existential, k.binders);
        let inst = instantiation(env, k.binders);
        let conclusion = apply_goal(inst, k.conclusion);
        let conditions = apply_goals(inst, k.conditions);
        if !(encloses_terms(env1, conclusion.terms) && encloses_goals(env1, conditions)) {
            Seq::empty()
        } else {
            let arity = parameters.len() as int;
            let rs = prove_after(
                db,
                ConstraintsView::none(env1),
                assumptions,
                GoalView::all_eq(parameters, conclusion.terms.take(arity)) + conditions,
                d,
            );
            normalized_upto(rs, conclusion.terms[arity], env, k.binders, rs.len() as int)
        }
    }
}

/// The values that the first `n` clauses of `ks` give the projection.
#[verifier::opaque]
pub open spec fn normalize_via_upto<D: Database>(
    db: &D,
    env: Seq<Variable>,
    assumptions: Seq<ClauseView>,
    ks: Seq<ClauseView>,
    name: u64,
    parameters: Seq<TermView>,
    d: nat,
    n: int,
) -> Seq<NormalizedView>
    decreases d, 2int, n,
{
    if n <= 0 || n > ks.len() {
        Seq::empty()
    } else {
        union(
            normalize_via_upto(db, env, assumptions, ks, name, parameters, d, n - 1),
            normalize_via(db, env, assumptions, ks[n - 1], name, parameters, d),
        )
    }
}

/// The values that a projection can be proved to equal, each with the
/// solution under which it does. A term that is no projection has none.
#[verifier::opaque]
pub open spec fn prove_normalize<D: Database>(
    db: &D,
    env: Seq<Variable>,
    assumptions: Seq<ClauseView>,
    t: TermView,
    d: nat,
) -> Seq<NormalizedView>
    decreases d, 3int, 0int,
{
    match t {
        TermView::Alias { name, parameters } => {
            let shape = Shape::NormalizesTo(name);
            let known = context(db, assumptions, shape);
            let ks = candidates(db, known, shape);
            normalize_via_upto(db, env, known, ks, name, parameters, d, ks.len() as int)
        },
        _ => Seq::empty(),
    }
}

/// The solutions that make `other` equal to one of the first `n` values of
/// `ns`. `flipped` says that the value stands on the right of the equation.
#[verifier::opaque]
pub open spec fn retry_upto<D: Database>(
    db: &D,
    assumptions: Seq<ClauseView>,
    ns: Seq<NormalizedView>,
    other: TermView,
    flipped: bool,
    d: nat,
    n: int,
) -> Seq<ConstraintsView>
    decreases d, 1int, n,
{
    if n <= 0 || n > ns.len() {
        Seq::empty()
    } else {
        let goal = if flipped {
            GoalView::eq(other, ns[n - 1].value)
        } else {
            GoalView::eq(ns[n - 1].value, other)
        };
        union(
            retry_upto(db, assumptions, ns, other, flipped, d, n - 1),
            prove_after(db, ns[n - 1].constraints, assumptions, seq![goal], d),
        )
    }
}

/// The solutions that make `a` and `b` equal: none but the trivial one if
/// they are the same term; else those by shape, those with `a` reduced to a
/// value first, and those with `b` reduced to a value first.
#[verifier::opaque]
pub open spec fn prove_eq<D: Database>(
    db: &D,
    env: Seq<Variable>,
    assumptions: Seq<ClauseView>,
    a: TermView,
    b: TermView,
    d: nat,
) -> Seq<ConstraintsView>
    decreases d, 4int, 0int,
{
    if a == b {
        seq![ConstraintsView::none(env)]
    } else {
        let by_shape = prove_syntactically_eq(db, env, assumptions, a, b, d);
        let left = prove_normalize(db, env, assumptions, a, d);
        let right = prove_normalize(db, env, assumptions, b, d);
        union(
            union(by_shape, retry_upto(db, assumptions, left, b, false, d, left.len() as int)),
            retry_upto(db, assumptions, right, a, true, d, right.len() as int),
        )
    }
}

/// The solutions of `goal` by the clause `k`: the clause's variables are
/// brought in as fresh existential variables, its conclusion is made equal
/// to the goal term by term, and its conditions are proved in order.
#[verifier::opaque]
pub open spec fn prove_via<D: Database>(
    db: &D,
    env: Seq<Variable>,
    assumptions: Seq<ClauseView>,
    k: ClauseView,
    goal: GoalView,
    d: nat,
) -> Seq<ConstraintsView>
    decreases d, 1int, 0int,
{
    if k.conclusion.shape != goal.shape || k.conclusion.terms.len() != goal.terms.len() {
        Seq::empty()
    } else if !has_room(env, k.binders as int) {
        Seq::empty()
    } else {
        let env1 = with_fresh(env, Kind::Existential, k.binders);
        let inst = instantiation(env, k.binders);
        let conclusion = apply_goal(inst, k.conclusion);
        let conditions = apply_goals(inst, k.conditions);
        if !(encloses_terms(env1, conclusion.terms) && encloses_goals(env1, conditions)) {
            Seq::empty()
        } else {
            pop_all(
                prove_after(
                    db,
                    ConstraintsView::none(env1),
                    assumptions,
                    GoalView::all_eq(conclusion.terms, goal.terms) + conditions,
                    d,
                ),
                env,
                Kind::Existential,
                k.binders,
            )
        }
    }
}

/// The solutions of `goal` by the first `n` clauses of `ks`.
#[verifier::opaque]
pub open spec fn prove_via_upto<D: Database>(
    db: &D,
    env: Seq<Variable>,
    assumptions: Seq<ClauseView>,
    ks: Seq<ClauseView>,
    goal: GoalView,
    d: nat,
    n: int,
) -> Seq<ConstraintsView>
    decreases d, 2int, n,
{
    if n <= 0 || n > ks.len() {
        Seq::empty()
    } else {
        union(
            prove_via_upto(db, env, assumptions, ks, goal, d, n - 1),
            prove_via(db, env, assumptions, ks[n - 1], goal, d),
        )
    }
}

/// The solutions of one goal. An equation of a term with itself has the one
/// solution that binds nothing. Any other goal has the solutions by each
/// assumption and each clause of the database; if it is an equation, it has
/// first those that make its two terms equal.
#[verifier::opaque]
pub open spec fn prove_goal<D: Database>(
    db: &D,
    env: Seq<Variable>,
    assumptions: Seq<ClauseView>,
    goal: GoalView,
    d: nat,
) -> Seq<ConstraintsView>
    decreases d, 5int, 0int,
{
    if goal.shape == Shape::Equals && goal.terms.len() == 2 && goal.terms[0] == goal.terms[1] {
        seq![ConstraintsView::none(env)]
    } else {
        let known = context(db, assumptions, goal.shape);
        let ks = candidates(db, known, goal.shape);
        let direct = if goal.shape == Shape::Equals && goal.terms.len() == 2 {
            prove_eq(db, env, known, goal.terms[0], goal.terms[1], d)
        } else {
            Seq::empty()
        };
        union(direct, prove_via_upto(db, env, known, ks, goal, d, ks.len() as int))
    }
}

/// The solutions of `goal` as the first `n` solutions of `acc` leave it, each
/// put after the one it continues.
#[verifier::opaque]
pub open spec fn prove_next_upto<D: Database>(
    db: &D,
    assumptions: Seq<ClauseView>,
    goal: GoalView,
    d: nat,
    acc: Seq<ConstraintsView>,
    n: int,
) -> Seq<ConstraintsView>
    decreases d, 6int, n,
{
    if n <= 0 || n > acc.len() {
        Seq::empty()
    } else {
        let c = acc[n - 1];
        union(
            prove_next_upto(db, assumptions, goal, d, acc, n - 1),
            seq_all(
                c,
                prove_goal(
                    db,
                    c.env,
                    apply_clauses(c.substitution, assumptions),
                    apply_goal(c.substitution, goal),
                    d,
                ),
            ),
        )
    }
}

/// The solutions of the first `n` goals, proved in order from the left.
#[verifier::opaque]
pub open spec fn prove_all_upto<D: Database>(
    db: &D,
    env: Seq<Variable>,
    assumptions: Seq<ClauseView>,
    goals: Seq<GoalView>,
    d: nat,
    n: int,
) -> Seq<ConstraintsView>
    decreases d, 7int, n,
{
    if n <= 0 || n > goals.len() {
        seq![ConstraintsView::none(env)]
    } else {
        let acc = prove_all_upto(db, env, assumptions, goals, d, n - 1);
        prove_next_upto(db, assumptions, goals[n - 1], d, acc, acc.len() as int)
    }
}

/// The solutions of a conjunction of goals within depth `d`.
#[verifier::opaque]
pub open spec fn prove_all<D: Database>(
    db: &D,
    env: Seq<Variable>,
    assumptions: Seq<ClauseView>,
    goals: Seq<GoalView>,
    d: nat,
) -> Seq<ConstraintsView>
    decreases d, 8int, 0int,
{
    prove_all_upto(db, env, assumptions, goals, d, goals.len() as int)
}

/// Each goal as a clause that states it outright.
pub open spec fn facts(gs: Seq<GoalView>) -> Seq<ClauseView> {
    Seq::new(
        gs.len(),
        |i: int| ClauseView { binders: 0, conditions: Seq::empty(), conclusion: gs[i] },
    )
}

/// The solutions of a formula, of which binders with `opened` variables in
/// all were opened already, `renaming` saying what stands for each of them.
///
/// A conjunction is proved as [`prove_all`] proves it, once its placeholders
/// are replaced; if a variable of it is then out of scope it has no solution.
/// A quantifier brings its variables in as fresh variables of its kind,
/// above all others, and each solution of its body is taken out of their
/// scope again. An implication adds its conditions to the assumptions.
pub open spec fn prove_formula<D: Database>(
    db: &D,
    env: Seq<Variable>,
    assumptions: Seq<ClauseView>,
    f: FormulaView,
    renaming: Map<Variable, TermView>,
    opened: nat,
    d: nat,
) -> Seq<ConstraintsView>
    decreases f,
{
    match f {
        FormulaView::All(gs) => {
            let goals = apply_goals(renaming, gs);
            if encloses_goals(env, goals) {
                prove_all(db, env, assumptions, goals, d)
            } else {
                Seq::empty()
            }
        },
        FormulaView::Quantified { kind, binders, body } => {
            if kind == Kind::Bound || !has_room(env, binders as int) || opened + binders
                > u64::MAX {
                Seq::empty()
            } else {
                pop_all(
                    prove_formula(
                        db,
                        with_fresh(env, kind, binders),
                        assumptions,
                        *body,
                        opening(renaming, env, kind, opened, binders),
                        opened + binders,
                        d,
                    ),
                    env,
                    kind,
                    binders,
                )
            }
        },
        FormulaView::Implies { conditions, body } => prove_formula(
            db,
            env,
            assumptions + facts(apply_goals(renaming, conditions)),
            *body,
            renaming,
            opened,
            d,
        ),
    }
}

} // verus!
