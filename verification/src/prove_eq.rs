//! Equality of terms: unification that respects universes.
use crate::constraints::{lemma_apply_goals_enclosed, solutions_view, Constraints, ConstraintsView};
use crate::db::Database;
use crate::env::{
    encloses, encloses_goals, encloses_terms, extends, has_room, lemma_encloses_extends,
    lemma_extends_reflexive, lemma_insert, lemma_rank_of_member, max_index, rank, well_formed, Env,
};
use crate::grammar::{
    clauses_view, clone_term, goals_view, term_eq, terms_eq, terms_view, Clause, Goal, GoalView,
    Kind, Term, TermView, Variable,
};
use crate::model;
use crate::prove::prove_all;
use crate::prove_normalize::{normalized_view, prove_normalize, sound_values, Normalized};
use crate::solutions::{append_unique, certain, lemma_sound_extends, sequence, sound};
use crate::substitution::{apply, lemma_apply_free_vars, lemma_apply_identity, Substitution};
use crate::visit::{
    contains_variable, free_variables, free_vars, free_vars_of_terms, lemma_free_variables,
    list_free_variables,
};
use vstd::prelude::*;

verus! {

/// No solution.
pub(crate) fn no_solutions(Ghost(env): Ghost<Seq<Variable>>) -> (r: Vec<Constraints>)
    ensures
        solutions_view(r@) == Seq::<ConstraintsView>::empty(),
        sound(r@, env),
        certain(r@),
        r@.len() == 0,
{
    let r: Vec<Constraints> = Vec::new();
    assert(solutions_view(r@) =~= Seq::empty());
    r
}

/// The one solution `c`.
pub(crate) fn one_solution(c: Constraints, Ghost(env): Ghost<Seq<Variable>>) -> (r: Vec<
    Constraints,
>)
    requires
        c.well_formed(),
        extends(c@.env, env),
    ensures
        solutions_view(r@) == seq![c@],
        sound(r@, env),
        c.known_true ==> certain(r@),
        r@.len() == 1,
{
    let mut r: Vec<Constraints> = Vec::new();
    r.push(c);
    assert(solutions_view(r@) =~= seq![c@]);
    r
}

/// The solution over `env` that binds `v` to `t` and nothing else.
pub fn single_binding(env: &Env, v: Variable, t: Term) -> (r: Constraints)
    requires
        well_formed(env@),
        v.kind == Kind::Existential,
        env@.contains(v),
        forall|w: Variable| #[trigger]
            free_vars(t@).contains(w) ==> env@.contains(w) && rank(env@, w) < rank(env@, v),
    ensures
        r@ == model::binding(env@, v, t@),
        r.well_formed(),
{
    let mut substitution = Substitution::new();
    substitution.bind(v, t);
    let r = Constraints { env: env.clone(), known_true: true, substitution };
    assert(r@.substitution =~= model::binding(env@, v, t@).substitution);
    r
}

/// The solutions of `goals`, each put after `c`: the goals are proved as `c`
/// leaves them, one level deeper. Without goals `c` is the one solution;
/// with goals and no depth left there is none.
pub fn prove_after<D: Database>(
    db: &D,
    c: &Constraints,
    assumptions: &Vec<Clause>,
    goals: &Vec<Goal>,
    depth: usize,
) -> (r: Vec<Constraints>)
    requires
        c.well_formed(),
        encloses_goals(c@.env, goals_view(goals@)),
    ensures
        solutions_view(r@) == model::prove_after(
            db,
            c@,
            clauses_view(assumptions@),
            goals_view(goals@),
            depth as nat,
        ),
        sound(r@, c@.env),
        c.known_true ==> certain(r@),
        goals.len() == 0 ==> solutions_view(r@) == seq![c@],
        goals.len() > 0 && depth == 0 ==> r@.len() == 0,
    decreases depth, 0int, 0int,
{
    reveal(model::prove_after);
    reveal(model::prove_all);
    if goals.len() == 0 {
        proof {
            lemma_extends_reflexive(c@.env);
        }
        one_solution(c.clone(), Ghost(c@.env))
    } else if depth == 0 {
        no_solutions(Ghost(c@.env))
    } else {
        let hs = c.substitution.apply_clauses(assumptions);
        let gs = c.substitution.apply_goals(goals);
        proof {
            lemma_extends_reflexive(c@.env);
            lemma_apply_goals_enclosed(c@, c@.env, goals_view(goals@));
        }
        let rs = prove_all(db, &c.env, &hs, &gs, depth - 1);
        sequence(c, &rs)
    }
}

/// Whether some pair has `v` as its first variable.
pub open spec fn paired(pairs: Seq<(Variable, Variable)>, v: Variable) -> bool {
    exists|j: int| 0 <= j < pairs.len() && (#[trigger] pairs[j]).0 == v
}

/// No variable is the first of two pairs.
pub open spec fn firsts_distinct(pairs: Seq<(Variable, Variable)>) -> bool {
    forall|i: int, j: int|
        0 <= i < j < pairs.len() ==> (#[trigger] pairs[i]).0 != (#[trigger] pairs[j]).0
}

/// How the environment `env` and the replacements `pairs` stand to the
/// environment `env0` they were made from, once the first `n` of the
/// variables `fvs` were looked at. `ux` is the universe at which the fresh
/// variables were brought in.
pub open spec fn demoted(
    env0: Seq<Variable>,
    ux: int,
    fvs: Seq<Variable>,
    n: int,
    env: Seq<Variable>,
    pairs: Seq<(Variable, Variable)>,
) -> bool {
    &&& well_formed(env)
    &&& extends(env, env0)
    &&& max_index(env) == max_index(env0) + pairs.len()
    &&& pairs.len() <= n
    &&& firsts_distinct(pairs)
    &&& forall|v: Variable| #[trigger]
        env0.contains(v) ==> env.contains(v) && rank(env, v) == (if rank(env0, v) < ux {
            rank(env0, v)
        } else {
            rank(env0, v) + pairs.len()
        })
    &&& forall|j: int|
        0 <= j < pairs.len() ==> {
            &&& env0.contains((#[trigger] pairs[j]).0)
            &&& rank(env0, pairs[j].0) > ux
            &&& !env0.contains(pairs[j].1)
            &&& env.contains(pairs[j].1)
            &&& rank(env, pairs[j].1) < ux + pairs.len()
            &&& pairs[j].1.kind == pairs[j].0.kind
        }
    &&& forall|j: int, k: int|
        0 <= j < pairs.len() && n <= k < fvs.len() ==> (#[trigger] pairs[j]).0 != #[trigger] fvs[k]
    &&& forall|k: int| 0 <= k < n ==> rank(env0, #[trigger] fvs[k]) > ux ==> paired(pairs, fvs[k])
}

/// What the maps made from the pairs bind, and to what.
pub proof fn lemma_pairs_maps(pairs: Seq<(Variable, Variable)>, n: int)
    requires
        firsts_distinct(pairs),
        0 <= n <= pairs.len(),
    ensures
        forall|v: Variable| #[trigger]
            model::renaming_upto(pairs, n).contains_key(v) <==> exists|j: int|
                0 <= j < n && (#[trigger] pairs[j]).0 == v,
        forall|j: int|
            0 <= j < n ==> model::renaming_upto(pairs, n)[(#[trigger] pairs[j]).0] == TermView::Var(
                pairs[j].1,
            ),
        forall|v: Variable| #[trigger]
            model::demotions_upto(pairs, n).contains_key(v) <==> exists|j: int|
                0 <= j < n && (#[trigger] pairs[j]).0 == v && v.kind == Kind::Existential,
        forall|j: int|
            0 <= j < n && (#[trigger] pairs[j]).0.kind == Kind::Existential
                ==> model::demotions_upto(pairs, n)[pairs[j].0] == TermView::Var(pairs[j].1),
    decreases n,
{
    if n > 0 {
        lemma_pairs_maps(pairs, n - 1);
        let r0 = model::renaming_upto(pairs, n - 1);
        let r1 = model::renaming_upto(pairs, n);
        let d0 = model::demotions_upto(pairs, n - 1);
        let d1 = model::demotions_upto(pairs, n);
        let last = pairs[n - 1];
        assert forall|v: Variable| #[trigger] r1.contains_key(v) <==> exists|j: int|
            0 <= j < n && (#[trigger] pairs[j]).0 == v by {
            if r0.contains_key(v) {
                let j = choose|j: int| 0 <= j < n - 1 && (#[trigger] pairs[j]).0 == v;
                assert(pairs[j].0 == v);
            }
            if v == last.0 {
                assert(pairs[n - 1].0 == v);
            }
        }
        assert forall|j: int| 0 <= j < n implies r1[(#[trigger] pairs[j]).0] == TermView::Var(
            pairs[j].1,
        ) by {
            if j < n - 1 {
                assert(pairs[j].0 != pairs[n - 1].0);
            }
        }
        assert forall|v: Variable| #[trigger] d1.contains_key(v) <==> exists|j: int|
            0 <= j < n && (#[trigger] pairs[j]).0 == v && v.kind == Kind::Existential by {
            if d0.contains_key(v) {
                let j = choose|j: int|
                    0 <= j < n - 1 && (#[trigger] pairs[j]).0 == v && v.kind == Kind::Existential;
                assert(pairs[j].0 == v);
            }
            if v == last.0 && v.kind == Kind::Existential {
                assert(pairs[n - 1].0 == v);
            }
        }
        assert forall|j: int|
            0 <= j < n && (#[trigger] pairs[j]).0.kind == Kind::Existential implies d1[pairs[j].0]
            == TermView::Var(pairs[j].1) by {
            if j < n - 1 {
                assert(pairs[j].0 != pairs[n - 1].0);
            }
        }
    }
}

/// Once a fresh variable could not be numbered, no later step mends it.
pub proof fn lemma_demotion_stays_failed(
    env: Seq<Variable>,
    universe_x: int,
    fvs: Seq<Variable>,
    n: int,
    m: int,
)
    requires
        0 <= n <= m <= fvs.len(),
        model::demoted_upto(env, universe_x, fvs, n) is None,
    ensures
        model::demoted_upto(env, universe_x, fvs, m) is None,
    decreases m - n,
{
    if n < m {
        lemma_demotion_stays_failed(env, universe_x, fvs, n, m - 1);
    }
}

/// The constraints that bind `x` to the renamed term, and each replaced
/// existential variable to its replacement, are valid.
pub proof fn lemma_equated_valid(
    env0: Seq<Variable>,
    x: Variable,
    p: TermView,
    fvs: Seq<Variable>,
    env: Seq<Variable>,
    pairs: Seq<(Variable, Variable)>,
)
    requires
        well_formed(env0),
        x.kind == Kind::Existential,
        env0.contains(x),
        encloses(env0, p),
        fvs == free_variables(p),
        !fvs.contains(x),
        demoted(env0, rank(env0, x), fvs, fvs.len() as int, env, pairs),
    ensures
        (ConstraintsView {
            env,
            known_true: true,
            substitution: model::demotions_upto(pairs, pairs.len() as int).insert(
                x,
                apply(model::renaming_upto(pairs, pairs.len() as int), p),
            ),
        }).valid(),
{
    let n = pairs.len() as int;
    let ux = rank(env0, x);
    let renaming = model::renaming_upto(pairs, n);
    let demotions = model::demotions_upto(pairs, n);
    let bound = apply(renaming, p);
    let m = demotions.insert(x, bound);
    let c = ConstraintsView { env, known_true: true, substitution: m };
    lemma_pairs_maps(pairs, n);
    lemma_free_variables(p);
    lemma_rank_of_member(env0, x);
    assert(rank(env, x) == ux + n);
    assert forall|v: Variable| #[trigger] m.contains_key(v) implies v.kind == Kind::Existential
        && env.contains(v) by {
        if v != x {
            let j = choose|j: int|
                0 <= j < n && (#[trigger] pairs[j]).0 == v && v.kind == Kind::Existential;
            assert(env0.contains(pairs[j].0));
        }
    }
    assert forall|v: Variable, w: Variable|
        m.contains_key(v) && #[trigger] free_vars(m[v]).contains(w) implies env.contains(w)
        && rank(env, w) < rank(env, v) && !m.contains_key(w) by {
        if v == x {
            lemma_apply_free_vars(renaming, p);
            if free_vars(p).contains(w) && !renaming.contains_key(w) {
                assert(env0.contains(w));
                assert(fvs.contains(w));
                let k = choose|k: int| 0 <= k < fvs.len() && fvs[k] == w;
                lemma_rank_of_member(env0, w);
                if rank(env0, w) > ux {
                    assert(paired(pairs, fvs[k]));
                    let j = choose|j: int| 0 <= j < pairs.len() && (#[trigger] pairs[j]).0 == w;
                    assert(pairs[j].0 == w);
                    assert(false);
                }
                assert(rank(env0, w) != ux);
                if demotions.contains_key(w) {
                    let j = choose|j: int|
                        0 <= j < n && (#[trigger] pairs[j]).0 == w && w.kind == Kind::Existential;
                    assert(pairs[j].0 == w);
                    assert(false);
                }
            } else {
                let u = choose|u: Variable|
                    free_vars(p).contains(u) && renaming.contains_key(u) && #[trigger] free_vars(
                        renaming[u],
                    ).contains(w);
                let j = choose|j: int| 0 <= j < n && (#[trigger] pairs[j]).0 == u;
                assert(renaming[pairs[j].0] == TermView::Var(pairs[j].1));
                assert(w == pairs[j].1);
                if m.contains_key(w) {
                    if w != x {
                        let i = choose|i: int|
                            0 <= i < n && (#[trigger] pairs[i]).0 == w && w.kind
                                == Kind::Existential;
                        assert(env0.contains(pairs[i].0));
                    }
                }
            }
        } else {
            let j = choose|j: int|
                0 <= j < n && (#[trigger] pairs[j]).0 == v && v.kind == Kind::Existential;
            assert(demotions[pairs[j].0] == TermView::Var(pairs[j].1));
            assert(w == pairs[j].1);
            assert(env0.contains(pairs[j].0));
            if m.contains_key(w) {
                if w != x {
                    let i = choose|i: int|
                        0 <= i < n && (#[trigger] pairs[i]).0 == w && w.kind == Kind::Existential;
                    assert(env0.contains(pairs[i].0));
                }
            }
        }
    }
}

/// The solutions that bind the existential variable `x` to the term `p`,
/// which is no variable.
///
/// If `x` occurs in `p` there is none. Otherwise each variable of `p` whose
/// universe is above that of `x` is replaced by a fresh variable of its own
/// kind, brought in just below `x`; `x` is bound to `p` so renamed, and each
/// replaced existential variable to its replacement. For each replaced
/// universal variable it remains to prove that it equals its replacement:
/// the solutions are those of these goals, put after the bindings.
///
/// Where every variable of `p` is below `x`, nothing is replaced: the one
/// solution binds `x` to `p` in the environment as it was, whatever the
/// database and the assumptions hold. Room for a fresh variable is asked for
/// only where one is made: there is no solution for want of indices only if
/// some variable of `p` is above `x` and the largest index in use, when its
/// replacement is due, is the largest there is.
pub fn equate_variable<D: Database>(
    db: &D,
    env: Env,
    assumptions: &Vec<Clause>,
    x: Variable,
    p: &Term,
    depth: usize,
) -> (r: Vec<Constraints>)
    requires
        well_formed(env@),
        x.kind == Kind::Existential,
        env@.contains(x),
        encloses(env@, p@),
        !p@.is_variable(),
    ensures
        solutions_view(r@) == model::equate_variable(
            db,
            env@,
            clauses_view(assumptions@),
            x,
            p@,
            depth as nat,
        ),
        sound(r@, env@),
        certain(r@),
        free_vars(p@).contains(x) ==> r@.len() == 0,
        (forall|w: Variable| #[trigger] free_vars(p@).contains(w) ==> rank(env@, w) < rank(env@, x))
            ==> solutions_view(r@) == seq![model::binding(env@, x, p@)],
    decreases depth, 1int, 0int,
{
    reveal(model::equate_variable);
    reveal(model::prove_after);
    let ghost env0 = env@;
    let ghost all_below = forall|w: Variable| #[trigger]
        free_vars(p@).contains(w) ==> rank(env0, w) < rank(env0, x);
    let fvs = list_free_variables(p);
    if contains_variable(&fvs, x) {
        proof {
            lemma_free_variables(p@);
            assert(free_vars(p@).contains(x));
        }
        return no_solutions(Ghost(env0));
    }
    let universe_x = env.universe(x);
    proof {
        lemma_free_variables(p@);
        assert forall|k: int| 0 <= k < fvs.len() implies env0.contains(#[trigger] fvs[k])
            && free_vars(p@).contains(fvs[k]) by {
            assert(fvs@.contains(fvs[k]));
            assert(free_vars(p@).contains(fvs[k]));
        }
    }
    let mut inner = env;
    let mut pairs: Vec<(Variable, Variable)> = Vec::new();
    let mut i: usize = 0;
    proof {
        lemma_extends_reflexive(env0);
        lemma_rank_of_member(env0, x);
    }
    while i < fvs.len()
        invariant
            0 <= i <= fvs.len(),
            well_formed(env0),
            env0.contains(x),
            universe_x == rank(env0, x),
            env0 == env@,
            fvs@ == free_variables(p@),
            fvs@.no_duplicates(),
            !fvs@.contains(x),
            forall|k: int| 0 <= k < fvs.len() ==> env0.contains(#[trigger] fvs[k]),
            forall|k: int| 0 <= k < fvs.len() ==> free_vars(p@).contains(#[trigger] fvs[k]),
            all_below == (forall|w: Variable| #[trigger]
                free_vars(p@).contains(w) ==> rank(env0, w) < rank(env0, x)),
            all_below ==> pairs@.len() == 0 && inner@ == env0,
            demoted(env0, universe_x as int, fvs@, i as int, inner@, pairs@),
            model::demoted_upto(env0, universe_x as int, fvs@, i as int) == Some((inner@, pairs@)),
        decreases fvs.len() - i,
    {
        let fv = fvs[i];
        let ghost before = inner@;
        let ghost pairs_before = pairs@;
        proof {
            lemma_rank_of_member(env0, fv);
            lemma_rank_of_member(env0, x);
            assert(fvs@.contains(fvs[i as int]));
            assert(fv != x);
            assert(rank(env0, fv) != rank(env0, x));
        }
        if universe_x < inner.universe(fv) {
            proof {
                if all_below {
                    assert(free_vars(p@).contains(fvs[i as int]));
                    assert(false);
                }
            }
            if !inner.has_room(1) {
                proof {
                    reveal(model::equate_variable);
                    assert(model::demoted_upto(env0, universe_x as int, fvs@, i + 1) is None);
                    lemma_demotion_stays_failed(
                        env0,
                        universe_x as int,
                        fvs@,
                        i + 1,
                        fvs@.len() as int,
                    );
                }
                return no_solutions(Ghost(env0));
            }
            let y = inner.insert_fresh_before(fv.kind, universe_x);
            pairs.push((fv, y));
            proof {
                lemma_insert(before, universe_x as int, y);
                let after = inner@;
                let ps = pairs@;
                assert forall|v: Variable| #[trigger] env0.contains(v) implies after.contains(v)
                    && rank(after, v) == (if rank(env0, v) < universe_x {
                    rank(env0, v)
                } else {
                    rank(env0, v) + ps.len()
                }) by {
                    assert(before.contains(v));
                }
                assert forall|j: int| 0 <= j < ps.len() implies {
                    &&& env0.contains((#[trigger] ps[j]).0)
                    &&& rank(env0, ps[j].0) > universe_x
                    &&& !env0.contains(ps[j].1)
                    &&& after.contains(ps[j].1)
                    &&& rank(after, ps[j].1) < universe_x + ps.len()
                    &&& ps[j].1.kind == ps[j].0.kind
                } by {
                    if j < pairs_before.len() {
                        assert(ps[j] == pairs_before[j]);
                        assert(before.contains(pairs_before[j].1));
                    } else {
                        if env0.contains(y) {
                            assert(before.contains(y));
                        }
                    }
                }
                assert(firsts_distinct(ps)) by {
                    assert forall|a: int, b: int| 0 <= a < b < ps.len() implies (#[trigger] ps[a]).0
                        != (#[trigger] ps[b]).0 by {
                        if b < pairs_before.len() {
                            assert(ps[a] == pairs_before[a] && ps[b] == pairs_before[b]);
                        } else {
                            assert(ps[a] == pairs_before[a]);
                            assert(pairs_before[a].0 != fvs[i as int]);
                        }
                    }
                }
                assert forall|j: int, k: int|
                    0 <= j < ps.len() && i + 1 <= k < fvs.len() implies (#[trigger] ps[j]).0
                    != #[trigger] fvs[k] by {
                    if j < pairs_before.len() {
                        assert(ps[j] == pairs_before[j]);
                    }
                }
                assert forall|k: int| 0 <= k < i + 1 && rank(env0, #[trigger] fvs[k])
                    > universe_x implies paired(ps, fvs[k]) by {
                    if k < i {
                        assert(paired(pairs_before, fvs[k]));
                        let j = choose|j: int|
                            0 <= j < pairs_before.len() && (#[trigger] pairs_before[j]).0 == fvs[k];
                        assert(ps[j].0 == fvs[k]);
                    } else {
                        assert(ps[ps.len() - 1].0 == fvs[k]);
                    }
                }
            }
        } else {
            proof {
                assert forall|k: int| 0 <= k < i + 1 && rank(env0, #[trigger] fvs[k])
                    > universe_x implies paired(pairs@, fvs[k]) by {
                    if k == i {
                        assert(false);
                    }
                }
            }
        }
        i += 1;
    }
    let mut renaming = Substitution::new();
    let mut substitution = Substitution::new();
    let mut obligations: Vec<Goal> = Vec::new();
    let mut j: usize = 0;
    assert(goals_view(obligations@) =~= Seq::empty());
    while j < pairs.len()
        invariant
            0 <= j <= pairs.len(),
            firsts_distinct(pairs@),
            all_below ==> pairs@.len() == 0 && inner@ == env0,
            renaming.well_formed(),
            substitution.well_formed(),
            renaming@ == model::renaming_upto(pairs@, j as int),
            substitution@ == model::demotions_upto(pairs@, j as int),
            goals_view(obligations@) == model::obligations_upto(pairs@, j as int),
            forall|k: int|
                0 <= k < pairs.len() ==> inner@.contains((#[trigger] pairs[k]).0)
                    && inner@.contains(pairs[k].1),
            encloses_goals(inner@, goals_view(obligations@)),
        decreases pairs.len() - j,
    {
        let fv = pairs[j].0;
        let y = pairs[j].1;
        proof {
            lemma_pairs_maps(pairs@, j as int);
            if renaming@.contains_key(fv) {
                let k = choose|k: int| 0 <= k < j && (#[trigger] pairs@[k]).0 == fv;
                assert(pairs@[k].0 != pairs@[j as int].0);
            }
            if substitution@.contains_key(fv) {
                let k = choose|k: int|
                    0 <= k < j && (#[trigger] pairs@[k]).0 == fv && fv.kind == Kind::Existential;
                assert(pairs@[k].0 != pairs@[j as int].0);
            }
        }
        renaming.bind(fv, Term::Var(y));
        if fv.kind == Kind::Existential {
            substitution.bind(fv, Term::Var(y));
        } else if fv.kind == Kind::Universal {
            let ghost before = goals_view(obligations@);
            let goal = Goal::eq(Term::Var(fv), Term::Var(y));
            obligations.push(goal);
            proof {
                let after = goals_view(obligations@);
                assert(after =~= before.push(GoalView::eq(TermView::Var(fv), TermView::Var(y))));
                assert forall|k: int| 0 <= k < after.len() implies encloses_terms(
                    inner@,
                    (#[trigger] after[k]).terms,
                ) by {
                    if k < before.len() {
                        assert(after[k] == before[k]);
                    } else {
                        assert(inner@.contains(pairs[j as int].0));
                        assert(inner@.contains(pairs[j as int].1));
                    }
                }
            }
        }
        j += 1;
    }
    proof {
        lemma_pairs_maps(pairs@, pairs@.len() as int);
        lemma_free_variables(p@);
        if substitution@.contains_key(x) {
            let k = choose|k: int|
                0 <= k < pairs@.len() && (#[trigger] pairs@[k]).0 == x && x.kind
                    == Kind::Existential;
            assert(pairs@[k].0 == x);
            assert(rank(env0, pairs@[k].0) > rank(env0, x));
        }
        lemma_equated_valid(env0, x, p@, fvs@, inner@, pairs@);
    }
    let bound = renaming.apply(p);
    substitution.bind(x, bound);
    let c = Constraints { env: inner, known_true: true, substitution };
    proof {
        if all_below {
            lemma_apply_identity(renaming@, p@);
            assert(c@.substitution =~= model::binding(env0, x, p@).substitution);
            assert(goals_view(obligations@).len() == 0);
        }
    }
    let r = prove_after(db, &c, assumptions, &obligations, depth);
    proof {
        lemma_sound_extends(r@, c@.env, env0);
    }
    r
}

/// The solutions that make the existential variable `v` equal to `t`.
///
/// A term that is no variable is handed to [`equate_variable`]. Of two
/// existential variables the one of higher universe is bound to the other. A
/// universal variable is what `v` is bound to if its universe is below that
/// of `v`; if not, there is no solution.
pub fn prove_existential_var_eq<D: Database>(
    db: &D,
    env: &Env,
    assumptions: &Vec<Clause>,
    v: Variable,
    t: &Term,
    depth: usize,
) -> (r: Vec<Constraints>)
    requires
        well_formed(env@),
        v.kind == Kind::Existential,
        env@.contains(v),
        encloses(env@, t@),
    ensures
        solutions_view(r@) == model::prove_existential_var_eq(
            db,
            env@,
            clauses_view(assumptions@),
            v,
            t@,
            depth as nat,
        ),
        sound(r@, env@),
        certain(r@),
        t@ matches TermView::Var(w) && w.kind == Kind::Universal && rank(env@, w) >= rank(env@, v)
            ==> r@.len() == 0,
        t@ matches TermView::Var(w) && w.kind == Kind::Universal && rank(env@, w) < rank(env@, v)
            ==> solutions_view(r@) == seq![model::binding(env@, v, t@)],
        t@ is Var && t@->Var_0.kind == Kind::Existential && t@->Var_0 != v ==> solutions_view(r@)
            == seq![
            if rank(env@, v) < rank(env@, t@->Var_0) {
                model::binding(env@, t@->Var_0, TermView::Var(v))
            } else {
                model::binding(env@, v, t@)
            },
        ],
    decreases depth, 2int, 0int,
{
    reveal(model::prove_existential_var_eq);
    reveal(model::equate_variable);
    proof {
        lemma_extends_reflexive(env@);
    }
    match t {
        Term::Var(w) => {
            let w = *w;
            proof {
                assert(free_vars(t@).contains(w));
                lemma_rank_of_member(env@, v);
                lemma_rank_of_member(env@, w);
            }
            if w == v {
                one_solution(Constraints::none(env.clone()), Ghost(env@))
            } else if w.kind == Kind::Existential {
                let (lower, higher) = env.order_by_universe(v, w);
                one_solution(single_binding(env, higher, Term::Var(lower)), Ghost(env@))
            } else if w.kind == Kind::Universal && env.universe(w) < env.universe(v) {
                one_solution(single_binding(env, v, Term::Var(w)), Ghost(env@))
            } else {
                no_solutions(Ghost(env@))
            }
        },
        _ => equate_variable(db, env.clone(), assumptions, v, t, depth),
    }
}

/// The solutions that make the terms of `a_s` equal to those of `b_s`, one
/// by one, from the left. Lists of different lengths have none.
pub fn prove_all_eq<D: Database>(
    db: &D,
    env: &Env,
    assumptions: &Vec<Clause>,
    a_s: &Vec<Term>,
    b_s: &Vec<Term>,
    depth: usize,
) -> (r: Vec<Constraints>)
    requires
        well_formed(env@),
        encloses_terms(env@, terms_view(a_s@)),
        encloses_terms(env@, terms_view(b_s@)),
    ensures
        solutions_view(r@) == model::prove_all_eq(
            db,
            env@,
            clauses_view(assumptions@),
            terms_view(a_s@),
            terms_view(b_s@),
            depth as nat,
        ),
        sound(r@, env@),
        certain(r@),
        a_s.len() != b_s.len() ==> r@.len() == 0,
    decreases depth, 1int, 0int,
{
    reveal(model::prove_all_eq);
    reveal(model::prove_after);
    proof {
        lemma_extends_reflexive(env@);
    }
    if terms_eq(a_s, b_s) {
        assert(terms_view(a_s@).len() == a_s.len() && terms_view(b_s@).len() == b_s.len());
        one_solution(Constraints::none(env.clone()), Ghost(env@))
    } else if a_s.len() != b_s.len() {
        no_solutions(Ghost(env@))
    } else {
        let goals = Goal::all_eq(a_s, b_s);
        proof {
            lemma_all_eq_enclosed(env@, terms_view(a_s@), terms_view(b_s@));
        }
        prove_after(db, &Constraints::none(env.clone()), assumptions, &goals, depth)
    }
}

/// Equations between terms in scope are in scope.
pub proof fn lemma_all_eq_enclosed(env: Seq<Variable>, a_s: Seq<TermView>, b_s: Seq<TermView>)
    requires
        encloses_terms(env, a_s),
        encloses_terms(env, b_s),
    ensures
        encloses_goals(env, GoalView::all_eq(a_s, b_s)),
{
    let gs = GoalView::all_eq(a_s, b_s);
    assert forall|i: int| 0 <= i < gs.len() implies encloses_terms(
        env,
        (#[trigger] gs[i]).terms,
    ) by {
        let ts = gs[i].terms;
        assert forall|k: int| 0 <= k < ts.len() implies encloses(env, #[trigger] ts[k]) by {
            assert(encloses(env, a_s[i]));
            assert(encloses(env, b_s[i]));
        }
    }
}

/// Terms all of whose variables are in scope are each in scope.
pub proof fn lemma_terms_enclosed(env: Seq<Variable>, ts: Seq<TermView>)
    requires
        forall|v: Variable| #[trigger] free_vars_of_terms(ts).contains(v) ==> env.contains(v),
    ensures
        encloses_terms(env, ts),
{
    assert forall|i: int| 0 <= i < ts.len() implies encloses(env, #[trigger] ts[i]) by {
        assert forall|v: Variable| #[trigger] free_vars(ts[i]).contains(v) implies env.contains(
            v,
        ) by {
            assert(free_vars_of_terms(ts).contains(v));
        }
    }
}

/// The parameters of a term in scope are in scope.
pub proof fn lemma_parameters_enclosed(env: Seq<Variable>, t: TermView)
    requires
        encloses(env, t),
    ensures
        t matches TermView::Rigid { name, parameters } ==> encloses_terms(env, parameters),
        t matches TermView::Alias { name, parameters } ==> encloses_terms(env, parameters),
{
    match t {
        TermView::Rigid { parameters, .. } | TermView::Alias { parameters, .. } => {
            assert(free_vars(t) == free_vars_of_terms(parameters));
            lemma_terms_enclosed(env, parameters);
        },
        TermView::Var(v) => {},
    }
}

/// The solutions that make `a` and `b` equal by their shape alone: two
/// applications of the same constructor, or two projections of the same
/// associated type, are equal when their parameters are; an existential
/// variable is made equal to the other term.
pub fn prove_syntactically_eq<D: Database>(
    db: &D,
    env: &Env,
    assumptions: &Vec<Clause>,
    a: &Term,
    b: &Term,
    depth: usize,
) -> (r: Vec<Constraints>)
    requires
        well_formed(env@),
        encloses(env@, a@),
        encloses(env@, b@),
    ensures
        solutions_view(r@) == model::prove_syntactically_eq(
            db,
            env@,
            clauses_view(assumptions@),
            a@,
            b@,
            depth as nat,
        ),
        sound(r@, env@),
        certain(r@),
        a@ == b@ ==> solutions_view(r@) == seq![ConstraintsView::none(env@)],
        a@ is Rigid && b@ is Rigid && (a@->Rigid_name != b@->Rigid_name
            || a@->Rigid_parameters.len() != b@->Rigid_parameters.len()) ==> r@.len() == 0,
        a@ is Alias && b@ is Alias && (a@->Alias_name != b@->Alias_name
            || a@->Alias_parameters.len() != b@->Alias_parameters.len()) ==> r@.len() == 0,
        (a@ is Rigid && b@ is Alias) || (a@ is Alias && b@ is Rigid) ==> r@.len() == 0,
    decreases depth, 3int, 0int,
{
    reveal(model::prove_syntactically_eq);
    reveal(model::prove_all_eq);
    reveal(model::prove_existential_var_eq);
    proof {
        lemma_extends_reflexive(env@);
        lemma_parameters_enclosed(env@, a@);
        lemma_parameters_enclosed(env@, b@);
    }
    if term_eq(a, b) {
        return one_solution(Constraints::none(env.clone()), Ghost(env@));
    }
    match (a, b) {
        (
            Term::Rigid { name: a_name, parameters: a_parameters },
            Term::Rigid { name: b_name, parameters: b_parameters },
        ) => {
            if *a_name == *b_name {
                prove_all_eq(db, env, assumptions, a_parameters, b_parameters, depth)
            } else {
                no_solutions(Ghost(env@))
            }
        },
        (
            Term::Alias { name: a_name, parameters: a_parameters },
            Term::Alias { name: b_name, parameters: b_parameters },
        ) => {
            if *a_name == *b_name {
                prove_all_eq(db, env, assumptions, a_parameters, b_parameters, depth)
            } else {
                no_solutions(Ghost(env@))
            }
        },
        (Term::Var(v), _) => {
            proof {
                assert(free_vars(a@).contains(*v));
            }
            if v.kind == Kind::Existential {
                prove_existential_var_eq(db, env, assumptions, *v, b, depth)
            } else {
                match b {
                    Term::Var(w) => {
                        proof {
                            assert(free_vars(b@).contains(*w));
                        }
                        if w.kind == Kind::Existential {
                            prove_existential_var_eq(db, env, assumptions, *w, a, depth)
                        } else {
                            no_solutions(Ghost(env@))
                        }
                    },
                    _ => no_solutions(Ghost(env@)),
                }
            }
        },
        (_, Term::Var(w)) => {
            proof {
                assert(free_vars(b@).contains(*w));
            }
            if w.kind == Kind::Existential {
                prove_existential_var_eq(db, env, assumptions, *w, a, depth)
            } else {
                no_solutions(Ghost(env@))
            }
        },
        _ => no_solutions(Ghost(env@)),
    }
}

/// The solutions that make `other` equal to one of the values `ns`, each
/// under the solution that gave the value.
fn retry<D: Database>(
    db: &D,
    env: &Env,
    assumptions: &Vec<Clause>,
    ns: &Vec<Normalized>,
    other: &Term,
    flipped: bool,
    depth: usize,
) -> (r: Vec<Constraints>)
    requires
        well_formed(env@),
        encloses(env@, other@),
        sound_values(ns@, env@),
    ensures
        solutions_view(r@) == model::retry_upto(
            db,
            clauses_view(assumptions@),
            normalized_view(ns@),
            other@,
            flipped,
            depth as nat,
            ns.len() as int,
        ),
        sound(r@, env@),
        certain(r@),
    decreases depth, 1int, 1int,
{
    reveal(model::retry_upto);
    reveal(model::prove_after);
    let mut acc = no_solutions(Ghost(env@));
    let mut n: usize = 0;
    while n < ns.len()
        invariant
            0 <= n <= ns.len(),
            well_formed(env@),
            encloses(env@, other@),
            sound_values(ns@, env@),
            sound(acc@, env@),
            certain(acc@),
            solutions_view(acc@) == model::retry_upto(
                db,
                clauses_view(assumptions@),
                normalized_view(ns@),
                other@,
                flipped,
                depth as nat,
                n as int,
            ),
        decreases ns.len() - n,
    {
        reveal(model::retry_upto);
        reveal(model::prove_after);
        let c = &ns[n].constraints;
        let goal = if flipped {
            Goal::eq(clone_term(other), clone_term(&ns[n].value))
        } else {
            Goal::eq(clone_term(&ns[n].value), clone_term(other))
        };
        let mut goals: Vec<Goal> = Vec::new();
        goals.push(goal);
        proof {
            assert(normalized_view(ns@)[n as int] == ns[n as int]@);
            assert(goals_view(goals@) =~= seq![goal@]);
            lemma_encloses_extends(c@.env, env@, other@);
            assert forall|i: int| 0 <= i < goals_view(goals@).len() implies encloses_terms(
                c@.env,
                (#[trigger] goals_view(goals@)[i]).terms,
            ) by {
                let ts = goals_view(goals@)[i].terms;
                assert forall|k: int| 0 <= k < ts.len() implies encloses(
                    c@.env,
                    #[trigger] ts[k],
                ) by {}
            }
        }
        let rs = prove_after(db, c, assumptions, &goals, depth);
        proof {
            lemma_sound_extends(rs@, c@.env, env@);
        }
        append_unique(&mut acc, &rs, Ghost(env@));
        n += 1;
    }
    acc
}

/// The solutions that make `a` and `b` equal.
///
/// The same term twice has the one solution that binds nothing. Otherwise
/// the solutions are those by shape, those found by first reducing `a` to a
/// value and making the value equal to `b`, and those found by first reducing
/// `b`; each once.
pub fn prove_eq<D: Database>(
    db: &D,
    env: &Env,
    assumptions: &Vec<Clause>,
    a: &Term,
    b: &Term,
    depth: usize,
) -> (r: Vec<Constraints>)
    requires
        well_formed(env@),
        encloses(env@, a@),
        encloses(env@, b@),
    ensures
        solutions_view(r@) == model::prove_eq(
            db,
            env@,
            clauses_view(assumptions@),
            a@,
            b@,
            depth as nat,
        ),
        sound(r@, env@),
        certain(r@),
        a@ == b@ ==> solutions_view(r@) == seq![ConstraintsView::none(env@)],
    decreases depth, 4int, 0int,
{
    reveal(model::prove_eq);
    reveal(model::prove_syntactically_eq);
    reveal(model::prove_normalize);
    reveal(model::retry_upto);
    if term_eq(a, b) {
        proof {
            lemma_extends_reflexive(env@);
        }
        return one_solution(Constraints::none(env.clone()), Ghost(env@));
    }
    let mut out = prove_syntactically_eq(db, env, assumptions, a, b, depth);
    let left = prove_normalize(db, env, assumptions, a, depth);
    let by_left = retry(db, env, assumptions, &left, b, false, depth);
    append_unique(&mut out, &by_left, Ghost(env@));
    let right = prove_normalize(db, env, assumptions, b, depth);
    let by_right = retry(db, env, assumptions, &right, a, true, depth);
    append_unique(&mut out, &by_right, Ghost(env@));
    out
}

} // verus!
