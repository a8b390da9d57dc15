//! Clauses chained to any depth: what the search finds of the example
//! program's interface for a constructor nested any number of times.
use crate::constraints::ConstraintsView;
use crate::db::{example_impls, Database, DEBUG, U32, VEC};
use crate::env::{
    encloses, encloses_goals, encloses_terms, fresh_variable, has_room, lemma_fresh_is_new,
    lemma_max_index, lemma_max_index_is, lemma_push, max_index, rank, well_formed, with_fresh,
};
use crate::grammar::{ClauseView, GoalView, Kind, Shape, TermView, Variable};
use crate::model;
use crate::solutions::{
    insert_unique, pop, pop_all_upto, seq_all, seq_all_upto, union, union_upto,
};
use crate::substitution::{
    apply, apply_clauses, apply_goal, apply_goals, apply_terms, lemma_apply_identity,
    lemma_apply_identity_terms,
};
use crate::visit::{free_variables, free_vars, free_vars_of_terms, lemma_free_variables};
use vstd::prelude::*;

verus! {

/// The solution that binds nothing, alone.
pub open spec fn trivially(env: Seq<Variable>) -> Seq<ConstraintsView> {
    seq![ConstraintsView::none(env)]
}

/// No clause at all.
pub open spec fn no_clauses() -> Seq<ClauseView> {
    Seq::empty()
}

proof fn lemma_union_nothing<A>(s: Seq<A>)
    ensures
        union(s, Seq::<A>::empty()) == s,
{
}

proof fn lemma_union_one<A>(x: A)
    ensures
        union(Seq::<A>::empty(), seq![x]) == seq![x],
{
    let e = Seq::<A>::empty();
    assert(union_upto(e, seq![x], 0) == e);
    assert(!e.contains(x));
    assert(e.push(x) =~= seq![x]);
    assert(union_upto(e, seq![x], 1) == insert_unique(union_upto(e, seq![x], 0), seq![x][0]));
}

proof fn lemma_seq_all_nothing(c: ConstraintsView)
    ensures
        seq_all(c, Seq::empty()) == Seq::<ConstraintsView>::empty(),
{
}

proof fn lemma_seq_all_one(c: ConstraintsView, r: ConstraintsView)
    requires
        c.admits(r),
    ensures
        seq_all(c, seq![r]) == seq![c.seq(r)],
{
    let e = Seq::<ConstraintsView>::empty();
    assert(seq_all_upto(c, seq![r], 0) == e);
    assert(!e.contains(c.seq(r)));
    assert(e.push(c.seq(r)) =~= seq![c.seq(r)]);
    assert(seq_all_upto(c, seq![r], 1) == insert_unique(e, c.seq(seq![r][0])));
}

proof fn lemma_apply_nothing(g: GoalView)
    ensures
        apply_goal(Map::empty(), g) == g,
        apply_goals(Map::empty(), seq![g]) == seq![g],
        forall|m: Map<Variable, TermView>| #[trigger]
            apply_clauses(m, no_clauses()) == no_clauses(),
{
    lemma_apply_identity_terms(Map::empty(), g.terms);
    assert(apply_goals(Map::empty(), seq![g]) =~= seq![g]);
    assert forall|m: Map<Variable, TermView>| #[trigger]
        apply_clauses(m, no_clauses()) == no_clauses() by {
        assert(apply_clauses(m, no_clauses()) =~= no_clauses());
    }
}

/// Nothing followed by a solution is that solution.
proof fn lemma_after_nothing(env: Seq<Variable>, r: ConstraintsView)
    requires
        r.known_true,
    ensures
        ConstraintsView::none(env).admits(r),
        ConstraintsView::none(env).seq(r) == r,
{
    let c = ConstraintsView::none(env).seq(r);
    assert(c.substitution =~= r.substitution);
}

/// A solution followed by nothing is that solution.
proof fn lemma_before_nothing(c: ConstraintsView)
    requires
        c.known_true,
    ensures
        c.admits(ConstraintsView::none(c.env)),
        c.seq(ConstraintsView::none(c.env)) == c,
{
    let both = c.seq(ConstraintsView::none(c.env));
    assert forall|v: Variable| c.substitution.contains_key(v) implies apply(
        Map::empty(),
        #[trigger] c.substitution[v],
    ) == c.substitution[v] by {
        lemma_apply_identity(Map::empty(), c.substitution[v]);
    }
    assert(both.substitution =~= c.substitution);
}

/// One goal alone is proved as the goal is.
proof fn lemma_one_goal<D: Database>(db: &D, env: Seq<Variable>, g: GoalView, d: nat)
    ensures
        model::prove_all(db, env, no_clauses(), seq![g], d) == union(
            Seq::<ConstraintsView>::empty(),
            seq_all(ConstraintsView::none(env), model::prove_goal(db, env, no_clauses(), g, d)),
        ),
{
    reveal(model::prove_all);
    reveal(model::prove_all_upto);
    reveal(model::prove_next_upto);
    reveal(model::prove_goal);
    let none = ConstraintsView::none(env);
    let goals = seq![g];
    let found = model::prove_goal(db, env, no_clauses(), g, d);
    let acc = model::prove_all_upto(db, env, no_clauses(), goals, d, 0);
    assert(acc == seq![none]);
    lemma_apply_nothing(g);
    let step = seq_all(none, found);
    assert(model::prove_next_upto(db, no_clauses(), g, d, acc, 0) == Seq::<
        ConstraintsView,
    >::empty());
    assert(model::prove_next_upto(db, no_clauses(), g, d, acc, 1) == union(
        Seq::<ConstraintsView>::empty(),
        step,
    ));
    assert(model::prove_all_upto(db, env, no_clauses(), goals, d, 1) == model::prove_next_upto(
        db,
        no_clauses(),
        g,
        d,
        acc,
        1,
    ));
}

/// One goal alone has no solution if the goal has none.
proof fn lemma_one_goal_fails<D: Database>(db: &D, env: Seq<Variable>, g: GoalView, d: nat)
    requires
        model::prove_goal(db, env, no_clauses(), g, d) == Seq::<ConstraintsView>::empty(),
    ensures
        model::prove_all(db, env, no_clauses(), seq![g], d) == Seq::<ConstraintsView>::empty(),
{
    lemma_one_goal(db, env, g, d);
    lemma_seq_all_nothing(ConstraintsView::none(env));
    lemma_union_nothing(Seq::<ConstraintsView>::empty());
}

/// One goal alone has the one solution that the goal has.
proof fn lemma_one_goal_holds<D: Database>(
    db: &D,
    env: Seq<Variable>,
    g: GoalView,
    d: nat,
    x: ConstraintsView,
)
    requires
        x.known_true,
        model::prove_goal(db, env, no_clauses(), g, d) == seq![x],
    ensures
        model::prove_all(db, env, no_clauses(), seq![g], d) == seq![x],
{
    lemma_one_goal(db, env, g, d);
    lemma_after_nothing(env, x);
    lemma_seq_all_one(ConstraintsView::none(env), x);
    lemma_union_one(x);
}

/// The constructor of the example program, applied to `t`.
pub open spec fn vec_of(t: TermView) -> TermView {
    TermView::Rigid { name: VEC, parameters: seq![t] }
}

/// The type without parameters of the example program.
pub open spec fn u32_ty() -> TermView {
    TermView::Rigid { name: U32, parameters: Seq::empty() }
}

/// No variable occurs in `t`.
pub open spec fn ground(t: TermView) -> bool {
    forall|v: Variable| !(#[trigger] free_vars(t).contains(v))
}

/// The database answers as the example program does: for the example's
/// interface with its two clauses, with no invariant for any shape, and with
/// no clause for any associated type.
pub open spec fn is_example<D: Database>(db: &D) -> bool {
    &&& db.clauses_of(Shape::Implemented(DEBUG)) == example_impls()
    &&& forall|shape: Shape| #[trigger] db.invariants_of(shape) == no_clauses()
    &&& forall|name: u64| #[trigger] db.clauses_of(Shape::NormalizesTo(name)) == no_clauses()
}

/// Of the example program, no term is reduced to a value.
proof fn lemma_no_normalization<D: Database>(db: &D, env: Seq<Variable>, t: TermView, d: nat)
    requires
        is_example(db),
    ensures
        model::prove_normalize(db, env, no_clauses(), t, d) == Seq::<
            model::NormalizedView,
        >::empty(),
{
    reveal(model::prove_normalize);
    reveal(model::normalize_via_upto);
    match t {
        TermView::Alias { name, parameters } => {
            let shape = Shape::NormalizesTo(name);
            assert(db.invariants_of(shape) == no_clauses());
            assert(db.clauses_of(shape) == no_clauses());
            lemma_union_nothing(no_clauses());
            assert(model::context(db, no_clauses(), shape) == no_clauses());
            assert(model::elaborated_upto(db, no_clauses(), 0) == no_clauses());
            assert(model::candidates(db, no_clauses(), shape) =~= no_clauses());
        },
        _ => {},
    }
}

/// Under no assumptions, an equation of two different terms is proved by
/// making the terms equal.
proof fn lemma_goal_is_eq<D: Database>(
    db: &D,
    env: Seq<Variable>,
    a: TermView,
    b: TermView,
    d: nat,
)
    requires
        a != b,
    ensures
        model::prove_goal(db, env, no_clauses(), GoalView::eq(a, b), d) == model::prove_eq(
            db,
            env,
            no_clauses(),
            a,
            b,
            d,
        ),
{
    reveal(model::prove_goal);
    reveal(model::prove_via_upto);
    reveal(model::prove_eq);
    let g = GoalView::eq(a, b);
    assert(g.terms[0] == a && g.terms[1] == b);
    assert(model::context(db, no_clauses(), Shape::Equals) == no_clauses());
    assert(model::elaborated_upto(db, no_clauses(), 0) == no_clauses());
    assert(model::candidates(db, no_clauses(), Shape::Equals) == no_clauses());
    lemma_union_nothing(model::prove_eq(db, env, no_clauses(), a, b, d));
}

/// Of the example program, two different terms are equal by shape or not at
/// all.
proof fn lemma_eq_by_shape<D: Database>(
    db: &D,
    env: Seq<Variable>,
    a: TermView,
    b: TermView,
    d: nat,
)
    requires
        is_example(db),
        a != b,
    ensures
        model::prove_eq(db, env, no_clauses(), a, b, d) == model::prove_syntactically_eq(
            db,
            env,
            no_clauses(),
            a,
            b,
            d,
        ),
{
    reveal(model::prove_eq);
    reveal(model::retry_upto);
    reveal(model::prove_syntactically_eq);
    reveal(model::prove_normalize);
    lemma_no_normalization(db, env, a, d);
    lemma_no_normalization(db, env, b, d);
    let by_shape = model::prove_syntactically_eq(db, env, no_clauses(), a, b, d);
    lemma_union_nothing(by_shape);
}

/// Of the example program, two terms that are no variables are not equal if
/// they differ in shape, in constructor or in the number of their
/// parameters.
proof fn lemma_mismatch<D: Database>(db: &D, env: Seq<Variable>, a: TermView, b: TermView, d: nat)
    requires
        is_example(db),
        !(a is Var),
        !(b is Var),
        (a is Rigid && b is Alias) || (a is Alias && b is Rigid) || (a is Rigid && b is Rigid && (
            a->Rigid_name != b->Rigid_name || a->Rigid_parameters.len()
                != b->Rigid_parameters.len())),
    ensures
        model::prove_goal(db, env, no_clauses(), GoalView::eq(a, b), d) == Seq::<
            ConstraintsView,
        >::empty(),
{
    lemma_goal_is_eq(db, env, a, b, d);
    lemma_eq_by_shape(db, env, a, b, d);
    reveal(model::prove_syntactically_eq);
    reveal(model::prove_all_eq);
}

/// An existential variable is made equal to a term without variables by
/// binding it to the term.
proof fn lemma_bind_ground<D: Database>(
    db: &D,
    env: Seq<Variable>,
    y: Variable,
    t: TermView,
    d: nat,
)
    requires
        is_example(db),
        y.kind == Kind::Existential,
        !(t is Var),
        ground(t),
    ensures
        model::prove_goal(db, env, no_clauses(), GoalView::eq(TermView::Var(y), t), d) == seq![
            model::binding(env, y, t),
        ],
{
    let a = TermView::Var(y);
    lemma_goal_is_eq(db, env, a, t, d);
    lemma_eq_by_shape(db, env, a, t, d);
    reveal(model::prove_syntactically_eq);
    reveal(model::prove_existential_var_eq);
    reveal(model::equate_variable);
    reveal(model::prove_after);
    let fvs = free_variables(t);
    lemma_free_variables(t);
    if fvs.len() > 0 {
        assert(fvs.contains(fvs[0]));
        assert(free_vars(t).contains(fvs[0]));
    }
    assert(!fvs.contains(y));
    assert(model::demoted_upto(env, rank(env, y), fvs, 0) == Some(
        (env, Seq::<(Variable, Variable)>::empty()),
    ));
    let pairs = Seq::<(Variable, Variable)>::empty();
    lemma_apply_identity(model::renaming_upto(pairs, 0), t);
    assert(model::obligations_upto(pairs, 0).len() == 0);
    assert(model::demotions_upto(pairs, 0).insert(y, t) == model::binding(env, y, t).substitution);
}

/// The constructor applied to an existential variable is made equal to the
/// constructor applied to a term without variables by binding the variable to
/// the term.
proof fn lemma_unify_vec<D: Database>(
    db: &D,
    env: Seq<Variable>,
    y: Variable,
    t: TermView,
    d: nat,
)
    requires
        is_example(db),
        y.kind == Kind::Existential,
        !(t is Var),
        ground(t),
        d >= 1,
    ensures
        model::prove_goal(
            db,
            env,
            no_clauses(),
            GoalView::eq(vec_of(TermView::Var(y)), vec_of(t)),
            d,
        ) == seq![model::binding(env, y, t)],
{
    let var = TermView::Var(y);
    let a = vec_of(var);
    let b = vec_of(t);
    let bound = model::binding(env, y, t);
    let none = ConstraintsView::none(env);
    assert(a->Rigid_parameters[0] != b->Rigid_parameters[0]);
    lemma_goal_is_eq(db, env, a, b, d);
    lemma_eq_by_shape(db, env, a, b, d);
    reveal(model::prove_syntactically_eq);
    reveal(model::prove_all_eq);
    reveal(model::prove_after);
    reveal(model::prove_all);
    let goal = GoalView::eq(var, t);
    assert(seq![var][0] != seq![t][0]);
    assert(GoalView::all_eq(seq![var], seq![t]) =~= seq![goal]);
    lemma_apply_nothing(goal);
    lemma_bind_ground(db, env, y, t, (d - 1) as nat);
    lemma_one_goal_holds(db, env, goal, (d - 1) as nat, bound);
    lemma_after_nothing(env, bound);
    lemma_seq_all_one(none, bound);
}

/// The goal that the example program's interface is implemented for `t`.
pub open spec fn debug_of(t: TermView) -> GoalView {
    GoalView { shape: Shape::Implemented(DEBUG), terms: seq![t] }
}

/// The constructor nested `n` times around the type without parameters.
pub open spec fn nested(n: nat) -> TermView
    decreases n,
{
    if n == 0 {
        u32_ty()
    } else {
        vec_of(nested((n - 1) as nat))
    }
}

proof fn lemma_ground_shapes(t: TermView)
    ensures
        ground(u32_ty()),
        ground(t) ==> ground(vec_of(t)),
        forall|y: Variable, v: Variable| #[trigger]
            free_vars(vec_of(TermView::Var(y))).contains(v) ==> v == y,
{
    assert forall|v: Variable| !(#[trigger] free_vars(u32_ty()).contains(v)) by {
        assert(free_vars(u32_ty()) == free_vars_of_terms(Seq::<TermView>::empty()));
    }
    if ground(t) {
        assert forall|v: Variable| !(#[trigger] free_vars(vec_of(t)).contains(v)) by {
            assert(free_vars(vec_of(t)) == free_vars_of_terms(seq![t]));
            if free_vars_of_terms(seq![t]).contains(v) {
                let i = choose|i: int|
                    0 <= i < seq![t].len() && free_vars(#[trigger] seq![t][i]).contains(v);
                assert(seq![t][i] == t);
            }
        }
    }
    assert forall|y: Variable, v: Variable| #[trigger]
        free_vars(vec_of(TermView::Var(y))).contains(v) implies v == y by {
        let ts = seq![TermView::Var(y)];
        assert(free_vars(vec_of(TermView::Var(y))) == free_vars_of_terms(ts));
        let i = choose|i: int| 0 <= i < ts.len() && free_vars(#[trigger] ts[i]).contains(v);
        assert(ts[i] == TermView::Var(y));
    }
}

proof fn lemma_nested_ground(n: nat)
    ensures
        ground(nested(n)),
        nested(n) is Rigid,
    decreases n,
{
    if n == 0 {
        lemma_ground_shapes(u32_ty());
    } else {
        lemma_nested_ground((n - 1) as nat);
        lemma_ground_shapes(nested((n - 1) as nat));
    }
}

/// Two goals are proved in order: the second as the first leaves it.
proof fn lemma_two_goals<D: Database>(
    db: &D,
    env: Seq<Variable>,
    first: GoalView,
    second: GoalView,
    d: nat,
    c: ConstraintsView,
)
    requires
        c.known_true,
        model::prove_goal(db, env, no_clauses(), first, d) == seq![c],
    ensures
        model::prove_all(db, env, no_clauses(), seq![first, second], d) == union(
            Seq::<ConstraintsView>::empty(),
            seq_all(
                c,
                model::prove_goal(
                    db,
                    c.env,
                    no_clauses(),
                    apply_goal(c.substitution, second),
                    d,
                ),
            ),
        ),
{
    reveal(model::prove_all);
    reveal(model::prove_all_upto);
    reveal(model::prove_next_upto);
    reveal(model::prove_goal);
    let none = ConstraintsView::none(env);
    let goals = seq![first, second];
    let acc0 = model::prove_all_upto(db, env, no_clauses(), goals, d, 0);
    assert(acc0 == seq![none]);
    lemma_apply_nothing(first);
    lemma_after_nothing(env, c);
    lemma_seq_all_one(none, c);
    lemma_union_one(c);
    assert(model::prove_next_upto(db, no_clauses(), first, d, acc0, 0) == Seq::<
        ConstraintsView,
    >::empty());
    assert(model::prove_next_upto(db, no_clauses(), first, d, acc0, 1) == seq![c]);
    let acc1 = model::prove_all_upto(db, env, no_clauses(), goals, d, 1);
    assert(acc1 == seq![c]);
    assert(model::prove_next_upto(db, no_clauses(), second, d, acc1, 0) == Seq::<
        ConstraintsView,
    >::empty());
    assert(model::prove_all_upto(db, env, no_clauses(), goals, d, 2) == model::prove_next_upto(
        db,
        no_clauses(),
        second,
        d,
        acc1,
        1,
    ));
}

/// Two goals have no solution if the first has none.
proof fn lemma_first_goal_fails<D: Database>(
    db: &D,
    env: Seq<Variable>,
    first: GoalView,
    second: GoalView,
    d: nat,
)
    requires
        model::prove_goal(db, env, no_clauses(), first, d) == Seq::<ConstraintsView>::empty(),
    ensures
        model::prove_all(db, env, no_clauses(), seq![first, second], d) == Seq::<
            ConstraintsView,
        >::empty(),
{
    reveal(model::prove_all);
    reveal(model::prove_all_upto);
    reveal(model::prove_next_upto);
    reveal(model::prove_goal);
    let none = ConstraintsView::none(env);
    let goals = seq![first, second];
    let acc0 = model::prove_all_upto(db, env, no_clauses(), goals, d, 0);
    assert(acc0 == seq![none]);
    lemma_apply_nothing(first);
    lemma_seq_all_nothing(none);
    lemma_union_nothing(Seq::<ConstraintsView>::empty());
    assert(model::prove_next_upto(db, no_clauses(), first, d, acc0, 0) == Seq::<
        ConstraintsView,
    >::empty());
    assert(model::prove_next_upto(db, no_clauses(), first, d, acc0, 1) == union(
        Seq::<ConstraintsView>::empty(),
        seq_all(none, Seq::<ConstraintsView>::empty()),
    ));
    let acc1 = model::prove_all_upto(db, env, no_clauses(), goals, d, 1);
    assert(acc1 == Seq::<ConstraintsView>::empty());
    assert(model::prove_all_upto(db, env, no_clauses(), goals, d, 2) == model::prove_next_upto(
        db,
        no_clauses(),
        second,
        d,
        acc1,
        0,
    ));
}

/// The clause by which the constructor implements the interface if its
/// parameter does.
pub open spec fn step_clause() -> ClauseView {
    example_impls()[0]
}

/// The clause by which the type without parameters implements the interface.
pub open spec fn base_clause() -> ClauseView {
    example_impls()[1]
}

/// What the step clause becomes when its variable is brought into scope.
proof fn lemma_step_instance(env: Seq<Variable>)
    requires
        well_formed(env),
        has_room(env, 1),
    ensures
        ({
            let y = fresh_variable(env, Kind::Existential);
            let inner = env.push(y);
            let inst = model::instantiation(env, 1);
            &&& with_fresh(env, Kind::Existential, 1) == inner
            &&& apply_goal(inst, step_clause().conclusion) == debug_of(vec_of(TermView::Var(y)))
            &&& apply_goals(inst, step_clause().conditions) == seq![debug_of(TermView::Var(y))]
            &&& encloses_terms(inner, debug_of(vec_of(TermView::Var(y))).terms)
            &&& encloses_goals(inner, seq![debug_of(TermView::Var(y))])
            &&& well_formed(inner)
            &&& !env.contains(y)
            &&& inner.contains(y)
            &&& rank(inner, y) == env.len()
            &&& max_index(inner) == max_index(env) + 1
        }),
{
    let y = fresh_variable(env, Kind::Existential);
    let inner = env.push(y);
    let inst = model::instantiation(env, 1);
    let placeholder = Variable { kind: Kind::Bound, index: 0 };
    let b0 = TermView::Var(placeholder);
    let vy = TermView::Var(y);
    lemma_fresh_is_new(env, Kind::Existential);
    lemma_push(env, y);
    lemma_max_index(env);
    assert(with_fresh(env, Kind::Existential, 0) == env);
    assert(with_fresh(env, Kind::Existential, 1) == inner);
    assert(model::opening(Map::empty(), env, Kind::Existential, 0, 0) == Map::<
        Variable,
        TermView,
    >::empty());
    assert(inst == Map::<Variable, TermView>::empty().insert(placeholder, vy));
    assert(apply(inst, b0) == vy);
    assert(apply_terms(inst, seq![b0]) =~= seq![vy]);
    assert(apply(inst, vec_of(b0)) == vec_of(vy));
    assert(step_clause().conclusion.terms =~= seq![vec_of(b0)]);
    assert(apply_terms(inst, seq![vec_of(b0)]) =~= seq![vec_of(vy)]);
    assert(step_clause().conditions =~= seq![debug_of(b0)]);
    assert(apply_goal(inst, debug_of(b0)) == debug_of(vy));
    assert(apply_goals(inst, seq![debug_of(b0)]) =~= seq![debug_of(vy)]);
    lemma_ground_shapes(vy);
    assert(encloses(inner, vec_of(vy)));
    assert(encloses(inner, vy));
    assert(max_index(inner) == max_index(env) + 1) by {
        assert(inner[env.len() as int].index == max_index(env) + 1);
        assert forall|i: int| 0 <= i < inner.len() implies (#[trigger] inner[i]).index
            <= max_index(env) + 1 by {
            if i < env.len() {
                assert(inner[i] == env[i]);
            }
        }
        lemma_max_index_is(inner, max_index(env) + 1);
    }
}

/// What the base clause becomes when it is used: itself.
proof fn lemma_base_instance(env: Seq<Variable>)
    ensures
        has_room(env, 0),
        with_fresh(env, Kind::Existential, 0) == env,
        model::instantiation(env, 0) == Map::<Variable, TermView>::empty(),
        apply_goal(model::instantiation(env, 0), base_clause().conclusion) == debug_of(u32_ty()),
        apply_goals(model::instantiation(env, 0), base_clause().conditions) == Seq::<
            GoalView,
        >::empty(),
        encloses_terms(env, debug_of(u32_ty()).terms),
        encloses_goals(env, Seq::<GoalView>::empty()),
{
    lemma_max_index(env);
    lemma_ground_shapes(u32_ty());
    assert(base_clause().conclusion.terms =~= seq![u32_ty()]);
    lemma_apply_nothing(debug_of(u32_ty()));
    assert(base_clause().conditions =~= Seq::<GoalView>::empty());
    assert(apply_goals(Map::empty(), base_clause().conditions) =~= Seq::<GoalView>::empty());
    assert(encloses(env, u32_ty()));
}

/// By the step clause, the constructor applied to `t` implements the
/// interface in one way if `t` does, one level deeper.
proof fn lemma_via_step<D: Database>(db: &D, env: Seq<Variable>, t: TermView, d: nat)
    requires
        is_example(db),
        well_formed(env),
        has_room(env, 1),
        !(t is Var),
        ground(t),
        d >= 1,
        model::prove_goal(
            db,
            env.push(fresh_variable(env, Kind::Existential)),
            no_clauses(),
            debug_of(t),
            d,
        ) == trivially(env.push(fresh_variable(env, Kind::Existential))),
    ensures
        model::prove_via(db, env, no_clauses(), step_clause(), debug_of(vec_of(t)), d + 1)
            == trivially(env),
{
    reveal(model::prove_via);
    reveal(model::prove_after);
    reveal(model::prove_all);
    lemma_step_instance(env);
    let y = fresh_variable(env, Kind::Existential);
    let inner = env.push(y);
    let vy = TermView::Var(y);
    let bound = model::binding(inner, y, t);
    let nothing = ConstraintsView::none(inner);
    let first = GoalView::eq(vec_of(vy), vec_of(t));
    let second = debug_of(vy);
    let goals = seq![first, second];
    assert(GoalView::all_eq(seq![vec_of(vy)], seq![vec_of(t)]) + seq![second] =~= goals);
    assert(debug_of(vec_of(t)).terms =~= seq![vec_of(t)]);
    assert(debug_of(vec_of(vy)).terms =~= seq![vec_of(vy)]);
    lemma_unify_vec(db, inner, y, t, d);
    lemma_two_goals(db, inner, first, second, d, bound);
    assert(apply_goal(bound.substitution, second) == debug_of(t)) by {
        assert(apply_terms(bound.substitution, seq![vy]) =~= seq![t]);
    }
    lemma_before_nothing(bound);
    lemma_seq_all_one(bound, nothing);
    lemma_union_one(bound);
    assert(model::prove_all(db, inner, no_clauses(), goals, d) == seq![bound]);
    lemma_apply_nothing(first);
    lemma_apply_nothing(second);
    assert(apply_goals(Map::empty(), goals) =~= goals);
    lemma_after_nothing(inner, bound);
    lemma_seq_all_one(nothing, bound);
    assert(model::prove_after(db, nothing, no_clauses(), goals, d + 1) == seq![bound]);
    let popped = pop(bound, env, Kind::Existential, 1);
    assert(inner.take(env.len() as int) =~= env);
    assert(popped.substitution =~= Map::<Variable, TermView>::empty());
    assert(popped == ConstraintsView::none(env));
    let found = seq![bound];
    assert(pop_all_upto(found, env, Kind::Existential, 1, 0) == Seq::<ConstraintsView>::empty());
    assert(Seq::<ConstraintsView>::empty().push(popped) =~= seq![popped]);
    assert(pop_all_upto(found, env, Kind::Existential, 1, 1) == seq![popped]);
}

/// By the step clause, the constructor applied to `t` does not implement the
/// interface if `t` does not, one level deeper.
proof fn lemma_via_step_blocked<D: Database>(db: &D, env: Seq<Variable>, t: TermView, d: nat)
    requires
        is_example(db),
        well_formed(env),
        has_room(env, 1),
        !(t is Var),
        ground(t),
        d >= 1,
        model::prove_goal(
            db,
            env.push(fresh_variable(env, Kind::Existential)),
            no_clauses(),
            debug_of(t),
            d,
        ) == Seq::<ConstraintsView>::empty(),
    ensures
        model::prove_via(db, env, no_clauses(), step_clause(), debug_of(vec_of(t)), d + 1)
            == Seq::<ConstraintsView>::empty(),
{
    reveal(model::prove_via);
    reveal(model::prove_after);
    reveal(model::prove_all);
    lemma_step_instance(env);
    let y = fresh_variable(env, Kind::Existential);
    let inner = env.push(y);
    let vy = TermView::Var(y);
    let bound = model::binding(inner, y, t);
    let nothing = ConstraintsView::none(inner);
    let first = GoalView::eq(vec_of(vy), vec_of(t));
    let second = debug_of(vy);
    let goals = seq![first, second];
    assert(GoalView::all_eq(seq![vec_of(vy)], seq![vec_of(t)]) + seq![second] =~= goals);
    assert(debug_of(vec_of(t)).terms =~= seq![vec_of(t)]);
    assert(debug_of(vec_of(vy)).terms =~= seq![vec_of(vy)]);
    lemma_unify_vec(db, inner, y, t, d);
    lemma_two_goals(db, inner, first, second, d, bound);
    assert(apply_goal(bound.substitution, second) == debug_of(t)) by {
        assert(apply_terms(bound.substitution, seq![vy]) =~= seq![t]);
    }
    lemma_seq_all_nothing(bound);
    lemma_union_nothing(Seq::<ConstraintsView>::empty());
    assert(model::prove_all(db, inner, no_clauses(), goals, d) == Seq::<ConstraintsView>::empty());
    lemma_apply_nothing(first);
    lemma_apply_nothing(second);
    assert(apply_goals(Map::empty(), goals) =~= goals);
    lemma_seq_all_nothing(nothing);
    assert(model::prove_after(db, nothing, no_clauses(), goals, d + 1) == Seq::<
        ConstraintsView,
    >::empty());
}

/// By the step clause, the interface is not implemented for a term that the
/// constructor applied to a variable cannot be made equal to.
proof fn lemma_via_step_fails<D: Database>(db: &D, env: Seq<Variable>, t: TermView, d: nat)
    requires
        well_formed(env),
        has_room(env, 1) && d > 0 ==> model::prove_goal(
            db,
            env.push(fresh_variable(env, Kind::Existential)),
            no_clauses(),
            GoalView::eq(vec_of(TermView::Var(fresh_variable(env, Kind::Existential))), t),
            (d - 1) as nat,
        ) == Seq::<ConstraintsView>::empty(),
    ensures
        model::prove_via(db, env, no_clauses(), step_clause(), debug_of(t), d) == Seq::<
            ConstraintsView,
        >::empty(),
{
    reveal(model::prove_via);
    reveal(model::prove_after);
    reveal(model::prove_all);
    assert(debug_of(t).terms =~= seq![t]);
    if has_room(env, 1) {
        lemma_step_instance(env);
        let y = fresh_variable(env, Kind::Existential);
        let inner = env.push(y);
        let vy = TermView::Var(y);
        let nothing = ConstraintsView::none(inner);
        let first = GoalView::eq(vec_of(vy), t);
        let second = debug_of(vy);
        let goals = seq![first, second];
        assert(GoalView::all_eq(seq![vec_of(vy)], seq![t]) + seq![second] =~= goals);
        assert(debug_of(vec_of(vy)).terms =~= seq![vec_of(vy)]);
        if d > 0 {
            lemma_first_goal_fails(db, inner, first, second, (d - 1) as nat);
            lemma_apply_nothing(first);
            lemma_apply_nothing(second);
            assert(apply_goals(Map::empty(), goals) =~= goals);
            lemma_seq_all_nothing(nothing);
        }
        assert(model::prove_after(db, nothing, no_clauses(), goals, d) == Seq::<
            ConstraintsView,
        >::empty());
    }
}

/// By the base clause, the interface is not implemented for a term that the
/// type without parameters cannot be made equal to.
proof fn lemma_via_base_fails<D: Database>(db: &D, env: Seq<Variable>, t: TermView, d: nat)
    requires
        d > 0 ==> model::prove_goal(
            db,
            env,
            no_clauses(),
            GoalView::eq(u32_ty(), t),
            (d - 1) as nat,
        ) == Seq::<ConstraintsView>::empty(),
    ensures
        model::prove_via(db, env, no_clauses(), base_clause(), debug_of(t), d) == Seq::<
            ConstraintsView,
        >::empty(),
{
    reveal(model::prove_via);
    reveal(model::prove_after);
    reveal(model::prove_all);
    lemma_base_instance(env);
    let nothing = ConstraintsView::none(env);
    let goal = GoalView::eq(u32_ty(), t);
    assert(debug_of(t).terms =~= seq![t]);
    assert(debug_of(u32_ty()).terms =~= seq![u32_ty()]);
    assert(GoalView::all_eq(seq![u32_ty()], seq![t]) + Seq::<GoalView>::empty() =~= seq![goal]);
    if d > 0 {
        lemma_one_goal_fails(db, env, goal, (d - 1) as nat);
        lemma_apply_nothing(goal);
        lemma_seq_all_nothing(nothing);
    }
    assert(model::prove_after(db, nothing, no_clauses(), seq![goal], d) == Seq::<
        ConstraintsView,
    >::empty());
}

/// By the base clause, the type without parameters implements the interface
/// in one way.
proof fn lemma_via_base<D: Database>(db: &D, env: Seq<Variable>, d: nat)
    requires
        d >= 1,
    ensures
        model::prove_via(db, env, no_clauses(), base_clause(), debug_of(u32_ty()), d) == trivially(
            env,
        ),
{
    reveal(model::prove_via);
    reveal(model::prove_after);
    reveal(model::prove_all);
    lemma_base_instance(env);
    let nothing = ConstraintsView::none(env);
    let goal = GoalView::eq(u32_ty(), u32_ty());
    assert(debug_of(u32_ty()).terms =~= seq![u32_ty()]);
    assert(GoalView::all_eq(seq![u32_ty()], seq![u32_ty()]) + Seq::<GoalView>::empty()
        =~= seq![goal]);
    assert(model::prove_goal(db, env, no_clauses(), goal, (d - 1) as nat) == seq![nothing]) by {
        reveal(model::prove_goal);
        assert(goal.terms[0] == goal.terms[1]);
    }
    lemma_one_goal_holds(db, env, goal, (d - 1) as nat, nothing);
    lemma_apply_nothing(goal);
    lemma_after_nothing(env, nothing);
    lemma_seq_all_one(nothing, nothing);
    assert(model::prove_after(db, nothing, no_clauses(), seq![goal], d) == seq![nothing]);
    let found = seq![nothing];
    assert(pop(nothing, env, Kind::Existential, 0) == nothing);
    assert(pop_all_upto(found, env, Kind::Existential, 0, 0) == Seq::<ConstraintsView>::empty());
    assert(Seq::<ConstraintsView>::empty().push(nothing) =~= seq![nothing]);
    assert(pop_all_upto(found, env, Kind::Existential, 0, 1) == seq![nothing]);
}

/// Of the example program, a goal about its interface is proved by its two
/// clauses, the step clause first.
proof fn lemma_by_both_clauses<D: Database>(db: &D, env: Seq<Variable>, t: TermView, d: nat)
    requires
        is_example(db),
    ensures
        model::prove_goal(db, env, no_clauses(), debug_of(t), d) == union(
            Seq::<ConstraintsView>::empty(),
            union(
                union(
                    Seq::<ConstraintsView>::empty(),
                    model::prove_via(db, env, no_clauses(), step_clause(), debug_of(t), d),
                ),
                model::prove_via(db, env, no_clauses(), base_clause(), debug_of(t), d),
            ),
        ),
{
    reveal(model::prove_goal);
    reveal(model::prove_via_upto);
    reveal(model::prove_via);
    let shape = Shape::Implemented(DEBUG);
    let g = debug_of(t);
    lemma_union_nothing(no_clauses());
    assert(db.invariants_of(shape) == no_clauses());
    assert(model::context(db, no_clauses(), shape) == no_clauses());
    assert(model::elaborated_upto(db, no_clauses(), 0) == no_clauses());
    let ks = model::candidates(db, no_clauses(), shape);
    assert(ks =~= example_impls());
    assert(model::prove_via_upto(db, env, no_clauses(), ks, g, d, 0) == Seq::<
        ConstraintsView,
    >::empty());
    assert(model::prove_via_upto(db, env, no_clauses(), ks, g, d, 1) == union(
        Seq::<ConstraintsView>::empty(),
        model::prove_via(db, env, no_clauses(), ks[0], g, d),
    ));
    assert(model::prove_via_upto(db, env, no_clauses(), ks, g, d, 2) == union(
        model::prove_via_upto(db, env, no_clauses(), ks, g, d, 1),
        model::prove_via(db, env, no_clauses(), ks[1], g, d),
    ));
}

/// Whether `t` is the constructor nested fewer than `d` times around the type
/// without parameters.
pub open spec fn nests(t: TermView, d: nat) -> bool
    decreases d,
{
    d > 0 && (t == u32_ty() || (t is Rigid && t->Rigid_name == VEC && t->Rigid_parameters.len()
        == 1 && nests(t->Rigid_parameters[0], (d - 1) as nat)))
}

/// Of the example program, the interface is implemented for a term without
/// variables in one way, which binds nothing, if the term is the constructor
/// nested fewer times than the depth, and in no way if it is anything else.
proof fn lemma_decided<D: Database>(db: &D, env: Seq<Variable>, t: TermView, d: nat)
    requires
        is_example(db),
        well_formed(env),
        has_room(env, d as int),
        ground(t),
    ensures
        model::prove_goal(db, env, no_clauses(), debug_of(t), d) == (if nests(t, d) {
            trivially(env)
        } else {
            Seq::<ConstraintsView>::empty()
        }),
    decreases d,
{
    let nothing = ConstraintsView::none(env);
    let none = Seq::<ConstraintsView>::empty();
    let y = fresh_variable(env, Kind::Existential);
    let inner = env.push(y);
    let vy = TermView::Var(y);
    lemma_by_both_clauses(db, env, t, d);
    lemma_max_index(env);
    lemma_union_nothing(none);
    lemma_union_one(nothing);
    lemma_union_nothing(seq![nothing]);
    if t is Var {
        assert(free_vars(t).contains(t->Var_0));
    }
    let step = model::prove_via(db, env, no_clauses(), step_clause(), debug_of(t), d);
    let base = model::prove_via(db, env, no_clauses(), base_clause(), debug_of(t), d);
    // the base clause
    if t == u32_ty() && d >= 1 {
        lemma_via_base(db, env, d);
    } else {
        if d > 0 {
            if t is Rigid && t->Rigid_name == U32 && t->Rigid_parameters.len() == 0 {
                assert(t->Rigid_parameters =~= Seq::<TermView>::empty());
            }
            lemma_mismatch(db, env, u32_ty(), t, (d - 1) as nat);
        }
        lemma_via_base_fails(db, env, t, d);
    }
    assert(base == if t == u32_ty() && d >= 1 {
        seq![nothing]
    } else {
        none
    });
    // the step clause
    let nested_once = t is Rigid && t->Rigid_name == VEC && t->Rigid_parameters.len() == 1;
    if t is Rigid && t->Rigid_name == VEC && t->Rigid_parameters.len() == 1 {
        let inside = t->Rigid_parameters[0];
        assert(t->Rigid_parameters =~= seq![inside]);
        assert(t == vec_of(inside));
        assert forall|v: Variable| !(#[trigger] free_vars(inside).contains(v)) by {
            if free_vars(inside).contains(v) {
                assert(free_vars(t) == free_vars_of_terms(t->Rigid_parameters));
                assert(free_vars_of_terms(t->Rigid_parameters).contains(v));
            }
        }
        if inside is Var {
            assert(free_vars(inside).contains(inside->Var_0));
        }
        if d >= 2 {
            lemma_step_instance(env);
            lemma_decided(db, inner, inside, (d - 1) as nat);
            if nests(inside, (d - 1) as nat) {
                lemma_via_step(db, env, inside, (d - 1) as nat);
            } else {
                lemma_via_step_blocked(db, env, inside, (d - 1) as nat);
            }
        } else {
            if d == 1 {
                lemma_step_instance(env);
                lemma_unify_needs_depth(db, inner, y, inside);
            }
            lemma_via_step_fails(db, env, t, d);
        }
    } else {
        if has_room(env, 1) && d > 0 {
            lemma_mismatch(db, inner, vec_of(vy), t, (d - 1) as nat);
        }
        lemma_via_step_fails(db, env, t, d);
    }
    assert(step == if nested_once && d >= 2 && nests(t->Rigid_parameters[0], (d - 1) as nat) {
        seq![nothing]
    } else {
        none
    });
    assert(!nests(t->Rigid_parameters[0], 0));
    assert(nests(t, d) == (d > 0 && (t == u32_ty() || (nested_once && nests(
        t->Rigid_parameters[0],
        (d - 1) as nat,
    )))));
    assert(!(t == u32_ty() && nested_once));
}

/// Without depth, the constructor applied to a variable is not made equal to
/// the constructor applied to another term.
proof fn lemma_unify_needs_depth<D: Database>(
    db: &D,
    env: Seq<Variable>,
    y: Variable,
    t: TermView,
)
    requires
        is_example(db),
        !(t is Var),
    ensures
        model::prove_goal(
            db,
            env,
            no_clauses(),
            GoalView::eq(vec_of(TermView::Var(y)), vec_of(t)),
            0,
        ) == Seq::<ConstraintsView>::empty(),
{
    let a = vec_of(TermView::Var(y));
    let b = vec_of(t);
    assert(a->Rigid_parameters[0] != b->Rigid_parameters[0]);
    lemma_goal_is_eq(db, env, a, b, 0);
    lemma_eq_by_shape(db, env, a, b, 0);
    reveal(model::prove_syntactically_eq);
    reveal(model::prove_all_eq);
    reveal(model::prove_after);
    assert(GoalView::all_eq(seq![TermView::Var(y)], seq![t]).len() == 1);
}

/// Clauses chain to any depth: of a database that answers as the example
/// program does, the goal that the interface is implemented for the
/// constructor nested `n` times has exactly one solution, which binds
/// nothing, under no assumptions, wherever the depth exceeds `n` and as many
/// variables as the depth can be numbered.
pub proof fn lemma_chaining<D: Database>(db: &D, env: Seq<Variable>, n: nat, d: nat)
    requires
        is_example(db),
        well_formed(env),
        has_room(env, d as int),
        d > n,
    ensures
        model::prove_all(db, env, Seq::empty(), seq![debug_of(nested(n))], d) == seq![
            ConstraintsView::none(env),
        ],
{
    lemma_nested_ground(n);
    lemma_nested_nests(n, d);
    lemma_decided(db, env, nested(n), d);
    lemma_one_goal_holds(db, env, debug_of(nested(n)), d, ConstraintsView::none(env));
}

proof fn lemma_nested_nests(n: nat, d: nat)
    requires
        d > n,
    ensures
        nests(nested(n), d),
    decreases n,
{
    if n > 0 {
        lemma_nested_nests((n - 1) as nat, (d - 1) as nat);
        assert(nested(n)->Rigid_parameters[0] == nested((n - 1) as nat));
    }
}

/// One more level of the constructor keeps the one solution: of a database
/// that answers as the example program does, if the interface is implemented
/// for a term without variables in exactly the way that binds nothing, then
/// so it is for the constructor applied to the term, one level deeper.
pub proof fn lemma_one_more_level<D: Database>(db: &D, env: Seq<Variable>, t: TermView, d: nat)
    requires
        is_example(db),
        well_formed(env),
        has_room(env, d as int + 1),
        ground(t),
        model::prove_all(db, env, Seq::empty(), seq![debug_of(t)], d) == seq![
            ConstraintsView::none(env),
        ],
    ensures
        model::prove_all(db, env, Seq::empty(), seq![debug_of(vec_of(t))], d + 1) == seq![
            ConstraintsView::none(env),
        ],
{
    lemma_max_index(env);
    lemma_decided(db, env, t, d);
    if !nests(t, d) {
        lemma_one_goal_fails(db, env, debug_of(t), d);
        assert(seq![ConstraintsView::none(env)].len() == 1);
        assert(false);
    }
    lemma_ground_shapes(t);
    assert(vec_of(t)->Rigid_parameters[0] == t);
    assert(nests(vec_of(t), d + 1));
    lemma_decided(db, env, vec_of(t), d + 1);
    lemma_one_goal_holds(db, env, debug_of(vec_of(t)), d + 1, ConstraintsView::none(env));
}

} // verus!
