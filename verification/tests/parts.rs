use formality_prove::constraints::Constraints;
use formality_prove::db::{program, Database, MockDb, DEBUG, U32, VEC};
use formality_prove::env::Env;
use formality_prove::formula::Formula;
use formality_prove::grammar::{Clause, Goal, Kind, Shape, Term, Variable};
use formality_prove::prove::{instantiate, prove, prove_goal, prove_via, MAX_DEPTH};
use formality_prove::prove_eq::{
    equate_variable, prove_all_eq, prove_after, prove_eq, prove_existential_var_eq,
    prove_syntactically_eq,
};
use formality_prove::prove_formula::prove_formula;
use formality_prove::prove_normalize::prove_normalize;
use formality_prove::substitution::Substitution;
use formality_prove::visit::{list_free_variables, occurs_in};

const ORD: u64 = 70;
const PARTIAL_ORD: u64 = 71;
const ITEM: u64 = 30;
const PAIR: u64 = 80;

fn ex(index: u64) -> Variable {
    Variable::existential(index)
}

fn un(index: u64) -> Variable {
    Variable::universal(index)
}

fn var(v: Variable) -> Term {
    Term::var(v)
}

fn bound(index: u64) -> Term {
    Term::var(Variable::bound(index))
}

fn u32_ty() -> Term {
    Term::rigid(U32, vec![])
}

fn vec_of(t: Term) -> Term {
    Term::rigid(VEC, vec![t])
}

fn pair_of(a: Term, b: Term) -> Term {
    Term::rigid(PAIR, vec![a, b])
}

fn env_of(variables: Vec<Variable>) -> Env {
    Env { variables }
}

fn solution(variables: Vec<Variable>, bindings: Vec<(Variable, Term)>) -> Constraints {
    Constraints {
        env: Env { variables },
        known_true: true,
        substitution: Substitution { bindings },
    }
}

fn assert_solutions(results: &Vec<Constraints>, expected: Vec<Constraints>) {
    assert_eq!(results.len(), expected.len(), "got {:?}", results);
    for e in expected.iter() {
        assert!(results.iter().any(|c| c.equals(e)), "missing {:?} in {:?}", e, results);
    }
}

fn empty_db() -> MockDb {
    MockDb::new(vec![], vec![])
}

#[test]
fn environment_orders_variables_by_universe() {
    let env = env_of(vec![ex(1), un(2), ex(3)]);
    assert!(env.is_well_formed());
    assert_eq!(env.len(), 3);
    assert_eq!(env.universe(ex(1)), 0);
    assert_eq!(env.universe(un(2)), 1);
    assert_eq!(env.universe(ex(3)), 2);
    assert_eq!(env.order_by_universe(ex(3), ex(1)), (ex(1), ex(3)));
    assert_eq!(env.order_by_universe(ex(1), ex(3)), (ex(1), ex(3)));
    assert!(env.contains(un(2)));
    assert!(!env.contains(ex(2)));
    assert_eq!(env.max_index(), 3);
    assert!(env.has_room(5));
    assert!(!env_of(vec![ex(u64::MAX)]).has_room(1));
    assert!(env_of(vec![ex(u64::MAX)]).has_room(0));
    assert!(!env_of(vec![ex(1), ex(1)]).is_well_formed());
    assert!(!env_of(vec![Variable::bound(0)]).is_well_formed());
    assert!(env_of(vec![ex(1), un(1)]).is_well_formed());
}

#[test]
fn fresh_variable_is_inserted_below_the_given_universe() {
    let mut env = env_of(vec![ex(1), ex(2)]);
    let z = env.insert_fresh_before(Kind::Existential, 0);
    assert_eq!(z, ex(3));
    assert!(env.equals(&env_of(vec![ex(3), ex(1), ex(2)])));
    assert!(env.universe(z) < env.universe(ex(1)));
    assert!(env.universe(ex(1)) < env.universe(ex(2)));
    let w = env.insert_fresh_before(Kind::Universal, 2);
    assert_eq!(w, un(4));
    assert!(env.equals(&env_of(vec![ex(3), ex(1), un(4), ex(2)])));
    let last = env.push_fresh(Kind::Existential);
    assert_eq!(last, ex(5));
    assert_eq!(env.universe(last), 4);
    let mut empty = Env::new();
    assert_eq!(empty.push_fresh(Kind::Universal), un(1));
}

#[test]
fn environment_encloses_terms_whose_variables_it_holds() {
    let env = env_of(vec![ex(1), un(2)]);
    assert!(env.encloses(&pair_of(var(ex(1)), vec_of(var(un(2))))));
    assert!(!env.encloses(&pair_of(var(ex(1)), vec_of(var(ex(3))))));
    assert!(!env.encloses(&bound(0)));
    assert!(env.encloses(&u32_ty()));
    assert!(env.encloses_terms(&vec![var(ex(1)), u32_ty()]));
    assert!(!env.encloses_goals(&vec![Goal::implemented(DEBUG, vec![var(ex(9))])]));
}

#[test]
fn free_variables_are_listed_once_in_order() {
    let t = pair_of(vec_of(var(ex(2))), pair_of(var(un(1)), var(ex(2))));
    assert_eq!(list_free_variables(&t), vec![ex(2), un(1)]);
    assert!(occurs_in(un(1), &t));
    assert!(!occurs_in(ex(1), &t));
    assert!(list_free_variables(&u32_ty()).is_empty());
}

#[test]
fn terms_and_goals_compare_by_structure() {
    assert!(vec_of(u32_ty()).equals(&vec_of(u32_ty())));
    assert!(!vec_of(u32_ty()).equals(&vec_of(vec_of(u32_ty()))));
    assert!(!Term::rigid(ITEM, vec![u32_ty()]).equals(&Term::alias(ITEM, vec![u32_ty()])));
    assert!(var(ex(1)).is_variable());
    assert!(ex(1).is_existential() && !ex(1).is_universal());
    assert!(un(1).is_universal() && !un(1).is_existential());
    assert!(!u32_ty().is_variable());
    assert!(!var(ex(1)).equals(&var(un(1))));
    let eqs = Goal::all_eq(&vec![u32_ty(), var(ex(1))], &vec![var(ex(2))]);
    assert_eq!(eqs.len(), 1);
    assert!(eqs[0].equals(&Goal::eq(u32_ty(), var(ex(2)))));
    let n = Goal::normalizes_to(ITEM, vec![u32_ty()], var(ex(1)));
    assert_eq!(n.shape, Shape::NormalizesTo(ITEM));
    assert_eq!(n.terms.len(), 2);
    assert!(Clause::fact(n.clone()).equals(&Clause::new(0, vec![], n.clone())));
    assert!(!Clause::fact(n.clone()).equals(&Clause::new(1, vec![], n)));
}

#[test]
fn substitution_replaces_bound_variables() {
    let mut s = Substitution::new();
    s.bind(ex(1), vec_of(var(ex(2))));
    s.bind(ex(3), u32_ty());
    assert_eq!(s.len(), 2);
    assert!(s.contains_key(ex(1)));
    assert!(!s.contains_key(ex(2)));
    assert!(s.get(ex(3)).unwrap().equals(&u32_ty()));
    let t = pair_of(var(ex(1)), pair_of(var(ex(2)), var(ex(3))));
    let applied = s.apply(&t);
    assert!(applied.equals(&pair_of(vec_of(var(ex(2))), pair_of(var(ex(2)), u32_ty()))));
    let again = s.apply(&applied);
    assert!(again.equals(&applied));
}

#[test]
fn substitutions_are_equal_whatever_the_order_of_their_bindings() {
    let a = Substitution { bindings: vec![(ex(1), u32_ty()), (ex(2), var(un(3)))] };
    let b = Substitution { bindings: vec![(ex(2), var(un(3))), (ex(1), u32_ty())] };
    let c = Substitution { bindings: vec![(ex(1), u32_ty())] };
    let d = Substitution { bindings: vec![(ex(1), u32_ty()), (ex(2), var(un(4)))] };
    assert!(a.equals(&b));
    assert!(!a.equals(&c));
    assert!(!c.equals(&a));
    assert!(!a.equals(&d));
}

#[test]
fn composition_applies_the_second_to_the_first() {
    let first = Substitution { bindings: vec![(ex(1), vec_of(var(ex(2))))] };
    let second = Substitution { bindings: vec![(ex(2), u32_ty())] };
    let both = first.compose(&second);
    assert!(both.equals(&Substitution {
        bindings: vec![(ex(1), vec_of(u32_ty())), (ex(2), u32_ty())],
    }));
    let kept = both.restrict_to(&vec![ex(2), ex(7)]);
    assert!(kept.equals(&second));
}

#[test]
fn constraints_compose_in_sequence() {
    let c1 = solution(vec![ex(1), ex(2), ex(3)], vec![(ex(3), vec_of(var(ex(2))))]);
    let c2 = solution(vec![ex(1), ex(2), ex(3)], vec![(ex(2), var(ex(1)))]);
    assert!(c1.admits(&c2));
    let both = c1.seq(&c2);
    assert!(both.equals(&solution(
        vec![ex(1), ex(2), ex(3)],
        vec![(ex(3), vec_of(var(ex(1)))), (ex(2), var(ex(1)))],
    )));
    assert!(both.known_true());
    let rebinding = solution(vec![ex(1), ex(2), ex(3)], vec![(ex(3), u32_ty())]);
    assert!(!c1.admits(&rebinding));
    let mentioning = solution(vec![ex(1), ex(2), ex(3)], vec![(ex(2), vec_of(var(ex(3))))]);
    assert!(!c1.admits(&mentioning));
    let further = solution(vec![ex(1), ex(2), ex(3)], vec![(ex(1), u32_ty())]);
    assert!(c2.admits(&further));
    assert!(c2.seq(&further).equals(&solution(
        vec![ex(1), ex(2), ex(3)],
        vec![(ex(2), u32_ty()), (ex(1), u32_ty())],
    )));
    let unknown = Constraints::from(env_of(vec![ex(1)]), vec![], false);
    assert!(!unknown.known_true());
    let after = Constraints::none(env_of(vec![ex(1)])).seq(&unknown);
    assert!(!after.known_true());
    assert_eq!(Constraints::none(Env::new()).substitution().len(), 0);
    assert!(Constraints::none(Env::new()).known_true());
    assert_eq!(Constraints::none(env_of(vec![un(1)])).env().len(), 1);
}

#[test]
fn truncation_drops_the_upper_variables_and_their_bindings() {
    let c = solution(
        vec![ex(1), ex(2), ex(3)],
        vec![(ex(2), var(ex(1))), (ex(3), vec_of(var(ex(1))))],
    );
    let cut = c.truncate(2);
    assert!(cut.equals(&solution(vec![ex(1), ex(2)], vec![(ex(2), var(ex(1)))])));
    assert!(c.truncate(3).equals(&c));
    assert!(c.truncate(0).equals(&solution(vec![], vec![])));
}

#[test]
fn applying_a_solution_twice_changes_nothing() {
    let env = env_of(vec![un(1), ex(2), ex(3)]);
    let goal = Goal::eq(pair_of(var(ex(2)), var(ex(3))), pair_of(vec_of(var(un(1))), var(ex(2))));
    let results = prove(&empty_db(), &env, &vec![], &vec![goal]);
    assert_eq!(results.len(), 1);
    let s = results[0].substitution();
    let t = pair_of(var(ex(3)), pair_of(var(ex(2)), var(un(1))));
    let once = s.apply(&t);
    let twice = s.apply(&once);
    assert!(once.equals(&twice));
    assert!(once.equals(&pair_of(
        vec_of(var(un(1))),
        pair_of(vec_of(var(un(1))), var(un(1)))
    )));
}

#[test]
fn occurs_check_fails_the_branch() {
    let env = env_of(vec![ex(1)]);
    let results = equate_variable(&empty_db(), env, &vec![], ex(1), &vec_of(var(ex(1))), MAX_DEPTH);
    assert!(results.is_empty());
    let env = env_of(vec![ex(1), ex(2)]);
    let deep = pair_of(var(ex(2)), vec_of(vec_of(var(ex(1)))));
    assert!(equate_variable(&empty_db(), env, &vec![], ex(1), &deep, MAX_DEPTH).is_empty());
    let env = env_of(vec![ex(1)]);
    let goal = Goal::eq(var(ex(1)), vec_of(var(ex(1))));
    assert!(prove(&empty_db(), &env, &vec![], &vec![goal]).is_empty());
}

#[test]
fn equating_demotes_variables_of_higher_universe() {
    let env = env_of(vec![ex(1), ex(2)]);
    let results =
        equate_variable(&empty_db(), env, &vec![], ex(1), &vec_of(var(ex(2))), MAX_DEPTH);
    assert_solutions(
        &results,
        vec![solution(
            vec![ex(3), ex(1), ex(2)],
            vec![(ex(2), var(ex(3))), (ex(1), vec_of(var(ex(3))))],
        )],
    );
    let env = env_of(vec![ex(1), ex(2), ex(3)]);
    let results = equate_variable(
        &empty_db(),
        env,
        &vec![],
        ex(2),
        &pair_of(var(ex(1)), var(ex(3))),
        MAX_DEPTH,
    );
    assert_solutions(
        &results,
        vec![solution(
            vec![ex(1), ex(4), ex(2), ex(3)],
            vec![(ex(3), var(ex(4))), (ex(2), pair_of(var(ex(1)), var(ex(4))))],
        )],
    );
}

#[test]
fn room_is_asked_for_only_where_a_variable_is_made() {
    let top = u64::MAX;
    let env = env_of(vec![un(top), ex(1)]);
    let p = vec_of(var(un(top)));
    let results = equate_variable(&empty_db(), env, &vec![], ex(1), &p, MAX_DEPTH);
    assert_solutions(
        &results,
        vec![solution(vec![un(top), ex(1)], vec![(ex(1), vec_of(var(un(top))))])],
    );
    let env = env_of(vec![un(top), ex(1)]);
    let goal = Goal::eq(var(ex(1)), vec_of(var(un(top))));
    let results = prove(&empty_db(), &env, &vec![], &vec![goal]);
    assert_solutions(
        &results,
        vec![solution(vec![un(top), ex(1)], vec![(ex(1), vec_of(var(un(top))))])],
    );

    let env = env_of(vec![un(1), un(2), ex(3), ex(top - 1)]);
    let p = pair_of(pair_of(var(un(1)), var(un(2))), var(ex(top - 1)));
    let results = equate_variable(&empty_db(), env, &vec![], ex(3), &p, MAX_DEPTH);
    assert_solutions(
        &results,
        vec![solution(
            vec![un(1), un(2), ex(top), ex(3), ex(top - 1)],
            vec![
                (ex(top - 1), var(ex(top))),
                (ex(3), pair_of(pair_of(var(un(1)), var(un(2))), var(ex(top)))),
            ],
        )],
    );

    let env = env_of(vec![ex(1), ex(top)]);
    let p = vec_of(var(ex(top)));
    assert!(equate_variable(&empty_db(), env, &vec![], ex(1), &p, MAX_DEPTH).is_empty());
    let env = env_of(vec![ex(1), ex(top - 1), ex(2)]);
    let p = pair_of(var(ex(top - 1)), var(ex(2)));
    assert!(equate_variable(&empty_db(), env, &vec![], ex(1), &p, MAX_DEPTH).is_empty());
}

#[test]
fn a_universal_variable_of_higher_universe_cannot_be_reached() {
    let env = env_of(vec![ex(1), un(2)]);
    let results =
        equate_variable(&empty_db(), env, &vec![], ex(1), &vec_of(var(un(2))), MAX_DEPTH);
    assert!(results.is_empty());
    let env = env_of(vec![un(2), ex(1)]);
    let results =
        equate_variable(&empty_db(), env, &vec![], ex(1), &vec_of(var(un(2))), MAX_DEPTH);
    assert_solutions(
        &results,
        vec![solution(vec![un(2), ex(1)], vec![(ex(1), vec_of(var(un(2))))])],
    );
}

#[test]
fn existential_variables_are_bound_by_universe() {
    let db = empty_db();
    let env = env_of(vec![ex(1), un(2), ex(3)]);
    let r = prove_existential_var_eq(&db, &env, &vec![], ex(1), &var(ex(3)), MAX_DEPTH);
    assert_solutions(&r, vec![solution(vec![ex(1), un(2), ex(3)], vec![(ex(3), var(ex(1)))])]);
    let r = prove_existential_var_eq(&db, &env, &vec![], ex(3), &var(ex(1)), MAX_DEPTH);
    assert_solutions(&r, vec![solution(vec![ex(1), un(2), ex(3)], vec![(ex(3), var(ex(1)))])]);
    let r = prove_existential_var_eq(&db, &env, &vec![], ex(3), &var(un(2)), MAX_DEPTH);
    assert_solutions(&r, vec![solution(vec![ex(1), un(2), ex(3)], vec![(ex(3), var(un(2)))])]);
    let r = prove_existential_var_eq(&db, &env, &vec![], ex(1), &var(un(2)), MAX_DEPTH);
    assert!(r.is_empty());
    let r = prove_existential_var_eq(&db, &env, &vec![], ex(1), &var(ex(1)), MAX_DEPTH);
    assert_solutions(&r, vec![solution(vec![ex(1), un(2), ex(3)], vec![])]);
    let r = prove_existential_var_eq(&db, &env, &vec![], ex(3), &u32_ty(), MAX_DEPTH);
    assert_solutions(&r, vec![solution(vec![ex(1), un(2), ex(3)], vec![(ex(3), u32_ty())])]);
}

#[test]
fn a_term_equals_itself_trivially() {
    let db = program();
    let env = env_of(vec![un(1), ex(2)]);
    for t in [
        u32_ty(),
        vec_of(vec_of(u32_ty())),
        Term::alias(ITEM, vec![u32_ty()]),
        var(un(1)),
        pair_of(var(ex(2)), var(un(1))),
    ] {
        let r = prove_eq(&db, &env, &vec![], &t, &t, MAX_DEPTH);
        assert_solutions(&r, vec![solution(vec![un(1), ex(2)], vec![])]);
        let r = prove_eq(&db, &env, &vec![], &t, &t, 0);
        assert_solutions(&r, vec![solution(vec![un(1), ex(2)], vec![])]);
        let r = prove_syntactically_eq(&db, &env, &vec![], &t, &t, MAX_DEPTH);
        assert_eq!(r.len(), 1);
    }
}

#[test]
fn mismatched_terms_are_not_equal() {
    let db = empty_db();
    let env = env_of(vec![un(1), un(2)]);
    let none = |a: Term, b: Term| {
        assert!(prove_eq(&db, &env, &vec![], &a, &b, MAX_DEPTH).is_empty());
        assert!(prove_eq(&db, &env, &vec![], &b, &a, MAX_DEPTH).is_empty());
    };
    none(u32_ty(), vec_of(u32_ty()));
    none(vec_of(u32_ty()), Term::rigid(VEC, vec![u32_ty(), u32_ty()]));
    none(vec_of(u32_ty()), vec_of(vec_of(u32_ty())));
    none(var(un(1)), var(un(2)));
    none(var(un(1)), u32_ty());
    none(Term::alias(ITEM, vec![u32_ty()]), Term::rigid(ITEM, vec![u32_ty()]));
    none(Term::alias(ITEM, vec![u32_ty()]), Term::alias(ITEM, vec![vec_of(u32_ty())]));
    assert!(prove_all_eq(&db, &env, &vec![], &vec![u32_ty()], &vec![], MAX_DEPTH).is_empty());
    assert_eq!(prove_all_eq(&db, &env, &vec![], &vec![], &vec![], MAX_DEPTH).len(), 1);
}

#[test]
fn parameters_are_equated_from_the_left() {
    let db = empty_db();
    let env = env_of(vec![ex(1), ex(2)]);
    let a = pair_of(var(ex(1)), var(ex(2)));
    let b = pair_of(u32_ty(), vec_of(var(ex(1))));
    let r = prove_eq(&db, &env, &vec![], &a, &b, MAX_DEPTH);
    assert_solutions(
        &r,
        vec![solution(
            vec![ex(1), ex(2)],
            vec![(ex(1), u32_ty()), (ex(2), vec_of(u32_ty()))],
        )],
    );
    let conflicting = pair_of(u32_ty(), vec_of(u32_ty()));
    let same = pair_of(var(ex(1)), var(ex(1)));
    assert!(prove_eq(&db, &env, &vec![], &same, &conflicting, MAX_DEPTH).is_empty());
}

#[test]
fn every_binding_respects_universes() {
    let env = env_of(vec![ex(1), un(2), ex(3), ex(4)]);
    let goals = vec![
        Goal::eq(var(ex(1)), vec_of(var(ex(4)))),
        Goal::eq(var(ex(3)), pair_of(var(un(2)), var(ex(4)))),
    ];
    let results = prove(&empty_db(), &env, &vec![], &goals);
    assert_eq!(results.len(), 1);
    for c in results.iter() {
        assert!(c.env().is_well_formed());
        for (v, t) in c.substitution().bindings.iter() {
            assert_eq!(v.kind, Kind::Existential);
            assert!(c.env().contains(*v));
            for w in list_free_variables(t) {
                assert!(c.env().contains(w));
                assert!(c.env().universe(w) <= c.env().universe(*v));
                assert!(!c.substitution().contains_key(w));
            }
        }
        for v in env.variables.iter() {
            assert!(c.env().contains(*v));
        }
        assert!(c.env().universe(ex(1)) < c.env().universe(un(2)));
        assert!(c.env().universe(un(2)) < c.env().universe(ex(3)));
        assert!(c.env().universe(ex(3)) < c.env().universe(ex(4)));
    }
}

#[test]
fn sequencing_without_goals_or_depth() {
    let db = empty_db();
    let c = solution(vec![ex(1)], vec![(ex(1), u32_ty())]);
    let r = prove_after(&db, &c, &vec![], &vec![], 0);
    assert_solutions(&r, vec![solution(vec![ex(1)], vec![(ex(1), u32_ty())])]);
    let goal = Goal::eq(u32_ty(), u32_ty());
    assert!(prove_after(&db, &c, &vec![], &vec![goal.clone()], 0).is_empty());
    assert_eq!(prove_after(&db, &c, &vec![], &vec![goal], 1).len(), 1);
    let c = solution(vec![ex(1), ex(2)], vec![(ex(1), u32_ty())]);
    let goal = Goal::eq(var(ex(2)), vec_of(var(ex(1))));
    let r = prove_after(&db, &c, &vec![], &vec![goal], 5);
    assert_solutions(
        &r,
        vec![solution(
            vec![ex(1), ex(2)],
            vec![(ex(1), u32_ty()), (ex(2), vec_of(u32_ty()))],
        )],
    );
}

#[test]
fn assumptions_prove_goals_they_match() {
    let db = empty_db();
    let env = env_of(vec![un(1), ex(2)]);
    let assumed = Clause::fact(Goal::implemented(DEBUG, vec![var(un(1))]));
    let r = prove(&db, &env, &vec![assumed], &vec![Goal::implemented(DEBUG, vec![var(ex(2))])]);
    assert_solutions(&r, vec![solution(vec![un(1), ex(2)], vec![(ex(2), var(un(1)))])]);
    let r = prove(&db, &env, &vec![], &vec![Goal::implemented(DEBUG, vec![var(un(1))])]);
    assert!(r.is_empty());
}

#[test]
fn invariants_are_assumed_for_their_shape() {
    let from_ord = Clause::new(
        1,
        vec![Goal::implemented(ORD, vec![bound(0)])],
        Goal::implemented(PARTIAL_ORD, vec![bound(0)]),
    );
    let db = MockDb::new(vec![], vec![from_ord]);
    assert_eq!(db.invariants_for_predicate(Shape::Implemented(PARTIAL_ORD)).len(), 1);
    assert_eq!(db.program_clauses(Shape::Implemented(PARTIAL_ORD)).len(), 0);
    assert!(db.elaborate_relation(&Goal::eq(u32_ty(), u32_ty())).is_empty());
    let env = env_of(vec![un(1)]);
    let assumed = Clause::fact(Goal::implemented(ORD, vec![var(un(1))]));
    let goal = Goal::implemented(PARTIAL_ORD, vec![var(un(1))]);
    let r = prove(&db, &env, &vec![assumed], &vec![goal.clone()]);
    assert_solutions(&r, vec![solution(vec![un(1)], vec![])]);
    assert!(prove(&db, &env, &vec![], &vec![goal]).is_empty());
}

#[test]
fn several_clauses_give_several_solutions() {
    let clauses = vec![
        Clause::fact(Goal::implemented(DEBUG, vec![u32_ty()])),
        Clause::fact(Goal::implemented(DEBUG, vec![vec_of(u32_ty())])),
        Clause::fact(Goal::implemented(DEBUG, vec![u32_ty()])),
    ];
    let db = MockDb::new(clauses, vec![]);
    let env = env_of(vec![ex(1)]);
    let goal = Goal::implemented(DEBUG, vec![var(ex(1))]);
    let r = prove_goal(&db, &env, &vec![], &goal, MAX_DEPTH);
    assert_solutions(
        &r,
        vec![
            solution(vec![ex(1)], vec![(ex(1), u32_ty())]),
            solution(vec![ex(1)], vec![(ex(1), vec_of(u32_ty()))]),
        ],
    );
    let both = vec![goal, Goal::eq(var(ex(1)), vec_of(u32_ty()))];
    let r = prove(&db, &env, &vec![], &both);
    assert_solutions(&r, vec![solution(vec![ex(1)], vec![(ex(1), vec_of(u32_ty()))])]);
}

#[test]
fn a_clause_is_used_with_fresh_variables() {
    let k = Clause::new(
        2,
        vec![Goal::implemented(DEBUG, vec![bound(1)])],
        Goal::implemented(DEBUG, vec![pair_of(bound(0), bound(1))]),
    );
    let env = env_of(vec![ex(1), un(5)]);
    let instance = instantiate(&env, &k).unwrap();
    assert!(instance.env.equals(&env_of(vec![ex(1), un(5), ex(6), ex(7)])));
    assert_eq!(instance.first, ex(6));
    assert!(instance
        .conclusion
        .equals(&Goal::implemented(DEBUG, vec![pair_of(var(ex(6)), var(ex(7)))])));
    assert!(instance.conditions[0].equals(&Goal::implemented(DEBUG, vec![var(ex(7))])));
    let open = Clause::new(1, vec![], Goal::implemented(DEBUG, vec![bound(1)]));
    assert!(instantiate(&env, &open).is_none());
    let full = env_of(vec![ex(u64::MAX)]);
    assert!(instantiate(&full, &k).is_none());

    let db = MockDb::new(vec![Clause::fact(Goal::implemented(DEBUG, vec![u32_ty()]))], vec![]);
    let goal = Goal::implemented(DEBUG, vec![pair_of(var(ex(1)), u32_ty())]);
    let r = prove_via(&db, &env, &vec![], &k, &goal, MAX_DEPTH);
    assert_solutions(&r, vec![solution(vec![ex(1), un(5)], vec![])]);
    let wrong = Goal::implemented(ORD, vec![pair_of(var(ex(1)), u32_ty())]);
    assert!(prove_via(&db, &env, &vec![], &k, &wrong, MAX_DEPTH).is_empty());
}

#[test]
fn only_projections_are_normalized() {
    let db = program();
    let env = env_of(vec![un(1)]);
    assert!(prove_normalize(&db, &env, &vec![], &u32_ty(), MAX_DEPTH).is_empty());
    assert!(prove_normalize(&db, &env, &vec![], &var(un(1)), MAX_DEPTH).is_empty());
    let projection = Term::alias(ITEM, vec![var(un(1))]);
    assert!(prove_normalize(&db, &env, &vec![], &projection, MAX_DEPTH).is_empty());
    let known = Clause::fact(Goal::normalizes_to(ITEM, vec![var(un(1))], u32_ty()));
    let values = prove_normalize(&db, &env, &vec![known], &projection, MAX_DEPTH);
    assert_eq!(values.len(), 1);
    assert!(values[0].value.equals(&u32_ty()));
    assert!(values[0].constraints.equals(&solution(vec![un(1)], vec![])));
    let stated = Clause::fact(Goal::eq(projection.clone(), vec_of(u32_ty())));
    let values = prove_normalize(&db, &env, &vec![stated], &projection, MAX_DEPTH);
    assert_eq!(values.len(), 1);
    assert!(values[0].value.equals(&vec_of(u32_ty())));
}

#[test]
fn quantified_formulas_are_proved_in_their_own_scope() {
    let db = program();
    let env = Env::new();
    let debug = |t: Term| Goal::implemented(DEBUG, vec![t]);

    let some = Formula::for_some(
        1,
        Formula::all(vec![debug(bound(0)), Goal::eq(bound(0), u32_ty())]),
    );
    let r = prove_formula(&db, &env, &vec![], &some);
    assert_solutions(&r, vec![solution(vec![], vec![])]);

    let many = Formula::for_some(1, Formula::all(vec![debug(vec_of(bound(0)))]));
    let r = prove_formula(&db, &env, &vec![], &many);
    assert!(!r.is_empty());
    assert!(r.iter().all(|c| c.known_true() && c.env().is_well_formed()));

    let every = Formula::for_all(1, Formula::all(vec![debug(bound(0))]));
    assert!(prove_formula(&db, &env, &vec![], &every).is_empty());

    let given = Formula::for_all(
        1,
        Formula::implies(vec![debug(bound(0))], Formula::all(vec![debug(vec_of(bound(0)))])),
    );
    let r = prove_formula(&db, &env, &vec![], &given);
    assert_solutions(&r, vec![solution(vec![], vec![])]);

    let nested = Formula::for_all(
        1,
        Formula::for_some(1, Formula::all(vec![Goal::eq(vec_of(bound(0)), bound(1))])),
    );
    let r = prove_formula(&db, &env, &vec![], &nested);
    assert_solutions(&r, vec![solution(vec![], vec![])]);

    let escaping = Formula::for_some(
        1,
        Formula::for_all(1, Formula::all(vec![Goal::eq(bound(0), bound(1))])),
    );
    assert!(prove_formula(&db, &env, &vec![], &escaping).is_empty());

    let unopened = Formula::all(vec![debug(bound(0))]);
    assert!(prove_formula(&db, &env, &vec![], &unopened).is_empty());

    let outer = env_of(vec![ex(1)]);
    let about_outer =
        Formula::for_some(1, Formula::all(vec![Goal::eq(var(ex(1)), vec_of(bound(0)))]));
    let r = prove_formula(&db, &outer, &vec![], &about_outer);
    assert_eq!(r.len(), 1);
    assert!(r[0].env().contains(ex(1)));
    assert!(!r[0].env().contains(ex(2)));
    assert!(r[0].substitution().contains_key(ex(1)));
}

#[test]
fn example_program_holds_two_implementations() {
    let p = program();
    assert_eq!(p.max_size, 22);
    assert_eq!(p.trait_decls.len(), 1);
    assert_eq!(p.trait_decls[0].name, DEBUG);
    assert_eq!(p.trait_decls[0].parameters, 1);
    assert!(p.trait_decls[0].invariants.is_empty());
    assert_eq!(p.impl_decls.len(), 2);
    assert!(p.impl_decls[0].equals(&Clause::new(
        1,
        vec![Goal::implemented(DEBUG, vec![bound(0)])],
        Goal::implemented(DEBUG, vec![vec_of(bound(0))]),
    )));
    assert!(p.impl_decls[1].equals(&Clause::fact(Goal::implemented(DEBUG, vec![u32_ty()]))));
    assert!(p.alias_eq_decls.is_empty());
    assert!(p.alias_bound_decls.is_empty());
    let db = MockDb::new(p.impl_decls, vec![]);
    assert_eq!(db.clauses.len(), 2);
    assert!(db.invariants.is_empty());
}
