use formality_prove::constraints::Constraints;
use formality_prove::db::{program, Database, MockDb, Program, TraitDecl, DEBUG, U32, VEC};
use formality_prove::env::Env;
use formality_prove::grammar::{Clause, Goal, Kind, Shape, Term, Variable};
use formality_prove::prove::{prove, prove_all, try_prove, MAX_DEPTH};
use formality_prove::substitution::Substitution;

fn ex(index: u64) -> Variable {
    Variable::existential(index)
}

fn un(index: u64) -> Variable {
    Variable::universal(index)
}

fn bound(index: u64) -> Term {
    Term::var(Variable::bound(index))
}

fn rigid(name: u64, parameters: Vec<Term>) -> Term {
    Term::rigid(name, parameters)
}

fn solution(variables: Vec<Variable>, bindings: Vec<(Variable, Term)>) -> Constraints {
    Constraints {
        env: Env { variables },
        known_true: true,
        substitution: Substitution { bindings },
    }
}

fn holds(results: &Vec<Constraints>, expected: &Constraints) -> bool {
    results.iter().any(|c| c.equals(expected))
}

fn assert_solutions(results: &Vec<Constraints>, expected: Vec<Constraints>) {
    assert_eq!(results.len(), expected.len(), "got {:?}", results);
    for e in expected.iter() {
        assert!(holds(results, e), "missing {:?} in {:?}", e, results);
    }
}

fn debug_of(t: Term) -> Goal {
    Goal::implemented(DEBUG, vec![t])
}

fn debug_clauses() -> Vec<Clause> {
    vec![
        Clause::new(
            1,
            vec![debug_of(bound(0))],
            debug_of(rigid(VEC, vec![bound(0)])),
        ),
        Clause::fact(debug_of(rigid(U32, vec![]))),
    ]
}

const ITERATOR: u64 = 20;
const INTO_ITERATOR: u64 = 21;
const ITEM: u64 = 30;
const INTO_ITEM: u64 = 31;
const FOO: u64 = 40;
const MIRROR: u64 = 50;
const ASSOC: u64 = 51;
const TRAIT1: u64 = 60;
const TRAIT2: u64 = 61;
const TYPE: u64 = 62;
const S: u64 = 63;

fn trait_decl(name: u64, parameters: usize) -> TraitDecl {
    TraitDecl { name, parameters, invariants: vec![] }
}

fn u32_ty() -> Term {
    rigid(U32, vec![])
}

fn vec_of(t: Term) -> Term {
    rigid(VEC, vec![t])
}

fn item_of(t: Term) -> Term {
    Term::alias(ITEM, vec![t])
}

fn mirror_program() -> Program {
    Program {
        max_size: 22,
        trait_decls: vec![trait_decl(MIRROR, 1)],
        impl_decls: vec![Clause::new(1, vec![], Goal::implemented(MIRROR, vec![bound(0)]))],
        alias_eq_decls: vec![Clause::new(
            1,
            vec![],
            Goal::normalizes_to(ASSOC, vec![bound(0)], bound(0)),
        )],
        alias_bound_decls: vec![],
    }
}

fn normalize_basic_program() -> Program {
    Program {
        max_size: 22,
        trait_decls: vec![trait_decl(ITERATOR, 1)],
        impl_decls: vec![Clause::new(
            1,
            vec![],
            Goal::implemented(ITERATOR, vec![vec_of(bound(0))]),
        )],
        alias_eq_decls: vec![Clause::new(
            1,
            vec![],
            Goal::normalizes_to(ITEM, vec![vec_of(bound(0))], bound(0)),
        )],
        alias_bound_decls: vec![],
    }
}

#[test]
fn simple_test() {
    let db = MockDb::new(debug_clauses(), vec![]);
    let env = Env::new();
    let results = prove(&db, &env, &vec![], &vec![debug_of(vec_of(u32_ty()))]);
    assert_solutions(&results, vec![solution(vec![], vec![])]);
}

#[test]
fn vec_u32_debug() {
    let constraints = program().prove(&vec![], &vec![debug_of(vec_of(u32_ty()))]);
    assert_eq!(constraints.len(), 1);
    assert!(constraints[0].known_true());
    assert_eq!(constraints[0].substitution().len(), 0);
    assert_solutions(&constraints, vec![solution(vec![], vec![])]);
}

#[test]
fn vec_vec_u32_debug() {
    let constraints = program().prove(&vec![], &vec![debug_of(vec_of(vec_of(u32_ty())))]);
    assert_eq!(constraints.len(), 1);
    assert!(constraints[0].known_true());
    assert_eq!(constraints[0].substitution().len(), 0);
    assert_solutions(&constraints, vec![solution(vec![], vec![])]);
}

#[test]
fn test_mirror_normalizes_u32_to_u32() {
    let env = Env { variables: vec![ex(1)] };
    let projection = Term::alias(ASSOC, vec![u32_ty()]);
    let goal = Goal::eq(projection.clone(), Term::var(ex(1)));
    let results = prove(&mirror_program(), &env, &vec![], &vec![goal]);
    assert_solutions(
        &results,
        vec![
            solution(vec![ex(1)], vec![(ex(1), u32_ty())]),
            solution(vec![ex(1)], vec![(ex(1), projection)]),
        ],
    );
}

#[test]
fn normalize_basic() {
    let db = normalize_basic_program();
    let t = || Term::var(un(1));
    let u = || Term::var(ex(2));

    let env = Env { variables: vec![un(1), ex(2)] };
    let results = prove(&db, &env, &vec![], &vec![Goal::eq(item_of(vec_of(t())), u())]);
    assert_solutions(
        &results,
        vec![
            solution(vec![un(1), ex(2)], vec![(ex(2), item_of(vec_of(t())))]),
            solution(vec![un(1), ex(2)], vec![(ex(2), t())]),
        ],
    );

    let env = Env { variables: vec![un(1)] };
    let results = prove(
        &db,
        &env,
        &vec![],
        &vec![
            Goal::implemented(ITERATOR, vec![vec_of(t())]),
            Goal::eq(item_of(vec_of(t())), t()),
        ],
    );
    assert_solutions(&results, vec![solution(vec![un(1)], vec![])]);

    let foo = || rigid(FOO, vec![]);
    let results = prove(
        &db,
        &env,
        &vec![
            Clause::fact(Goal::implemented(ITERATOR, vec![t()])),
            Clause::fact(Goal::eq(item_of(t()), foo())),
        ],
        &vec![Goal::eq(item_of(t()), foo())],
    );
    assert_solutions(&results, vec![solution(vec![un(1)], vec![])]);

    let env = Env { variables: vec![un(1), ex(2)] };
    let results = prove(
        &db,
        &env,
        &vec![Clause::fact(Goal::implemented(ITERATOR, vec![t()]))],
        &vec![Goal::eq(item_of(t()), u())],
    );
    assert_solutions(&results, vec![solution(vec![un(1), ex(2)], vec![(ex(2), item_of(t()))])]);

    let env = Env { variables: vec![un(1)] };
    let results = prove(
        &db,
        &env,
        &vec![Clause::fact(Goal::implemented(ITERATOR, vec![t()]))],
        &vec![Goal::eq(item_of(t()), item_of(t()))],
    );
    assert_solutions(&results, vec![solution(vec![un(1)], vec![])]);

    // The variable that is brought in below `?2` is a fresh one: it is numbered
    // after the clause's own variable, which was `?3`.
    let env = Env { variables: vec![un(1), ex(2)] };
    let results = prove(
        &db,
        &env,
        &vec![Clause::fact(Goal::implemented(ITERATOR, vec![t()]))],
        &vec![Goal::eq(item_of(t()), item_of(u()))],
    );
    assert_solutions(
        &results,
        vec![
            solution(vec![un(1), ex(2)], vec![(ex(2), t())]),
            solution(
                vec![un(1), ex(4), ex(2)],
                vec![(ex(2), vec_of(item_of(t()))), (ex(4), item_of(t()))],
            ),
        ],
    );
}

#[test]
fn normalize_into_iterator() {
    let db = Program {
        max_size: 22,
        trait_decls: vec![trait_decl(INTO_ITERATOR, 1), trait_decl(ITERATOR, 1)],
        impl_decls: vec![
            Clause::new(1, vec![], Goal::implemented(INTO_ITERATOR, vec![vec_of(bound(0))])),
            Clause::new(
                1,
                vec![Goal::implemented(ITERATOR, vec![bound(0)])],
                Goal::implemented(INTO_ITERATOR, vec![bound(0)]),
            ),
        ],
        alias_eq_decls: vec![
            Clause::new(
                1,
                vec![],
                Goal::normalizes_to(INTO_ITEM, vec![vec_of(bound(0))], bound(0)),
            ),
            Clause::new(
                1,
                vec![Goal::implemented(ITERATOR, vec![bound(0)])],
                Goal::normalizes_to(INTO_ITEM, vec![bound(0)], item_of(bound(0))),
            ),
        ],
        alias_bound_decls: vec![],
    };
    let env = Env { variables: vec![un(1), ex(2)] };
    let projection = Term::alias(INTO_ITEM, vec![vec_of(Term::var(un(1)))]);
    let results =
        prove(&db, &env, &vec![], &vec![Goal::eq(projection.clone(), Term::var(ex(2)))]);
    assert_solutions(
        &results,
        vec![
            solution(vec![un(1), ex(2)], vec![(ex(2), projection)]),
            solution(vec![un(1), ex(2)], vec![(ex(2), Term::var(un(1)))]),
        ],
    );
}

#[test]
fn projection_equality() {
    let s = || rigid(S, vec![]);
    let type_of_s = || Term::alias(TYPE, vec![s()]);
    let db = Program {
        max_size: 22,
        trait_decls: vec![trait_decl(TRAIT1, 1), trait_decl(TRAIT2, 2)],
        impl_decls: vec![
            Clause::new(
                2,
                vec![
                    Goal::implemented(TRAIT1, vec![bound(1)]),
                    Goal::eq(type_of_s(), bound(0)),
                ],
                Goal::implemented(TRAIT2, vec![bound(1), bound(0)]),
            ),
            Clause::fact(Goal::implemented(TRAIT1, vec![s()])),
        ],
        alias_eq_decls: vec![Clause::fact(Goal::normalizes_to(TYPE, vec![s()], u32_ty()))],
        alias_bound_decls: vec![],
    };
    let env = Env { variables: vec![ex(1)] };
    let expected = || {
        vec![
            solution(vec![ex(1)], vec![(ex(1), u32_ty())]),
            solution(vec![ex(1)], vec![(ex(1), type_of_s())]),
        ]
    };

    let results = prove(
        &db,
        &env,
        &vec![],
        &vec![Goal::implemented(TRAIT1, vec![s()]), Goal::eq(type_of_s(), Term::var(ex(1)))],
    );
    assert_solutions(&results, expected());

    let results =
        prove(&db, &env, &vec![], &vec![Goal::implemented(TRAIT2, vec![s(), Term::var(ex(1))])]);
    assert_solutions(&results, expected());
}

#[test]
fn projection_is_normalized_or_deferred() {
    let base = || rigid(FOO, vec![]);
    let assoc_of_base = || Term::alias(ASSOC, vec![base()]);
    let db = MockDb::new(
        vec![
            Clause::fact(Goal::implemented(MIRROR, vec![base()])),
            Clause::fact(Goal::normalizes_to(ASSOC, vec![base()], base())),
        ],
        vec![],
    );
    let env = Env { variables: vec![ex(1)] };
    let results = prove(&db, &env, &vec![], &vec![Goal::eq(assoc_of_base(), Term::var(ex(1)))]);
    assert_solutions(
        &results,
        vec![
            solution(vec![ex(1)], vec![(ex(1), base())]),
            solution(vec![ex(1)], vec![(ex(1), assoc_of_base())]),
        ],
    );
    assert!(results.iter().all(|c| c.known_true()));
    let flipped = prove(&db, &env, &vec![], &vec![Goal::eq(Term::var(ex(1)), assoc_of_base())]);
    assert_solutions(
        &flipped,
        vec![
            solution(vec![ex(1)], vec![(ex(1), base())]),
            solution(vec![ex(1)], vec![(ex(1), assoc_of_base())]),
        ],
    );
}

#[test]
fn unmatched_goal_has_no_solution() {
    let db = MockDb::new(debug_clauses(), vec![]);
    let env = Env::new();
    let results = prove(&db, &env, &vec![], &vec![debug_of(rigid(FOO, vec![]))]);
    assert!(results.is_empty());
    let results = prove(&db, &env, &vec![], &vec![Goal::implemented(ITERATOR, vec![u32_ty()])]);
    assert!(results.is_empty());
}

#[test]
fn depth_bound_fails_the_branch() {
    let db = MockDb::new(debug_clauses(), vec![]);
    let env = Env::new();
    let goals = vec![debug_of(vec_of(vec_of(u32_ty())))];
    assert!(prove_all(&db, &env, &vec![], &goals, 0).is_empty());
    assert!(prove_all(&db, &env, &vec![], &goals, 2).is_empty());
    assert_eq!(prove_all(&db, &env, &vec![], &goals, 3).len(), 1);
    assert_eq!(prove_all(&db, &env, &vec![], &goals, MAX_DEPTH).len(), 1);
    assert_eq!(MAX_DEPTH, 22);
}

#[test]
fn nothing_is_searched_outside_the_contract() {
    let db = MockDb::new(debug_clauses(), vec![]);
    let goals = vec![debug_of(vec_of(Term::var(ex(1))))];
    assert!(try_prove(&db, &Env::new(), &vec![], &goals).is_none());
    let twice = Env { variables: vec![ex(1), ex(1)] };
    assert!(try_prove(&db, &twice, &vec![], &goals).is_none());
    let env = Env { variables: vec![ex(1)] };
    let found = try_prove(&db, &env, &vec![], &goals).unwrap();
    assert!(holds(&found, &solution(vec![ex(1)], vec![(ex(1), u32_ty())])));
    assert!(found.len() > 1);
}

#[test]
fn clauses_chain_to_any_depth() {
    let db = program();
    let env = Env { variables: vec![un(7), ex(3)] };
    let mut t = u32_ty();
    for n in 0..8usize {
        let goals = vec![debug_of(t.clone())];
        let found = prove_all(&db, &env, &vec![], &goals, n + 1);
        assert_solutions(&found, vec![solution(vec![un(7), ex(3)], vec![])]);
        assert!(prove_all(&db, &env, &vec![], &goals, n).is_empty());
        let found = prove_all(&db, &Env::new(), &vec![], &goals, MAX_DEPTH);
        assert_solutions(&found, vec![solution(vec![], vec![])]);
        t = vec_of(t);
    }
}

#[test]
fn rerunning_gives_the_same_solutions() {
    let env = Env { variables: vec![un(1), ex(2)] };
    let goals = vec![Goal::eq(item_of(Term::var(un(1))), item_of(Term::var(ex(2))))];
    let hs = vec![Clause::fact(Goal::implemented(ITERATOR, vec![Term::var(un(1))]))];
    let first = prove(&normalize_basic_program(), &env, &hs, &goals);
    let second = prove(&normalize_basic_program(), &env, &hs, &goals);
    assert_eq!(first.len(), second.len());
    for i in 0..first.len() {
        assert!(first[i].equals(&second[i]));
    }
}

#[test]
fn program_answers_by_shape() {
    let p = program();
    assert_eq!(p.max_size, 22);
    assert_eq!(p.program_clauses(Shape::Implemented(DEBUG)).len(), 2);
    assert_eq!(p.program_clauses(Shape::Implemented(ITERATOR)).len(), 0);
    assert_eq!(p.program_clauses(Shape::NormalizesTo(ITEM)).len(), 0);
    assert_eq!(p.invariants_for_predicate(Shape::Implemented(DEBUG)).len(), 0);
    let derived = p.elaborate_relation(&Goal::eq(item_of(u32_ty()), rigid(FOO, vec![])));
    assert_eq!(derived.len(), 1);
    assert!(derived[0].equals(&Clause::fact(Goal::normalizes_to(
        ITEM,
        vec![u32_ty()],
        rigid(FOO, vec![])
    ))));
    assert_eq!(p.trait_decls[0].name, DEBUG);
    assert_eq!(ex(1).kind, Kind::Existential);
}
