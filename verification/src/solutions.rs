//! Lists of solutions without repetition.
//!
//! A step of the search yields every solution once: two solutions are the
//! same when they are structurally equal. The lists keep the order in which
//! the solutions were found.
use crate::constraints::{
    lemma_substitution_idempotent, solutions_view, Constraints, ConstraintsView,
};
use crate::env::{extends, fresh_variable, lemma_extends_transitive, lemma_take, rank};
use crate::grammar::{Kind, TermView, Variable};
use crate::substitution::apply;
use crate::visit::free_vars;
use vstd::prelude::*;

verus! {

/// `s`, followed by `a` unless `s` holds it already.
pub open spec fn insert_unique<A>(s: Seq<A>, a: A) -> Seq<A> {
    if s.contains(a) {
        s
    } else {
        s.push(a)
    }
}

/// `s`, followed by those of the first `n` elements of `t` that it does not
/// hold yet, each once.
pub open spec fn union_upto<A>(s: Seq<A>, t: Seq<A>, n: int) -> Seq<A>
    decreases n,
{
    if n <= 0 || n > t.len() {
        s
    } else {
        insert_unique(union_upto(s, t, n - 1), t[n - 1])
    }
}

/// `s`, followed by the elements of `t` that it does not hold yet, each once.
pub open spec fn union<A>(s: Seq<A>, t: Seq<A>) -> Seq<A> {
    union_upto(s, t, t.len() as int)
}

/// Each of the first `n` solutions of `rs` that `c` admits, put after `c`.
pub open spec fn seq_all_upto(c: ConstraintsView, rs: Seq<ConstraintsView>, n: int) -> Seq<
    ConstraintsView,
>
    decreases n,
{
    if n <= 0 || n > rs.len() {
        Seq::empty()
    } else {
        let acc = seq_all_upto(c, rs, n - 1);
        if c.admits(rs[n - 1]) {
            insert_unique(acc, c.seq(rs[n - 1]))
        } else {
            acc
        }
    }
}

/// Each solution of `rs` that `c` admits, put after `c`.
pub open spec fn seq_all(c: ConstraintsView, rs: Seq<ConstraintsView>) -> Seq<ConstraintsView> {
    seq_all_upto(c, rs, rs.len() as int)
}

/// `c` as it is seen from `outer`, the environment into which `brought`
/// fresh variables of the given kind were brought for a sub-proof: if there
/// were any, `c` is cut off at the universe of the first of them.
pub open spec fn pop(
    c: ConstraintsView,
    outer: Seq<Variable>,
    kind: Kind,
    brought: nat,
) -> ConstraintsView {
    if brought == 0 {
        c
    } else {
        c.truncate(rank(c.env, fresh_variable(outer, kind)))
    }
}

/// The first `n` solutions of `rs`, each taken out of the scope of the
/// variables that were brought in.
pub open spec fn pop_all_upto(
    rs: Seq<ConstraintsView>,
    outer: Seq<Variable>,
    kind: Kind,
    brought: nat,
    n: int,
) -> Seq<ConstraintsView>
    decreases n,
{
    if n <= 0 || n > rs.len() {
        Seq::empty()
    } else {
        insert_unique(
            pop_all_upto(rs, outer, kind, brought, n - 1),
            pop(rs[n - 1], outer, kind, brought),
        )
    }
}

/// The solutions of `rs`, each taken out of the scope of the variables that
/// were brought in, each once.
pub open spec fn pop_all(
    rs: Seq<ConstraintsView>,
    outer: Seq<Variable>,
    kind: Kind,
    brought: nat,
) -> Seq<ConstraintsView> {
    pop_all_upto(rs, outer, kind, brought, rs.len() as int)
}

/// If variables were brought into `outer` to make `inner`, `first` is the
/// first of them and stands above every variable of `outer`.
pub open spec fn left_below(
    inner: Seq<Variable>,
    outer: Seq<Variable>,
    kind: Kind,
    brought: nat,
    first: Variable,
) -> bool {
    brought > 0 ==> first == fresh_variable(outer, kind) && inner.contains(first)
        && forall|v: Variable| #[trigger] outer.contains(v) ==> rank(inner, v) < rank(inner, first)
}

/// Every solution is well formed and stated in an environment that extends
/// `env`, and no two are equal.
pub open spec fn sound(rs: Seq<Constraints>, env: Seq<Variable>) -> bool {
    &&& forall|i: int|
        0 <= i < rs.len() ==> (#[trigger] rs[i]).well_formed() && extends(rs[i]@.env, env)
    &&& solutions_view(rs).no_duplicates()
}

/// Every solution holds outright.
pub open spec fn certain(rs: Seq<Constraints>) -> bool {
    forall|i: int| 0 <= i < rs.len() ==> (#[trigger] rs[i]).known_true
}

/// Adding an element that is not yet held keeps a list free of repetition.
pub proof fn lemma_insert_unique<A>(s: Seq<A>, a: A)
    requires
        s.no_duplicates(),
    ensures
        insert_unique(s, a).no_duplicates(),
        insert_unique(s, a).contains(a),
{
    if !s.contains(a) {
        assert(s.push(a)[s.len() as int] == a);
    } else {
    }
}

/// Solutions that are sound over an environment are sound over one that it
/// extends.
pub proof fn lemma_sound_extends(rs: Seq<Constraints>, e2: Seq<Variable>, e1: Seq<Variable>)
    requires
        sound(rs, e2),
        extends(e2, e1),
    ensures
        sound(rs, e1),
{
    assert forall|i: int| 0 <= i < rs.len() implies (#[trigger] rs[i]).well_formed() && extends(
        rs[i]@.env,
        e1,
    ) by {
        lemma_extends_transitive(rs[i]@.env, e2, e1);
    }
}

/// In solutions that are sound, a variable is bound only to a term whose
/// variables are in scope and of no higher universe than the variable, and a
/// second application of a solution's substitution changes nothing.
pub proof fn lemma_sound_solution(
    rs: Seq<Constraints>,
    env: Seq<Variable>,
    i: int,
    v: Variable,
    w: Variable,
    t: TermView,
)
    requires
        sound(rs, env),
        0 <= i < rs.len(),
    ensures
        rs[i]@.substitution.contains_key(v) && free_vars(rs[i]@.substitution[v]).contains(w)
            ==> rs[i]@.env.contains(w) && rank(rs[i]@.env, w) <= rank(rs[i]@.env, v),
        apply(rs[i]@.substitution, apply(rs[i]@.substitution, t)) == apply(
            rs[i]@.substitution,
            t,
        ),
{
    lemma_substitution_idempotent(rs[i]@, t);
}

/// Whether `rs` holds a solution equal to `c`.
pub fn holds(rs: &Vec<Constraints>, c: &Constraints) -> (r: bool)
    ensures
        r == solutions_view(rs@).contains(c@),
{
    let mut i: usize = 0;
    while i < rs.len()
        invariant
            0 <= i <= rs.len(),
            forall|j: int| 0 <= j < i ==> solutions_view(rs@)[j] != c@,
        decreases rs.len() - i,
    {
        if rs[i].equals(c) {
            assert(solutions_view(rs@)[i as int] == c@);
            return true;
        }
        i += 1;
    }
    false
}

/// Adds `c` unless `rs` holds it already.
pub(crate) fn push_unique(
    rs: &mut Vec<Constraints>,
    c: Constraints,
    Ghost(env): Ghost<Seq<Variable>>,
)
    requires
        sound(old(rs)@, env),
        c.well_formed(),
        extends(c@.env, env),
    ensures
        solutions_view(final(rs)@) == insert_unique(solutions_view(old(rs)@), c@),
        sound(final(rs)@, env),
        certain(old(rs)@) && c.known_true ==> certain(final(rs)@),
{
    proof {
        lemma_insert_unique(solutions_view(rs@), c@);
    }
    if !holds(rs, &c) {
        rs.push(c);
        assert(solutions_view(rs@) =~= solutions_view(old(rs)@).push(c@));
    }
}

/// Adds each solution of `more` that `rs` does not hold yet.
pub(crate) fn append_unique(
    rs: &mut Vec<Constraints>,
    more: &Vec<Constraints>,
    Ghost(env): Ghost<Seq<Variable>>,
)
    requires
        sound(old(rs)@, env),
        sound(more@, env),
    ensures
        solutions_view(final(rs)@) == union(solutions_view(old(rs)@), solutions_view(more@)),
        sound(final(rs)@, env),
        certain(old(rs)@) && certain(more@) ==> certain(final(rs)@),
{
    let mut i: usize = 0;
    while i < more.len()
        invariant
            0 <= i <= more.len(),
            sound(rs@, env),
            sound(more@, env),
            certain(old(rs)@) && certain(more@) ==> certain(rs@),
            solutions_view(rs@) == union_upto(
                solutions_view(old(rs)@),
                solutions_view(more@),
                i as int,
            ),
        decreases more.len() - i,
    {
        push_unique(rs, more[i].clone(), Ghost(env));
        i += 1;
    }
}

/// Each solution of `rs` that `c` admits, put after `c`.
pub fn sequence(c: &Constraints, rs: &Vec<Constraints>) -> (r: Vec<Constraints>)
    requires
        c.well_formed(),
        sound(rs@, c@.env),
    ensures
        solutions_view(r@) == seq_all(c@, solutions_view(rs@)),
        sound(r@, c@.env),
        c.known_true && certain(rs@) ==> certain(r@),
{
    let mut out: Vec<Constraints> = Vec::new();
    let mut i: usize = 0;
    assert(solutions_view(out@) =~= Seq::empty());
    while i < rs.len()
        invariant
            0 <= i <= rs.len(),
            c.well_formed(),
            sound(rs@, c@.env),
            sound(out@, c@.env),
            c.known_true && certain(rs@) ==> certain(out@),
            solutions_view(out@) == seq_all_upto(c@, solutions_view(rs@), i as int),
        decreases rs.len() - i,
    {
        if c.admits(&rs[i]) {
            let combined = c.seq(&rs[i]);
            push_unique(&mut out, combined, Ghost(c@.env));
        }
        i += 1;
    }
    out
}

/// The solutions of `rs`, each taken out of the scope of the `brought`
/// variables that were brought in, `first` being the first of them.
pub(crate) fn leave_scope(
    rs: &Vec<Constraints>,
    brought: usize,
    first: Variable,
    Ghost(inner): Ghost<Seq<Variable>>,
    Ghost(outer): Ghost<Seq<Variable>>,
    Ghost(kind): Ghost<Kind>,
) -> (r: Vec<Constraints>)
    requires
        sound(rs@, inner),
        extends(inner, outer),
        left_below(inner, outer, kind, brought as nat, first),
    ensures
        solutions_view(r@) == pop_all(solutions_view(rs@), outer, kind, brought as nat),
        sound(r@, outer),
        certain(rs@) ==> certain(r@),
{
    let mut out: Vec<Constraints> = Vec::new();
    let mut i: usize = 0;
    assert(solutions_view(out@) =~= Seq::empty());
    while i < rs.len()
        invariant
            0 <= i <= rs.len(),
            sound(rs@, inner),
            extends(inner, outer),
            left_below(inner, outer, kind, brought as nat, first),
            sound(out@, outer),
            certain(rs@) ==> certain(out@),
            solutions_view(out@) == pop_all_upto(
                solutions_view(rs@),
                outer,
                kind,
                brought as nat,
                i as int,
            ),
        decreases rs.len() - i,
    {
        let popped = leave_scope_one(
            &rs[i],
            brought,
            first,
            Ghost(inner),
            Ghost(outer),
            Ghost(kind),
        );
        push_unique(&mut out, popped, Ghost(outer));
        i += 1;
    }
    out
}

/// `c` taken out of the scope of the variables that were brought in.
pub(crate) fn leave_scope_one(
    c: &Constraints,
    brought: usize,
    first: Variable,
    Ghost(inner): Ghost<Seq<Variable>>,
    Ghost(outer): Ghost<Seq<Variable>>,
    Ghost(kind): Ghost<Kind>,
) -> (r: Constraints)
    requires
        c.well_formed(),
        extends(c@.env, inner),
        extends(inner, outer),
        left_below(inner, outer, kind, brought as nat, first),
    ensures
        r@ == pop(c@, outer, kind, brought as nat),
        r.well_formed(),
        extends(r@.env, outer),
        r.known_true == c.known_true,
{
    if brought == 0 {
        proof {
            lemma_extends_transitive(c@.env, inner, outer);
        }
        c.clone()
    } else {
        let k = c.env.universe(first);
        let r = c.truncate(k);
        proof {
            lemma_take(c@.env, k as int);
            assert forall|v: Variable| #[trigger] outer.contains(v) implies r@.env.contains(v) by {
                assert(inner.contains(v));
                assert(rank(inner, v) < rank(inner, first));
            }
            assert forall|a: Variable, b: Variable|
                #![trigger outer.contains(a), outer.contains(b)]
                outer.contains(a) && outer.contains(b) && rank(outer, a) < rank(
                    outer,
                    b,
                ) implies rank(r@.env, a) < rank(r@.env, b) by {
                assert(inner.contains(a) && inner.contains(b));
                assert(rank(inner, a) < rank(inner, b));
                assert(r@.env.contains(a) && r@.env.contains(b));
            }
        }
        r
    }
}

} // verus!
