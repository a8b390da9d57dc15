//! Constraints: one way in which a goal holds.
use crate::env::{
    encloses, encloses_goals, encloses_terms, extends, lemma_take, rank, well_formed, Env,
};
use crate::grammar::{GoalView, Kind, Term, TermView, Variable};
use crate::substitution::{
    apply, apply_goals, apply_terms, bindings_upto, compose, keys_distinct, lemma_apply_free_vars,
    lemma_apply_idempotent, lemma_bindings, restrict_to, Substitution,
};
use crate::visit::{free_vars, occurs_in};
use vstd::prelude::*;

verus! {

/// A solution of a goal: the environment in which it is stated, the bindings
/// that make the goal hold, and whether the goal then holds outright.
#[derive(Debug)]
pub struct Constraints {
    pub env: Env,
    pub known_true: bool,
    pub substitution: Substitution,
}

/// The mathematical value of [`Constraints`].
pub struct ConstraintsView {
    pub env: Seq<Variable>,
    pub known_true: bool,
    pub substitution: Map<Variable, TermView>,
}

impl View for Constraints {
    type V = ConstraintsView;

    open spec fn view(&self) -> ConstraintsView {
        ConstraintsView {
            env: self.env@,
            known_true: self.known_true,
            substitution: self.substitution@,
        }
    }
}

impl ConstraintsView {
    /// The solution that binds nothing.
    pub open spec fn none(env: Seq<Variable>) -> ConstraintsView {
        ConstraintsView { env, known_true: true, substitution: Map::empty() }
    }

    /// What holds of every solution that the solver makes:
    /// the environment is well formed; only existential variables in scope
    /// are bound; and a term that a variable is bound to mentions only
    /// variables in scope, of lower universe than the variable, that are
    /// themselves unbound.
    pub open spec fn valid(self) -> bool {
        &&& well_formed(self.env)
        &&& forall|v: Variable| #[trigger]
            self.substitution.contains_key(v) ==> v.kind == Kind::Existential && self.env.contains(
                v,
            )
        &&& forall|v: Variable, w: Variable|
            self.substitution.contains_key(v) && #[trigger] free_vars(
                self.substitution[v],
            ).contains(w) ==> self.env.contains(w) && rank(self.env, w) < rank(self.env, v)
                && !self.substitution.contains_key(w)
    }

    /// Whether `next` can follow `self`: it binds no variable that `self`
    /// binds, and mentions none in the terms it binds to.
    pub open spec fn admits(self, next: ConstraintsView) -> bool {
        &&& forall|v: Variable| #[trigger]
            self.substitution.contains_key(v) ==> !next.substitution.contains_key(v)
        &&& forall|v: Variable, w: Variable|
            next.substitution.contains_key(v) && #[trigger] free_vars(
                next.substitution[v],
            ).contains(w) ==> !self.substitution.contains_key(w)
    }

    /// `self` followed by `next`: a solution of two goals, where `next` solves
    /// the second goal as `self` left it.
    pub open spec fn seq(self, next: ConstraintsView) -> ConstraintsView {
        ConstraintsView {
            env: next.env,
            known_true: self.known_true && next.known_true,
            substitution: compose(self.substitution, next.substitution),
        }
    }

    /// `self` without the variables at universe `k` and above.
    pub open spec fn truncate(self, k: int) -> ConstraintsView {
        ConstraintsView {
            env: self.env.take(k),
            known_true: self.known_true,
            substitution: restrict_to(self.substitution, self.env.take(k)),
        }
    }
}

/// The mathematical values of a list of solutions.
pub open spec fn solutions_view(cs: Seq<Constraints>) -> Seq<ConstraintsView> {
    Seq::new(cs.len(), |i: int| cs[i]@)
}

/// Applying the substitution of valid constraints a second time changes
/// nothing.
pub proof fn lemma_substitution_idempotent(c: ConstraintsView, t: TermView)
    requires
        c.valid(),
    ensures
        apply(c.substitution, apply(c.substitution, t)) == apply(c.substitution, t),
{
    lemma_apply_idempotent(c.substitution, t);
}

/// In valid constraints, a variable is bound only to a term whose variables
/// are in scope and of no higher universe than the variable.
pub proof fn lemma_universe_safety(c: ConstraintsView, v: Variable, w: Variable)
    requires
        c.valid(),
        c.substitution.contains_key(v),
        free_vars(c.substitution[v]).contains(w),
    ensures
        c.env.contains(w),
        rank(c.env, w) <= rank(c.env, v),
{
}

/// Valid constraints followed by valid constraints that they admit are valid.
pub proof fn lemma_seq_valid(c1: ConstraintsView, c2: ConstraintsView)
    requires
        c1.valid(),
        c2.valid(),
        extends(c2.env, c1.env),
        c1.admits(c2),
    ensures
        c1.seq(c2).valid(),
        extends(c1.seq(c2).env, c1.env),
{
    let c = c1.seq(c2);
    let m1 = c1.substitution;
    let m2 = c2.substitution;
    assert forall|v: Variable, w: Variable|
        c.substitution.contains_key(v) && #[trigger] free_vars(c.substitution[v]).contains(
            w,
        ) implies c.env.contains(w) && rank(c.env, w) < rank(c.env, v)
        && !c.substitution.contains_key(w) by {
        if m1.contains_key(v) {
            lemma_apply_free_vars(m2, m1[v]);
            if free_vars(m1[v]).contains(w) && !m2.contains_key(w) {
                assert(c1.env.contains(w) && c1.env.contains(v));
            } else {
                let u = choose|u: Variable|
                    free_vars(m1[v]).contains(u) && m2.contains_key(u) && #[trigger] free_vars(
                        m2[u],
                    ).contains(w);
                assert(c1.env.contains(u) && c1.env.contains(v));
                assert(rank(c2.env, u) < rank(c2.env, v));
            }
        }
    }
}

/// Valid constraints cut off at a universe are valid.
pub proof fn lemma_truncate_valid(c: ConstraintsView, k: int)
    requires
        c.valid(),
        0 <= k <= c.env.len(),
    ensures
        c.truncate(k).valid(),
{
    lemma_take(c.env, k);
    let t = c.truncate(k);
    assert forall|v: Variable, w: Variable|
        t.substitution.contains_key(v) && #[trigger] free_vars(t.substitution[v]).contains(
            w,
        ) implies t.env.contains(w) && rank(t.env, w) < rank(t.env, v)
        && !t.substitution.contains_key(w) by {
        assert(c.substitution.contains_key(v) && free_vars(c.substitution[v]).contains(w));
        assert(c.env.contains(w) && rank(c.env, w) < rank(c.env, v));
        assert(t.env.contains(v));
        assert(t.env.contains(w));
    }
}

/// A term in scope stays in scope when valid constraints over a larger
/// environment are applied to it.
pub proof fn lemma_apply_enclosed(c: ConstraintsView, env: Seq<Variable>, t: TermView)
    requires
        c.valid(),
        extends(c.env, env),
        encloses(env, t),
    ensures
        encloses(c.env, apply(c.substitution, t)),
{
    lemma_apply_free_vars(c.substitution, t);
    assert forall|w: Variable| #[trigger]
        free_vars(apply(c.substitution, t)).contains(w) implies c.env.contains(w) by {
        if free_vars(t).contains(w) && !c.substitution.contains_key(w) {
            assert(env.contains(w));
        } else {
            let v = choose|v: Variable|
                free_vars(t).contains(v) && c.substitution.contains_key(v) && #[trigger] free_vars(
                    c.substitution[v],
                ).contains(w);
        }
    }
}

/// Terms in scope stay in scope when valid constraints over a larger
/// environment are applied to them.
pub proof fn lemma_apply_terms_enclosed(c: ConstraintsView, env: Seq<Variable>, ts: Seq<TermView>)
    requires
        c.valid(),
        extends(c.env, env),
        encloses_terms(env, ts),
    ensures
        encloses_terms(c.env, apply_terms(c.substitution, ts)),
{
    let applied = apply_terms(c.substitution, ts);
    assert forall|i: int| 0 <= i < applied.len() implies encloses(c.env, #[trigger] applied[i]) by {
        assert(encloses(env, ts[i]));
        lemma_apply_enclosed(c, env, ts[i]);
    }
}

/// Goals in scope stay in scope when valid constraints over a larger
/// environment are applied to them.
pub proof fn lemma_apply_goals_enclosed(c: ConstraintsView, env: Seq<Variable>, gs: Seq<GoalView>)
    requires
        c.valid(),
        extends(c.env, env),
        encloses_goals(env, gs),
    ensures
        encloses_goals(c.env, apply_goals(c.substitution, gs)),
{
    let applied = apply_goals(c.substitution, gs);
    assert forall|i: int| 0 <= i < applied.len() implies encloses_terms(
        c.env,
        (#[trigger] applied[i]).terms,
    ) by {
        assert(encloses_terms(env, gs[i].terms));
        lemma_apply_terms_enclosed(c, env, gs[i].terms);
    }
}

impl Clone for Constraints {
    fn clone(&self) -> (r: Constraints)
        ensures
            r@ == self@,
            self.well_formed() ==> r.well_formed(),
    {
        Constraints {
            env: self.env.clone(),
            known_true: self.known_true,
            substitution: self.substitution.clone(),
        }
    }
}

impl Constraints {
    /// Valid, and no variable is listed twice among the bindings.
    pub open spec fn well_formed(&self) -> bool {
        self@.valid() && self.substitution.well_formed()
    }

    /// The solution that binds nothing.
    pub fn none(env: Env) -> (r: Constraints)
        requires
            well_formed(env@),
        ensures
            r@ == ConstraintsView::none(env@),
            r.well_formed(),
    {
        Constraints { env, known_true: true, substitution: Substitution::new() }
    }

    /// The solution made of the given bindings.
    pub fn from(env: Env, bindings: Vec<(Variable, Term)>, known_true: bool) -> (r: Constraints)
        requires
            keys_distinct(bindings@),
            (ConstraintsView {
                env: env@,
                known_true,
                substitution: bindings_upto(bindings@, bindings@.len() as int),
            }).valid(),
        ensures
            r@ == (ConstraintsView {
                env: env@,
                known_true,
                substitution: bindings_upto(bindings@, bindings@.len() as int),
            }),
            r.well_formed(),
    {
        Constraints { env, known_true, substitution: Substitution { bindings } }
    }

    /// The environment in which the solution is stated.
    pub fn env(&self) -> (r: &Env)
        ensures
            r == &self.env,
    {
        &self.env
    }

    /// Whether the goal holds outright under the substitution.
    pub fn known_true(&self) -> (r: bool)
        ensures
            r == self.known_true,
    {
        self.known_true
    }

    /// The bindings that make the goal hold.
    pub fn substitution(&self) -> (r: &Substitution)
        ensures
            r == &self.substitution,
    {
        &self.substitution
    }

    /// Structural equality: the same environment, the same flag, and the same
    /// variables bound to the same terms, in whatever order the bindings are
    /// listed. Variables are compared by name: fresh variables are numbered
    /// from the environment alone, so the same steps lead to equal solutions.
    pub fn equals(&self, other: &Constraints) -> (r: bool)
        ensures
            r == (self@ == other@),
    {
        self.known_true == other.known_true && self.env.equals(&other.env)
            && self.substitution.equals(&other.substitution)
    }

    /// Whether `next` can follow `self`.
    pub fn admits(&self, next: &Constraints) -> (r: bool)
        requires
            self.substitution.well_formed(),
            next.substitution.well_formed(),
        ensures
            r == self@.admits(next@),
    {
        let mine = &self.substitution.bindings;
        let theirs = &next.substitution.bindings;
        proof {
            lemma_bindings(mine@, mine@.len() as int);
            lemma_bindings(theirs@, theirs@.len() as int);
        }
        let mut i: usize = 0;
        while i < mine.len()
            invariant
                0 <= i <= mine.len(),
                mine@ == self.substitution.bindings@,
                forall|a: int|
                    0 <= a < i ==> !next@.substitution.contains_key((#[trigger] mine[a]).0),
            decreases mine.len() - i,
        {
            if next.substitution.contains_key(mine[i].0) {
                proof {
                    lemma_bindings(mine@, mine@.len() as int);
                }
                assert(mine@[i as int].0 == mine[i as int].0);
                assert(self@.substitution.contains_key(mine[i as int].0));
                return false;
            }
            i += 1;
        }
        let mut j: usize = 0;
        while j < theirs.len()
            invariant
                0 <= j <= theirs.len(),
                mine@ == self.substitution.bindings@,
                theirs@ == next.substitution.bindings@,
                next.substitution.well_formed(),
                forall|b: int, a: int|
                    0 <= b < j && 0 <= a < mine.len() ==> !free_vars(
                        (#[trigger] theirs[b]).1@,
                    ).contains((#[trigger] mine[a]).0),
            decreases theirs.len() - j,
        {
            let mut k: usize = 0;
            while k < mine.len()
                invariant
                    0 <= k <= mine.len(),
                    0 <= j < theirs.len(),
                    mine@ == self.substitution.bindings@,
                    theirs@ == next.substitution.bindings@,
                    next.substitution.well_formed(),
                    forall|a: int|
                        0 <= a < k ==> !free_vars(theirs[j as int].1@).contains(
                            (#[trigger] mine[a]).0,
                        ),
                decreases mine.len() - k,
            {
                if occurs_in(mine[k].0, &theirs[j].1) {
                    proof {
                        lemma_bindings(mine@, mine@.len() as int);
                        lemma_bindings(theirs@, theirs@.len() as int);
                    }
                    assert(theirs@[j as int].0 == theirs[j as int].0);
                    assert(mine@[k as int].0 == mine[k as int].0);
                    assert(next@.substitution.contains_key(theirs[j as int].0));
                    assert(next@.substitution[theirs[j as int].0] == theirs[j as int].1@);
                    assert(self@.substitution.contains_key(mine[k as int].0));
                    return false;
                }
                k += 1;
            }
            j += 1;
        }
        proof {
            lemma_bindings(mine@, mine@.len() as int);
            lemma_bindings(theirs@, theirs@.len() as int);
            assert forall|v: Variable| #[trigger]
                self@.substitution.contains_key(v) implies !next@.substitution.contains_key(v) by {
                let a = choose|a: int| 0 <= a < mine@.len() && (#[trigger] mine@[a]).0 == v;
                assert(mine[a].0 == v);
            }
            assert forall|v: Variable, w: Variable|
                next@.substitution.contains_key(v) && #[trigger] free_vars(
                    next@.substitution[v],
                ).contains(w) implies !self@.substitution.contains_key(w) by {
                let b = choose|b: int| 0 <= b < theirs@.len() && (#[trigger] theirs@[b]).0 == v;
                assert(theirs[b].0 == v);
                assert(next@.substitution[theirs@[b].0] == theirs@[b].1@);
                if self@.substitution.contains_key(w) {
                    let a = choose|a: int| 0 <= a < mine@.len() && (#[trigger] mine@[a]).0 == w;
                    assert(mine[a].0 == w);
                    assert(!free_vars(theirs[b].1@).contains(mine[a].0));
                }
            }
        }
        true
    }

    /// `self` followed by `next`.
    pub fn seq(&self, next: &Constraints) -> (r: Constraints)
        requires
            self.well_formed(),
            next.well_formed(),
            extends(next@.env, self@.env),
            self@.admits(next@),
        ensures
            r@ == self@.seq(next@),
            r.well_formed(),
            extends(r@.env, self@.env),
    {
        proof {
            lemma_seq_valid(self@, next@);
        }
        Constraints {
            env: next.env.clone(),
            known_true: self.known_true && next.known_true,
            substitution: self.substitution.compose(&next.substitution),
        }
    }

    /// `self` without the variables at universe `k` and above.
    pub fn truncate(&self, k: usize) -> (r: Constraints)
        requires
            self.well_formed(),
            k <= self@.env.len(),
        ensures
            r@ == self@.truncate(k as int),
            r.well_formed(),
    {
        let mut variables: Vec<Variable> = Vec::new();
        let mut i: usize = 0;
        while i < k
            invariant
                0 <= i <= k,
                k <= self.env.variables.len(),
                variables@ == self.env.variables@.take(i as int),
            decreases k - i,
        {
            variables.push(self.env.variables[i]);
            assert(self.env.variables@.take(i + 1) =~= self.env.variables@.take(i as int).push(
                self.env.variables[i as int],
            ));
            i += 1;
        }
        let substitution = self.substitution.restrict_to(&variables);
        proof {
            lemma_truncate_valid(self@, k as int);
        }
        Constraints { env: Env { variables }, known_true: self.known_true, substitution }
    }
}

} // verus!
