//! Substitutions: finite maps from variables to terms, and their application.
use crate::grammar::{
    clauses_view, clone_term, goals_view, term_eq, terms_view, Clause, ClauseView, Goal, GoalView,
    Kind, Term, TermView, Variable,
};
use crate::visit::{contains_variable, free_vars, free_vars_of_terms};
use vstd::prelude::*;

verus! {

/// A list of bindings, each of a variable to a term. Its view is the map that
/// the bindings make.
#[derive(Debug)]
pub struct Substitution {
    pub bindings: Vec<(Variable, Term)>,
}

/// The map made by the first `n` bindings.
pub open spec fn bindings_upto(bs: Seq<(Variable, Term)>, n: int) -> Map<Variable, TermView>
    decreases n,
{
    if n <= 0 || n > bs.len() {
        Map::empty()
    } else {
        bindings_upto(bs, n - 1).insert(bs[n - 1].0, bs[n - 1].1@)
    }
}

/// No variable is bound twice.
pub open spec fn keys_distinct(bs: Seq<(Variable, Term)>) -> bool {
    forall|i: int, j: int| 0 <= i < j < bs.len() ==> (#[trigger] bs[i]).0 != (#[trigger] bs[j]).0
}

impl View for Substitution {
    type V = Map<Variable, TermView>;

    open spec fn view(&self) -> Map<Variable, TermView> {
        bindings_upto(self.bindings@, self.bindings@.len() as int)
    }
}

/// `t` with every variable that `m` binds replaced by what `m` binds it to.
pub open spec fn apply(m: Map<Variable, TermView>, t: TermView) -> TermView
    decreases t, 1int,
{
    match t {
        TermView::Rigid { name, parameters } => TermView::Rigid {
            name,
            parameters: apply_terms(m, parameters),
        },
        TermView::Alias { name, parameters } => TermView::Alias {
            name,
            parameters: apply_terms(m, parameters),
        },
        TermView::Var(v) => if m.contains_key(v) {
            m[v]
        } else {
            t
        },
    }
}

/// Each term, with every variable that `m` binds replaced.
pub open spec fn apply_terms(m: Map<Variable, TermView>, ts: Seq<TermView>) -> Seq<TermView>
    decreases ts, 0int,
{
    Seq::new(
        ts.len(),
        |i: int|
            if 0 <= i < ts.len() {
                apply(m, ts[i])
            } else {
                TermView::Var(Variable { kind: Kind::Bound, index: 0 })
            },
    )
}

/// The goal, with every variable that `m` binds replaced.
pub open spec fn apply_goal(m: Map<Variable, TermView>, g: GoalView) -> GoalView {
    GoalView { shape: g.shape, terms: apply_terms(m, g.terms) }
}

/// Each goal, with every variable that `m` binds replaced.
pub open spec fn apply_goals(m: Map<Variable, TermView>, gs: Seq<GoalView>) -> Seq<GoalView> {
    Seq::new(gs.len(), |i: int| apply_goal(m, gs[i]))
}

/// The clause, with every variable that `m` binds replaced.
pub open spec fn apply_clause(m: Map<Variable, TermView>, k: ClauseView) -> ClauseView {
    ClauseView {
        binders: k.binders,
        conditions: apply_goals(m, k.conditions),
        conclusion: apply_goal(m, k.conclusion),
    }
}

/// Each clause, with every variable that `m` binds replaced.
pub open spec fn apply_clauses(m: Map<Variable, TermView>, ks: Seq<ClauseView>) -> Seq<
    ClauseView,
> {
    Seq::new(ks.len(), |i: int| apply_clause(m, ks[i]))
}

/// The substitution that does what `first` does and then what `second` does.
pub open spec fn compose(first: Map<Variable, TermView>, second: Map<Variable, TermView>) -> Map<
    Variable,
    TermView,
> {
    Map::new(
        |v: Variable| first.contains_key(v) || second.contains_key(v),
        |v: Variable|
            if first.contains_key(v) {
                apply(second, first[v])
            } else {
                second[v]
            },
    )
}

/// The bindings of `m` for the variables that `keep` holds.
pub open spec fn restrict_to(m: Map<Variable, TermView>, keep: Seq<Variable>) -> Map<
    Variable,
    TermView,
> {
    Map::new(|v: Variable| m.contains_key(v) && keep.contains(v), |v: Variable| m[v])
}

/// A binding added at the end is a binding inserted into the map.
pub proof fn lemma_bindings_push(bs: Seq<(Variable, Term)>, b: (Variable, Term))
    ensures
        bindings_upto(bs.push(b), bs.len() as int + 1) == bindings_upto(bs, bs.len() as int).insert(
            b.0,
            b.1@,
        ),
{
    lemma_bindings_prefix(bs, b, bs.len() as int);
}

proof fn lemma_bindings_prefix(bs: Seq<(Variable, Term)>, b: (Variable, Term), n: int)
    requires
        0 <= n <= bs.len(),
    ensures
        bindings_upto(bs.push(b), n) == bindings_upto(bs, n),
    decreases n,
{
    if n > 0 {
        lemma_bindings_prefix(bs, b, n - 1);
        assert(bs.push(b)[n - 1] == bs[n - 1]);
    }
}

/// The map binds exactly the variables of the bindings, and where no variable
/// is bound twice, each to the term beside it.
pub proof fn lemma_bindings(bs: Seq<(Variable, Term)>, n: int)
    requires
        0 <= n <= bs.len(),
    ensures
        forall|v: Variable| #[trigger]
            bindings_upto(bs, n).contains_key(v) <==> exists|i: int|
                0 <= i < n && (#[trigger] bs[i]).0 == v,
        keys_distinct(bs) ==> forall|i: int|
            0 <= i < n ==> bindings_upto(bs, n)[(#[trigger] bs[i]).0] == bs[i].1@,
    decreases n,
{
    if n > 0 {
        lemma_bindings(bs, n - 1);
        let m0 = bindings_upto(bs, n - 1);
        let m1 = bindings_upto(bs, n);
        assert forall|v: Variable| #[trigger] m1.contains_key(v) <==> exists|i: int|
            0 <= i < n && (#[trigger] bs[i]).0 == v by {
            if m0.contains_key(v) {
                let i = choose|i: int| 0 <= i < n - 1 && (#[trigger] bs[i]).0 == v;
                assert(bs[i].0 == v);
            }
            if v == bs[n - 1].0 {
                assert(bs[n - 1].0 == v);
            }
            if exists|i: int| 0 <= i < n && (#[trigger] bs[i]).0 == v {
                let i = choose|i: int| 0 <= i < n && (#[trigger] bs[i]).0 == v;
                if i < n - 1 {
                    assert(bs[i].0 == v);
                }
            }
        }
        if keys_distinct(bs) {
            assert forall|i: int| 0 <= i < n implies m1[(#[trigger] bs[i]).0] == bs[i].1@ by {
                if i < n - 1 {
                    assert(bs[i].0 != bs[n - 1].0);
                }
            }
        }
    }
}


/// No term that `m` binds a variable to mentions a variable that `m` binds.
pub open spec fn self_avoiding(m: Map<Variable, TermView>) -> bool {
    forall|v: Variable, w: Variable|
        m.contains_key(v) && #[trigger] free_vars(m[v]).contains(w) ==> !m.contains_key(w)
}

/// A variable of `apply(m, t)` is an unbound variable of `t`, or a variable
/// of a term that `m` binds some variable of `t` to.
pub proof fn lemma_apply_free_vars(m: Map<Variable, TermView>, t: TermView)
    ensures
        forall|w: Variable| #[trigger]
            free_vars(apply(m, t)).contains(w) ==> (free_vars(t).contains(w) && !m.contains_key(w))
                || exists|v: Variable|
                free_vars(t).contains(v) && m.contains_key(v) && #[trigger] free_vars(
                    m[v],
                ).contains(w),
    decreases t,
{
    match t {
        TermView::Rigid { parameters, .. } | TermView::Alias { parameters, .. } => {
            lemma_apply_free_vars_of_terms(m, t, parameters);
        },
        TermView::Var(v) => {
            if m.contains_key(v) {
                assert forall|w: Variable| #[trigger]
                    free_vars(apply(m, t)).contains(w) implies exists|v: Variable|
                    free_vars(t).contains(v) && m.contains_key(v) && #[trigger] free_vars(
                        m[v],
                    ).contains(w) by {
                    assert(free_vars(t).contains(v) && m.contains_key(v) && free_vars(
                        m[v],
                    ).contains(w));
                }
            }
        },
    }
}

proof fn lemma_apply_free_vars_of_terms(
    m: Map<Variable, TermView>,
    t: TermView,
    parameters: Seq<TermView>,
)
    requires
        free_vars(t) == free_vars_of_terms(parameters),
        free_vars(apply(m, t)) == free_vars_of_terms(apply_terms(m, parameters)),
        forall|i: int| 0 <= i < parameters.len() ==> decreases_to!(t => #[trigger] parameters[i]),
    ensures
        forall|w: Variable| #[trigger]
            free_vars(apply(m, t)).contains(w) ==> (free_vars(t).contains(w) && !m.contains_key(w))
                || exists|v: Variable|
                free_vars(t).contains(v) && m.contains_key(v) && #[trigger] free_vars(
                    m[v],
                ).contains(w),
    decreases t, 0int,
{
    let applied = apply_terms(m, parameters);
    assert forall|w: Variable| #[trigger] free_vars(apply(m, t)).contains(w) implies (free_vars(
        t,
    ).contains(w) && !m.contains_key(w)) || exists|v: Variable|
        free_vars(t).contains(v) && m.contains_key(v) && #[trigger] free_vars(m[v]).contains(
            w,
        ) by {
        let i = choose|i: int|
            0 <= i < applied.len() && free_vars(#[trigger] applied[i]).contains(w);
        assert(applied[i] == apply(m, parameters[i]));
        lemma_apply_free_vars(m, parameters[i]);
        if free_vars(parameters[i]).contains(w) && !m.contains_key(w) {
            assert(free_vars_of_terms(parameters).contains(w));
        } else {
            let v = choose|v: Variable|
                free_vars(parameters[i]).contains(v) && m.contains_key(v) && #[trigger] free_vars(
                    m[v],
                ).contains(w);
            assert(free_vars_of_terms(parameters).contains(v));
            assert(free_vars(t).contains(v) && m.contains_key(v) && free_vars(m[v]).contains(w));
        }
    }
}

/// A substitution leaves alone terms none of whose variables it binds.
pub proof fn lemma_apply_identity_terms(m: Map<Variable, TermView>, ts: Seq<TermView>)
    requires
        forall|v: Variable| #[trigger] free_vars_of_terms(ts).contains(v) ==> !m.contains_key(v),
    ensures
        apply_terms(m, ts) == ts,
    decreases ts, 0int,
{
    assert forall|i: int| 0 <= i < ts.len() implies apply(m, ts[i]) == ts[i] by {
        assert forall|v: Variable| #[trigger] free_vars(ts[i]).contains(v) implies !m.contains_key(
            v,
        ) by {
            assert(free_vars_of_terms(ts).contains(v));
        }
        lemma_apply_identity(m, ts[i]);
    }
    assert(apply_terms(m, ts) =~= ts);
}

/// A substitution leaves alone a term none of whose variables it binds.
pub proof fn lemma_apply_identity(m: Map<Variable, TermView>, t: TermView)
    requires
        forall|v: Variable| #[trigger] free_vars(t).contains(v) ==> !m.contains_key(v),
    ensures
        apply(m, t) == t,
    decreases t, 1int,
{
    match t {
        TermView::Rigid { parameters, .. } | TermView::Alias { parameters, .. } => {
            assert(free_vars(t) == free_vars_of_terms(parameters));
            lemma_apply_identity_terms(m, parameters);
        },
        TermView::Var(v) => {
            assert(free_vars(t).contains(v));
        },
    }
}

/// Applying a self-avoiding substitution to terms a second time changes
/// nothing.
pub proof fn lemma_apply_idempotent_terms(m: Map<Variable, TermView>, ts: Seq<TermView>)
    requires
        self_avoiding(m),
    ensures
        apply_terms(m, apply_terms(m, ts)) == apply_terms(m, ts),
    decreases ts, 0int,
{
    assert forall|i: int| 0 <= i < ts.len() implies apply(m, apply(m, ts[i])) == apply(
        m,
        ts[i],
    ) by {
        lemma_apply_idempotent(m, ts[i]);
    }
    assert(apply_terms(m, apply_terms(m, ts)) =~= apply_terms(m, ts));
}

/// Applying a self-avoiding substitution a second time changes nothing.
pub proof fn lemma_apply_idempotent(m: Map<Variable, TermView>, t: TermView)
    requires
        self_avoiding(m),
    ensures
        apply(m, apply(m, t)) == apply(m, t),
    decreases t, 1int,
{
    match t {
        TermView::Rigid { parameters, .. } | TermView::Alias { parameters, .. } => {
            lemma_apply_idempotent_terms(m, parameters);
        },
        TermView::Var(v) => {
            if m.contains_key(v) {
                lemma_apply_identity(m, m[v]);
            }
        },
    }
}

impl Clone for Substitution {
    fn clone(&self) -> (r: Substitution)
        ensures
            r@ == self@,
            keys_distinct(self.bindings@) ==> keys_distinct(r.bindings@),
    {
        let mut bindings: Vec<(Variable, Term)> = Vec::new();
        let mut i: usize = 0;
        while i < self.bindings.len()
            invariant
                0 <= i <= self.bindings.len(),
                bindings.len() == i,
                bindings_upto(bindings@, i as int) == bindings_upto(self.bindings@, i as int),
                forall|j: int| 0 <= j < i ==> (#[trigger] bindings[j]).0 == self.bindings[j].0,
            decreases self.bindings.len() - i,
        {
            let ghost before = bindings@;
            let t = clone_term(&self.bindings[i].1);
            proof {
                lemma_bindings_push(before, (self.bindings[i as int].0, t));
            }
            bindings.push((self.bindings[i].0, t));
            i += 1;
        }
        Substitution { bindings }
    }
}

impl Substitution {
    /// No variable is bound twice.
    pub open spec fn well_formed(&self) -> bool {
        keys_distinct(self.bindings@)
    }

    /// The substitution that binds nothing.
    pub fn new() -> (r: Substitution)
        ensures
            r@ == Map::<Variable, TermView>::empty(),
            r.well_formed(),
    {
        Substitution { bindings: Vec::new() }
    }

    /// The number of bindings.
    pub fn len(&self) -> (r: usize)
        ensures
            r == self.bindings@.len(),
    {
        self.bindings.len()
    }

    /// The term that `v` is bound to, if it is bound.
    pub fn get(&self, v: Variable) -> (r: Option<&Term>)
        ensures
            r is Some <==> self@.contains_key(v),
            r is Some ==> r->0@ == self@[v],
    {
        let mut i: usize = self.bindings.len();
        while i > 0
            invariant
                0 <= i <= self.bindings.len(),
                self@.contains_key(v) <==> bindings_upto(self.bindings@, i as int).contains_key(v),
                self@.contains_key(v) ==> self@[v] == bindings_upto(self.bindings@, i as int)[v],
            decreases i,
        {
            i -= 1;
            if self.bindings[i].0 == v {
                return Some(&self.bindings[i].1);
            }
        }
        None
    }

    /// Whether `v` is bound.
    pub fn contains_key(&self, v: Variable) -> (r: bool)
        ensures
            r == self@.contains_key(v),
    {
        self.get(v).is_some()
    }

    /// Adds a binding for a variable that has none.
    pub fn bind(&mut self, v: Variable, t: Term)
        requires
            old(self).well_formed(),
            !old(self)@.contains_key(v),
        ensures
            final(self).well_formed(),
            final(self)@ == old(self)@.insert(v, t@),
            final(self).bindings@ == old(self).bindings@.push((v, t)),
    {
        proof {
            lemma_bindings_push(self.bindings@, (v, t));
            lemma_bindings(self.bindings@, self.bindings@.len() as int);
        }
        self.bindings.push((v, t));
    }

    /// Whether both substitutions bind the same variables to the same terms.
    pub fn equals(&self, other: &Substitution) -> (r: bool)
        ensures
            r == (self@ == other@),
    {
        let mut i: usize = 0;
        while i < self.bindings.len()
            invariant
                0 <= i <= self.bindings.len(),
                forall|j: int|
                    0 <= j < i ==> other@.contains_key((#[trigger] self.bindings[j]).0)
                        && other@[self.bindings[j].0] == self@[self.bindings[j].0],
            decreases self.bindings.len() - i,
        {
            let v = self.bindings[i].0;
            proof {
                lemma_bindings(self.bindings@, self.bindings@.len() as int);
                assert(self.bindings[i as int].0 == v);
            }
            let same = match (self.get(v), other.get(v)) {
                (Some(mine), Some(theirs)) => term_eq(mine, theirs),
                _ => false,
            };
            if !same {
                return false;
            }
            i += 1;
        }
        let mut j: usize = 0;
        while j < other.bindings.len()
            invariant
                0 <= j <= other.bindings.len(),
                forall|k: int|
                    0 <= k < j ==> self@.contains_key((#[trigger] other.bindings[k]).0),
            decreases other.bindings.len() - j,
        {
            let v = other.bindings[j].0;
            proof {
                lemma_bindings(other.bindings@, other.bindings@.len() as int);
                assert(other.bindings[j as int].0 == v);
            }
            if !self.contains_key(v) {
                return false;
            }
            j += 1;
        }
        proof {
            lemma_bindings(self.bindings@, self.bindings@.len() as int);
            lemma_bindings(other.bindings@, other.bindings@.len() as int);
            assert forall|v: Variable| self@.contains_key(v) implies other@.contains_key(v)
                && other@[v] == self@[v] by {
                let i = choose|i: int|
                    0 <= i < self.bindings@.len() && (#[trigger] self.bindings@[i]).0 == v;
                assert(self.bindings[i].0 == v);
            }
            assert forall|v: Variable| other@.contains_key(v) implies self@.contains_key(v) by {
                let i = choose|i: int|
                    0 <= i < other.bindings@.len() && (#[trigger] other.bindings@[i]).0 == v;
                assert(other.bindings[i].0 == v);
            }
            assert(self@ =~= other@);
        }
        true
    }

    /// The bindings for the variables that `keep` holds.
    pub fn restrict_to(&self, keep: &Vec<Variable>) -> (r: Substitution)
        requires
            self.well_formed(),
        ensures
            r.well_formed(),
            r@ == restrict_to(self@, keep@),
    {
        let mut out = Substitution::new();
        let mut i: usize = 0;
        while i < self.bindings.len()
            invariant
                0 <= i <= self.bindings.len(),
                self.well_formed(),
                out.well_formed(),
                out@ == restrict_to(bindings_upto(self.bindings@, i as int), keep@),
            decreases self.bindings.len() - i,
        {
            let v = self.bindings[i].0;
            let ghost before = bindings_upto(self.bindings@, i as int);
            let ghost after = bindings_upto(self.bindings@, i + 1);
            proof {
                lemma_bindings(self.bindings@, i as int);
                if before.contains_key(v) {
                    let j = choose|j: int| 0 <= j < i && (#[trigger] self.bindings@[j]).0 == v;
                    assert(self.bindings@[j].0 != self.bindings@[i as int].0);
                }
            }
            if contains_variable(keep, v) {
                out.bind(v, clone_term(&self.bindings[i].1));
                assert(out@ =~= restrict_to(after, keep@));
            } else {
                assert(out@ =~= restrict_to(after, keep@));
            }
            i += 1;
        }
        out
    }

    /// The substitution that does what `self` does and then what `second`
    /// does.
    pub fn compose(&self, second: &Substitution) -> (r: Substitution)
        requires
            self.well_formed(),
            second.well_formed(),
        ensures
            r.well_formed(),
            r@ == compose(self@, second@),
    {
        let mut out = Substitution::new();
        let mut i: usize = 0;
        while i < self.bindings.len()
            invariant
                0 <= i <= self.bindings.len(),
                self.well_formed(),
                out.well_formed(),
                out@ == compose(
                    bindings_upto(self.bindings@, i as int),
                    Map::<Variable, TermView>::empty(),
                ).map_values(|t: TermView| apply(second@, t)),
            decreases self.bindings.len() - i,
        {
            let v = self.bindings[i].0;
            let ghost before = bindings_upto(self.bindings@, i as int);
            let ghost after = bindings_upto(self.bindings@, i + 1);
            proof {
                lemma_bindings(self.bindings@, i as int);
                if before.contains_key(v) {
                    let j = choose|j: int| 0 <= j < i && (#[trigger] self.bindings@[j]).0 == v;
                    assert(self.bindings@[j].0 != self.bindings@[i as int].0);
                }
            }
            out.bind(v, apply_to_term(second, &self.bindings[i].1));
            proof {
                lemma_apply_identity(
                    Map::<Variable, TermView>::empty(),
                    self.bindings@[i as int].1@,
                );
                assert forall|w: Variable| before.contains_key(w) implies apply(
                    Map::<Variable, TermView>::empty(),
                    #[trigger] before[w],
                ) == before[w] by {
                    lemma_apply_identity(Map::<Variable, TermView>::empty(), before[w]);
                }
                assert(out@ =~= compose(after, Map::<Variable, TermView>::empty()).map_values(
                    |t: TermView| apply(second@, t),
                ));
            }
            i += 1;
        }
        let ghost first_part = out@;
        let mut j: usize = 0;
        while j < second.bindings.len()
            invariant
                0 <= j <= second.bindings.len(),
                second.well_formed(),
                out.well_formed(),
                first_part == compose(self@, Map::<Variable, TermView>::empty()).map_values(
                    |t: TermView| apply(second@, t),
                ),
                out@ == bindings_upto(second.bindings@, j as int).union_prefer_right(first_part),
            decreases second.bindings.len() - j,
        {
            let v = second.bindings[j].0;
            let ghost before = bindings_upto(second.bindings@, j as int);
            let ghost after = bindings_upto(second.bindings@, j + 1);
            proof {
                lemma_bindings(second.bindings@, j as int);
                if before.contains_key(v) {
                    let k = choose|k: int| 0 <= k < j && (#[trigger] second.bindings@[k]).0 == v;
                    assert(second.bindings@[k].0 != second.bindings@[j as int].0);
                }
            }
            if !self.contains_key(v) {
                out.bind(v, clone_term(&second.bindings[j].1));
            }
            assert(out@ =~= after.union_prefer_right(first_part));
            j += 1;
        }
        proof {
            assert forall|w: Variable| self@.contains_key(w) implies apply(
                Map::<Variable, TermView>::empty(),
                #[trigger] self@[w],
            ) == self@[w] by {
                lemma_apply_identity(Map::<Variable, TermView>::empty(), self@[w]);
            }
            assert(out@ =~= compose(self@, second@));
        }
        out
    }

    /// `t` with every bound variable replaced by its term.
    pub fn apply(&self, t: &Term) -> (r: Term)
        ensures
            r@ == apply(self@, t@),
    {
        apply_to_term(self, t)
    }

    /// Each term, with every variable that `m` binds replaced.
    pub fn apply_terms(&self, ts: &Vec<Term>) -> (r: Vec<Term>)
        ensures
            terms_view(r@) == apply_terms(self@, terms_view(ts@)),
    {
        apply_to_terms(self, ts)
    }

    /// The goal, with every variable that `m` binds replaced.
    pub fn apply_goal(&self, g: &Goal) -> (r: Goal)
        ensures
            r@ == apply_goal(self@, g@),
    {
        Goal { shape: g.shape, terms: apply_to_terms(self, &g.terms) }
    }

    /// Each goal, with every variable that `m` binds replaced.
    pub fn apply_goals(&self, gs: &Vec<Goal>) -> (r: Vec<Goal>)
        ensures
            goals_view(r@) == apply_goals(self@, goals_view(gs@)),
    {
        let mut r: Vec<Goal> = Vec::new();
        let mut i: usize = 0;
        while i < gs.len()
            invariant
                0 <= i <= gs.len(),
                r.len() == i,
                forall|j: int| 0 <= j < i ==> r[j]@ == apply_goal(self@, gs[j]@),
            decreases gs.len() - i,
        {
            r.push(self.apply_goal(&gs[i]));
            i += 1;
        }
        assert(goals_view(r@) =~= apply_goals(self@, goals_view(gs@)));
        r
    }

    /// The clause, with every variable that `m` binds replaced.
    pub fn apply_clause(&self, k: &Clause) -> (r: Clause)
        ensures
            r@ == apply_clause(self@, k@),
    {
        Clause {
            binders: k.binders,
            conditions: self.apply_goals(&k.conditions),
            conclusion: self.apply_goal(&k.conclusion),
        }
    }

    /// Each clause, with every variable that `m` binds replaced.
    pub fn apply_clauses(&self, ks: &Vec<Clause>) -> (r: Vec<Clause>)
        ensures
            clauses_view(r@) == apply_clauses(self@, clauses_view(ks@)),
    {
        let mut r: Vec<Clause> = Vec::new();
        let mut i: usize = 0;
        while i < ks.len()
            invariant
                0 <= i <= ks.len(),
                r.len() == i,
                forall|j: int| 0 <= j < i ==> r[j]@ == apply_clause(self@, ks[j]@),
            decreases ks.len() - i,
        {
            r.push(self.apply_clause(&ks[i]));
            i += 1;
        }
        assert(clauses_view(r@) =~= apply_clauses(self@, clauses_view(ks@)));
        r
    }
}

/// Each term, with every variable that `s` binds replaced by its term.
pub fn apply_to_terms(s: &Substitution, ts: &Vec<Term>) -> (r: Vec<Term>)
    ensures
        terms_view(r@) == apply_terms(s@, terms_view(ts@)),
    decreases ts, 0int,
{
    let mut r: Vec<Term> = Vec::new();
    let mut i: usize = 0;
    while i < ts.len()
        invariant
            0 <= i <= ts.len(),
            r.len() == i,
            forall|j: int| 0 <= j < i ==> r[j]@ == apply(s@, ts[j]@),
        decreases ts.len() - i,
    {
        r.push(apply_to_term(s, &ts[i]));
        i += 1;
    }
    assert(terms_view(r@) =~= apply_terms(s@, terms_view(ts@)));
    r
}

/// `t` with every variable that `s` binds replaced by its term.
pub fn apply_to_term(s: &Substitution, t: &Term) -> (r: Term)
    ensures
        r@ == apply(s@, t@),
    decreases t, 1int,
{
    match t {
        Term::Rigid { name, parameters } => Term::Rigid {
            name: *name,
            parameters: apply_to_terms(s, parameters),
        },
        Term::Alias { name, parameters } => Term::Alias {
            name: *name,
            parameters: apply_to_terms(s, parameters),
        },
        Term::Var(v) => match s.get(*v) {
            Some(bound) => clone_term(bound),
            None => Term::Var(*v),
        },
    }
}

} // verus!
