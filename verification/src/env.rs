//! The environment: the variables in scope, ordered by universe.
//!
//! A variable's universe is its position in the environment. Inserting a
//! variable moves the later ones up by one place, so a universe is a rank that
//! is only meaningful relative to the others: what never changes is the order
//! between any two variables that are in scope.
use crate::grammar::{goals_view, terms_view, Goal, GoalView, Kind, Term, TermView, Variable};
use crate::visit::{contains_variable, free_vars, list_free_variables};
use vstd::prelude::*;

verus! {

/// The variables in scope, lowest universe first.
#[derive(Debug)]
pub struct Env {
    pub variables: Vec<Variable>,
}

impl View for Env {
    type V = Seq<Variable>;

    open spec fn view(&self) -> Seq<Variable> {
        self.variables@
    }
}

/// No variable is listed twice and none is a bound placeholder.
pub open spec fn well_formed(env: Seq<Variable>) -> bool {
    &&& env.no_duplicates()
    &&& forall|i: int| 0 <= i < env.len() ==> (#[trigger] env[i]).kind != Kind::Bound
}

/// The universe of `v`: its position in `env`. Meaningful only where `env`
/// holds `v`.
pub open spec fn rank(env: Seq<Variable>, v: Variable) -> int {
    env.index_of(v)
}

/// The largest index among the first `n` variables, or 0.
pub open spec fn max_index_upto(env: Seq<Variable>, n: int) -> int
    decreases n,
{
    if n <= 0 || n > env.len() {
        0
    } else {
        let m = max_index_upto(env, n - 1);
        if env[n - 1].index > m {
            env[n - 1].index as int
        } else {
            m
        }
    }
}

/// The largest index in use, or 0.
pub open spec fn max_index(env: Seq<Variable>) -> int {
    max_index_upto(env, env.len() as int)
}

/// Whether `n` more variables can be numbered.
pub open spec fn has_room(env: Seq<Variable>, n: int) -> bool {
    max_index(env) + n <= u64::MAX
}

/// The next variable of the given kind: its index is one above all in use.
pub open spec fn fresh_variable(env: Seq<Variable>, kind: Kind) -> Variable {
    Variable { kind, index: (max_index(env) + 1) as u64 }
}

/// `env` followed by `n` fresh variables of the given kind.
pub open spec fn with_fresh(env: Seq<Variable>, kind: Kind, n: nat) -> Seq<Variable>
    decreases n,
{
    if n == 0 {
        env
    } else {
        let e = with_fresh(env, kind, (n - 1) as nat);
        e.push(fresh_variable(e, kind))
    }
}

/// `e2` holds every variable of `e1`, and orders any two of them as `e1` does.
pub open spec fn extends(e2: Seq<Variable>, e1: Seq<Variable>) -> bool {
    &&& forall|v: Variable| #[trigger] e1.contains(v) ==> e2.contains(v)
    &&& forall|a: Variable, b: Variable|
        #![trigger e1.contains(a), e1.contains(b)]
        e1.contains(a) && e1.contains(b) && rank(e1, a) < rank(e1, b) ==> rank(e2, a) < rank(
            e2,
            b,
        )
}

/// Every variable of `t` is in scope.
pub open spec fn encloses(env: Seq<Variable>, t: TermView) -> bool {
    forall|v: Variable| #[trigger] free_vars(t).contains(v) ==> env.contains(v)
}

/// Every variable of every term is in scope.
pub open spec fn encloses_terms(env: Seq<Variable>, ts: Seq<TermView>) -> bool {
    forall|i: int| 0 <= i < ts.len() ==> encloses(env, #[trigger] ts[i])
}

/// Every variable of every goal is in scope.
pub open spec fn encloses_goals(env: Seq<Variable>, gs: Seq<GoalView>) -> bool {
    forall|i: int| 0 <= i < gs.len() ==> encloses_terms(env, (#[trigger] gs[i]).terms)
}

/// In a list without repetition, an element's rank is where it stands.
pub proof fn lemma_rank(env: Seq<Variable>, i: int)
    requires
        env.no_duplicates(),
        0 <= i < env.len(),
    ensures
        rank(env, env[i]) == i,
        env.contains(env[i]),
{
    assert(env.contains(env[i]));
    let j = env.index_of(env[i]);
    assert(0 <= j < env.len() && env[j] == env[i]);
}

/// The rank of a variable in scope is a position that holds it.
pub proof fn lemma_rank_of_member(env: Seq<Variable>, v: Variable)
    requires
        env.contains(v),
    ensures
        0 <= rank(env, v) < env.len(),
        env[rank(env, v)] == v,
{
}

/// The largest index among the first `n` variables bounds each of their
/// indices and, unless it is 0, is one of them.
pub proof fn lemma_max_index_upto(env: Seq<Variable>, n: int)
    requires
        0 <= n <= env.len(),
    ensures
        0 <= max_index_upto(env, n) <= u64::MAX,
        forall|i: int| 0 <= i < n ==> (#[trigger] env[i]).index <= max_index_upto(env, n),
        max_index_upto(env, n) == 0 || exists|i: int|
            0 <= i < n && (#[trigger] env[i]).index == max_index_upto(env, n),
    decreases n,
{
    if n > 0 {
        lemma_max_index_upto(env, n - 1);
        let m = max_index_upto(env, n - 1);
        if env[n - 1].index > m {
            assert(env[n - 1].index == max_index_upto(env, n));
        } else if m != 0 {
            let i = choose|i: int| 0 <= i < n - 1 && (#[trigger] env[i]).index == m;
            assert(env[i].index == max_index_upto(env, n));
        }
    }
}

/// The largest index bounds every index and, unless it is 0, is one of them.
pub proof fn lemma_max_index(env: Seq<Variable>)
    ensures
        0 <= max_index(env) <= u64::MAX,
        forall|i: int| 0 <= i < env.len() ==> (#[trigger] env[i]).index <= max_index(env),
        max_index(env) == 0 || exists|i: int|
            0 <= i < env.len() && (#[trigger] env[i]).index == max_index(env),
{
    lemma_max_index_upto(env, env.len() as int);
}

/// Any bound that is attained is the largest index.
pub proof fn lemma_max_index_is(env: Seq<Variable>, m: int)
    requires
        forall|i: int| 0 <= i < env.len() ==> (#[trigger] env[i]).index <= m,
        m == 0 || exists|i: int| 0 <= i < env.len() && (#[trigger] env[i]).index == m,
    ensures
        max_index(env) == m,
{
    lemma_max_index(env);
    if m != 0 {
        let i = choose|i: int| 0 <= i < env.len() && (#[trigger] env[i]).index == m;
        assert(env[i].index <= max_index(env));
    }
    if max_index(env) != 0 {
        let i = choose|i: int| 0 <= i < env.len() && (#[trigger] env[i]).index == max_index(env);
        assert(env[i].index <= m);
    }
}

/// A fresh variable is none of those in scope.
pub proof fn lemma_fresh_is_new(env: Seq<Variable>, kind: Kind)
    requires
        has_room(env, 1),
    ensures
        !env.contains(fresh_variable(env, kind)),
        fresh_variable(env, kind).index == max_index(env) + 1,
{
    lemma_max_index(env);
    let y = fresh_variable(env, kind);
    if env.contains(y) {
        let i = choose|i: int| 0 <= i < env.len() && env[i] == y;
        assert(env[i].index <= max_index(env));
    }
}

/// Inserting a new variable keeps the environment well formed and the order
/// among the others; the new variable stands just below those that were at
/// `r` or above.
pub proof fn lemma_insert(env: Seq<Variable>, r: int, y: Variable)
    requires
        well_formed(env),
        !env.contains(y),
        y.kind != Kind::Bound,
        0 <= r <= env.len(),
    ensures
        well_formed(env.insert(r, y)),
        extends(env.insert(r, y), env),
        env.insert(r, y).contains(y),
        rank(env.insert(r, y), y) == r,
        forall|v: Variable| #[trigger]
            env.contains(v) ==> env.insert(r, y).contains(v) && rank(env.insert(r, y), v) == (
            if rank(env, v) < r {
                rank(env, v)
            } else {
                rank(env, v) + 1
            }),
        forall|v: Variable| #[trigger]
            env.insert(r, y).contains(v) ==> v == y || env.contains(v),
{
    let e2 = env.insert(r, y);
    env.insert_ensures(r, y);
    assert(e2.no_duplicates()) by {
        assert forall|i: int, j: int| 0 <= i < e2.len() && 0 <= j < e2.len() && i != j implies e2[i]
            != e2[j] by {
            let oi = if i < r {
                i
            } else {
                i - 1
            };
            let oj = if j < r {
                j
            } else {
                j - 1
            };
            if i != r {
                assert(e2[i] == env[oi]);
                assert(env.contains(env[oi]));
            }
            if j != r {
                assert(e2[j] == env[oj]);
                assert(env.contains(env[oj]));
            }
        }
    }
    assert forall|i: int| 0 <= i < e2.len() implies (#[trigger] e2[i]).kind != Kind::Bound by {
        if i < r {
            assert(e2[i] == env[i]);
        } else if i > r {
            assert(e2[i] == env[i - 1]);
        }
    }
    assert(e2[r] == y);
    lemma_rank(e2, r);
    assert forall|v: Variable| #[trigger] env.contains(v) implies e2.contains(v) && rank(e2, v)
        == (if rank(env, v) < r {
        rank(env, v)
    } else {
        rank(env, v) + 1
    }) by {
        let i = rank(env, v);
        lemma_rank_of_member(env, v);
        if i < r {
            assert(e2[i] == v);
            lemma_rank(e2, i);
        } else {
            assert(e2[i + 1] == v);
            lemma_rank(e2, i + 1);
        }
    }
    assert forall|v: Variable| #[trigger] e2.contains(v) implies v == y || env.contains(v) by {
        let i = rank(e2, v);
        lemma_rank_of_member(e2, v);
        if i < r {
            assert(e2[i] == env[i]);
        } else if i > r {
            assert(e2[i] == env[i - 1]);
        }
    }
}

/// Pushing a new variable is inserting it above all others.
pub proof fn lemma_push(env: Seq<Variable>, y: Variable)
    requires
        well_formed(env),
        !env.contains(y),
        y.kind != Kind::Bound,
    ensures
        well_formed(env.push(y)),
        extends(env.push(y), env),
        env.push(y).contains(y),
        rank(env.push(y), y) == env.len(),
        forall|v: Variable| #[trigger]
            env.contains(v) ==> env.push(y).contains(v) && rank(env.push(y), v) == rank(env, v),
        forall|v: Variable| #[trigger] env.push(y).contains(v) ==> v == y || env.contains(v),
{
    assert(env.push(y) =~= env.insert(env.len() as int, y));
    lemma_insert(env, env.len() as int, y);
    assert forall|v: Variable| #[trigger] env.contains(v) implies rank(env.push(y), v) == rank(
        env,
        v,
    ) by {
        lemma_rank_of_member(env, v);
    }
}

/// An environment extends itself.
pub proof fn lemma_extends_reflexive(env: Seq<Variable>)
    ensures
        extends(env, env),
{
}

/// An extension of an extension is an extension.
pub proof fn lemma_extends_transitive(e3: Seq<Variable>, e2: Seq<Variable>, e1: Seq<Variable>)
    requires
        extends(e3, e2),
        extends(e2, e1),
    ensures
        extends(e3, e1),
{
    assert forall|a: Variable, b: Variable|
        #![trigger e1.contains(a), e1.contains(b)]
        e1.contains(a) && e1.contains(b) && rank(e1, a) < rank(e1, b) implies rank(e3, a) < rank(
        e3,
        b,
    ) by {
        assert(e2.contains(a) && e2.contains(b));
    }
}

/// Cutting an environment off at `k` keeps exactly the variables below `k`,
/// at their ranks.
pub proof fn lemma_take(env: Seq<Variable>, k: int)
    requires
        well_formed(env),
        0 <= k <= env.len(),
    ensures
        well_formed(env.take(k)),
        forall|v: Variable| #[trigger]
            env.take(k).contains(v) <==> env.contains(v) && rank(env, v) < k,
        forall|v: Variable| #[trigger]
            env.take(k).contains(v) ==> rank(env.take(k), v) == rank(env, v),
{
    let e2 = env.take(k);
    assert forall|v: Variable| #[trigger] e2.contains(v) implies env.contains(v) && rank(env, v)
        < k && rank(e2, v) == rank(env, v) by {
        let i = rank(e2, v);
        lemma_rank_of_member(e2, v);
        assert(env[i] == v);
        lemma_rank(env, i);
    }
    assert forall|v: Variable| env.contains(v) && rank(env, v) < k implies #[trigger] e2.contains(
        v,
    ) by {
        lemma_rank_of_member(env, v);
        assert(e2[rank(env, v)] == v);
    }
    assert forall|i: int| 0 <= i < e2.len() implies (#[trigger] e2[i]).kind != Kind::Bound by {
        assert(e2[i] == env[i]);
    }
}

/// A larger environment encloses what a smaller one does.
pub proof fn lemma_encloses_extends(e2: Seq<Variable>, e1: Seq<Variable>, t: TermView)
    requires
        extends(e2, e1),
        encloses(e1, t),
    ensures
        encloses(e2, t),
{
}

impl Clone for Env {
    fn clone(&self) -> (r: Env)
        ensures
            r@ == self@,
    {
        let mut variables: Vec<Variable> = Vec::new();
        let mut i: usize = 0;
        while i < self.variables.len()
            invariant
                0 <= i <= self.variables.len(),
                variables@ == self.variables@.take(i as int),
            decreases self.variables.len() - i,
        {
            variables.push(self.variables[i]);
            assert(self.variables@.take(i + 1) =~= self.variables@.take(i as int).push(
                self.variables[i as int],
            ));
            i += 1;
        }
        assert(self.variables@.take(self.variables.len() as int) =~= self.variables@);
        Env { variables }
    }
}

impl Env {
    /// The environment with nothing in scope.
    pub fn new() -> (r: Env)
        ensures
            r@ == Seq::<Variable>::empty(),
            well_formed(r@),
    {
        Env { variables: Vec::new() }
    }

    /// The number of variables in scope.
    pub fn len(&self) -> (r: usize)
        ensures
            r == self@.len(),
    {
        self.variables.len()
    }

    /// Whether no variable is listed twice and none is a bound placeholder.
    pub fn is_well_formed(&self) -> (r: bool)
        ensures
            r == well_formed(self@),
    {
        let mut i: usize = 0;
        while i < self.variables.len()
            invariant
                0 <= i <= self.variables.len(),
                forall|a: int, b: int| 0 <= a < b < i ==> self.variables[a] != self.variables[b],
                forall|a: int| 0 <= a < i ==> (#[trigger] self.variables[a]).kind != Kind::Bound,
            decreases self.variables.len() - i,
        {
            if self.variables[i].kind == Kind::Bound {
                return false;
            }
            let mut j: usize = 0;
            while j < i
                invariant
                    0 <= j <= i,
                    i < self.variables.len(),
                    forall|a: int| 0 <= a < j ==> self.variables[a] != self.variables[i as int],
                decreases i - j,
            {
                if self.variables[j] == self.variables[i] {
                    return false;
                }
                j += 1;
            }
            i += 1;
        }
        true
    }

    /// Whether `v` is in scope.
    pub fn contains(&self, v: Variable) -> (r: bool)
        ensures
            r == self@.contains(v),
    {
        contains_variable(&self.variables, v)
    }

    /// The universe of a variable that is in scope.
    pub fn universe(&self, v: Variable) -> (r: usize)
        requires
            self@.no_duplicates(),
            self@.contains(v),
        ensures
            r == rank(self@, v),
            r < self@.len(),
            self@[r as int] == v,
    {
        let mut i: usize = 0;
        while i < self.variables.len()
            invariant
                0 <= i <= self.variables.len(),
                forall|j: int| 0 <= j < i ==> self.variables[j] != v,
                self@.no_duplicates(),
            decreases self.variables.len() - i,
        {
            if self.variables[i] == v {
                proof {
                    lemma_rank(self@, i as int);
                }
                return i;
            }
            i += 1;
        }
        proof {
            lemma_rank_of_member(self@, v);
            assert(false);
        }
        i
    }

    /// The two variables, the one of lower universe first.
    pub fn order_by_universe(&self, a: Variable, b: Variable) -> (r: (Variable, Variable))
        requires
            self@.no_duplicates(),
            self@.contains(a),
            self@.contains(b),
        ensures
            r == if rank(self@, a) < rank(self@, b) {
                (a, b)
            } else {
                (b, a)
            },
    {
        if self.universe(a) < self.universe(b) {
            (a, b)
        } else {
            (b, a)
        }
    }

    /// The largest index in use, or 0.
    pub fn max_index(&self) -> (r: u64)
        ensures
            r == max_index(self@),
    {
        let mut m: u64 = 0;
        let mut i: usize = 0;
        while i < self.variables.len()
            invariant
                0 <= i <= self.variables.len(),
                m == max_index_upto(self@, i as int),
            decreases self.variables.len() - i,
        {
            if self.variables[i].index > m {
                m = self.variables[i].index;
            }
            i += 1;
        }
        m
    }

    /// Whether `n` more variables can be numbered.
    pub fn has_room(&self, n: usize) -> (r: bool)
        ensures
            r == has_room(self@, n as int),
    {
        let m = self.max_index();
        let left: u64 = u64::MAX - m;
        match u64::try_from(n) {
            Ok(wanted) => wanted <= left,
            Err(_) => false,
        }
    }

    /// Brings a fresh variable into scope above all others.
    pub fn push_fresh(&mut self, kind: Kind) -> (v: Variable)
        requires
            well_formed(old(self)@),
            kind != Kind::Bound,
            has_room(old(self)@, 1),
        ensures
            v == fresh_variable(old(self)@, kind),
            final(self)@ == old(self)@.push(v),
            well_formed(final(self)@),
            extends(final(self)@, old(self)@),
            max_index(final(self)@) == max_index(old(self)@) + 1,
            !old(self)@.contains(v),
    {
        let index = self.max_index() + 1;
        let v = Variable { kind, index };
        proof {
            lemma_fresh_is_new(self@, kind);
            lemma_push(self@, v);
            lemma_max_index(self@);
            let e2 = self@.push(v);
            assert(e2[self@.len() as int].index == index);
            assert forall|i: int| 0 <= i < e2.len() implies (#[trigger] e2[i]).index <= index by {
                if i < self@.len() {
                    assert(e2[i] == self@[i]);
                }
            }
            lemma_max_index_is(e2, index as int);
        }
        self.variables.push(v);
        v
    }

    /// Brings a fresh variable into scope at universe `rank`: below every
    /// variable that was at `rank` or above, and above the others.
    pub fn insert_fresh_before(&mut self, kind: Kind, rank: usize) -> (v: Variable)
        requires
            well_formed(old(self)@),
            kind != Kind::Bound,
            has_room(old(self)@, 1),
            rank <= old(self)@.len(),
        ensures
            v == fresh_variable(old(self)@, kind),
            final(self)@ == old(self)@.insert(rank as int, v),
            well_formed(final(self)@),
            extends(final(self)@, old(self)@),
            max_index(final(self)@) == max_index(old(self)@) + 1,
            !old(self)@.contains(v),
            self::rank(final(self)@, v) == rank,
            forall|w: Variable| #[trigger]
                old(self)@.contains(w) ==> self::rank(final(self)@, w) == (if self::rank(
                    old(self)@,
                    w,
                ) < rank {
                    self::rank(old(self)@, w)
                } else {
                    self::rank(old(self)@, w) + 1
                }),
    {
        let index = self.max_index() + 1;
        let v = Variable { kind, index };
        proof {
            lemma_fresh_is_new(self@, kind);
            lemma_insert(self@, rank as int, v);
            lemma_max_index(self@);
            let e2 = self@.insert(rank as int, v);
            self@.insert_ensures(rank as int, v);
            assert(e2[rank as int].index == index);
            assert forall|i: int| 0 <= i < e2.len() implies (#[trigger] e2[i]).index <= index by {
                if i < rank {
                    assert(e2[i] == self@[i]);
                } else if i > rank {
                    assert(e2[i] == self@[i - 1]);
                }
            }
            lemma_max_index_is(e2, index as int);
        }
        self.variables.insert(rank, v);
        v
    }

    /// Whether every variable of `t` is in scope.
    pub fn encloses(&self, t: &Term) -> (r: bool)
        ensures
            r == encloses(self@, t@),
    {
        let fvs = list_free_variables(t);
        let mut i: usize = 0;
        while i < fvs.len()
            invariant
                0 <= i <= fvs.len(),
                forall|j: int| 0 <= j < i ==> self@.contains(fvs[j]),
                forall|w: Variable| #[trigger] fvs@.contains(w) <==> free_vars(t@).contains(w),
            decreases fvs.len() - i,
        {
            if !self.contains(fvs[i]) {
                assert(fvs@.contains(fvs[i as int]));
                return false;
            }
            i += 1;
        }
        assert forall|v: Variable| #[trigger] free_vars(t@).contains(v) implies self@.contains(
            v,
        ) by {
            assert(fvs@.contains(v));
        }
        true
    }

    /// Whether every variable of every term is in scope.
    pub fn encloses_terms(&self, ts: &Vec<Term>) -> (r: bool)
        ensures
            r == encloses_terms(self@, terms_view(ts@)),
    {
        let mut i: usize = 0;
        while i < ts.len()
            invariant
                0 <= i <= ts.len(),
                forall|j: int| 0 <= j < i ==> encloses(self@, #[trigger] terms_view(ts@)[j]),
            decreases ts.len() - i,
        {
            if !self.encloses(&ts[i]) {
                assert(terms_view(ts@)[i as int] == ts[i as int]@);
                return false;
            }
            assert(terms_view(ts@)[i as int] == ts[i as int]@);
            i += 1;
        }
        true
    }

    /// Whether every variable of every goal is in scope.
    pub fn encloses_goals(&self, gs: &Vec<Goal>) -> (r: bool)
        ensures
            r == encloses_goals(self@, goals_view(gs@)),
    {
        let mut i: usize = 0;
        while i < gs.len()
            invariant
                0 <= i <= gs.len(),
                forall|j: int|
                    0 <= j < i ==> encloses_terms(self@, (#[trigger] goals_view(gs@)[j]).terms),
            decreases gs.len() - i,
        {
            if !self.encloses_terms(&gs[i].terms) {
                assert(goals_view(gs@)[i as int] == gs[i as int]@);
                return false;
            }
            assert(goals_view(gs@)[i as int] == gs[i as int]@);
            i += 1;
        }
        true
    }

    /// Structural equality.
    pub fn equals(&self, other: &Env) -> (r: bool)
        ensures
            r == (self@ == other@),
    {
        if self.variables.len() != other.variables.len() {
            return false;
        }
        let mut i: usize = 0;
        while i < self.variables.len()
            invariant
                0 <= i <= self.variables.len(),
                self.variables.len() == other.variables.len(),
                forall|j: int| 0 <= j < i ==> self.variables[j] == other.variables[j],
            decreases self.variables.len() - i,
        {
            if self.variables[i] != other.variables[i] {
                return false;
            }
            i += 1;
        }
        assert(self@ =~= other@);
        true
    }
}

} // verus!
