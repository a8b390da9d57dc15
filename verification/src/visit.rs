//! The variables that occur in a term.
use crate::grammar::{terms_view, Term, TermView, Variable};
use vstd::prelude::*;

verus! {

/// The variables that occur in `t`.
pub open spec fn free_vars(t: TermView) -> Set<Variable>
    decreases t, 1int,
{
    match t {
        TermView::Rigid { name, parameters } => free_vars_of_terms(parameters),
        TermView::Alias { name, parameters } => free_vars_of_terms(parameters),
        TermView::Var(v) => set![v],
    }
}

/// The variables that occur in some term of `ts`.
pub open spec fn free_vars_of_terms(ts: Seq<TermView>) -> Set<Variable>
    decreases ts, 0int,
{
    Set::new(
        |v: Variable| exists|i: int| 0 <= i < ts.len() && free_vars(#[trigger] ts[i]).contains(v),
    )
}

/// `acc`, followed by `v` unless `acc` holds it already.
pub open spec fn remember(acc: Seq<Variable>, v: Variable) -> Seq<Variable> {
    if acc.contains(v) {
        acc
    } else {
        acc.push(v)
    }
}

/// `acc`, followed by the variables of the first `n` terms of `ts` that `acc`
/// does not hold, each once, in the order in which they first occur.
pub open spec fn collect_upto(ts: Seq<TermView>, n: int, acc: Seq<Variable>) -> Seq<Variable>
    decreases ts, n,
{
    if n <= 0 || n > ts.len() {
        acc
    } else {
        collect(ts[n - 1], collect_upto(ts, n - 1, acc))
    }
}

/// `acc`, followed by the variables of `t` that `acc` does not hold, each
/// once, in the order in which they first occur.
pub open spec fn collect(t: TermView, acc: Seq<Variable>) -> Seq<Variable>
    decreases t, 0int,
{
    match t {
        TermView::Rigid { name, parameters } => collect_upto(
            parameters,
            parameters.len() as int,
            acc,
        ),
        TermView::Alias { name, parameters } => collect_upto(
            parameters,
            parameters.len() as int,
            acc,
        ),
        TermView::Var(v) => remember(acc, v),
    }
}

/// The variables of `t`, each once, in the order in which they first occur.
pub open spec fn free_variables(t: TermView) -> Seq<Variable> {
    collect(t, Seq::empty())
}

/// What `remember` holds: `acc` and `v`, without repeating any.
pub proof fn lemma_remember(acc: Seq<Variable>, v: Variable)
    ensures
        forall|w: Variable| #[trigger] remember(acc, v).contains(w) <==> acc.contains(w) || w == v,
        acc.no_duplicates() ==> remember(acc, v).no_duplicates(),
{
    let r = remember(acc, v);
    if !acc.contains(v) {
        assert(r[acc.len() as int] == v);
        assert forall|w: Variable| #[trigger] r.contains(w) <==> acc.contains(w) || w == v by {
            if acc.contains(w) {
                let i = choose|i: int| 0 <= i < acc.len() && acc[i] == w;
                assert(r[i] == w);
            }
        }
    }
}

/// What `collect_upto` gathers: `acc` and the variables of the terms, without
/// repeating any.
pub proof fn lemma_collect_upto(ts: Seq<TermView>, n: int, acc: Seq<Variable>)
    requires
        0 <= n <= ts.len(),
    ensures
        forall|w: Variable| #[trigger]
            collect_upto(ts, n, acc).contains(w) <==> acc.contains(w) || free_vars_of_terms(
                ts.take(n),
            ).contains(w),
        acc.no_duplicates() ==> collect_upto(ts, n, acc).no_duplicates(),
    decreases ts, n,
{
    if n > 0 {
        let before = collect_upto(ts, n - 1, acc);
        lemma_collect_upto(ts, n - 1, acc);
        lemma_collect(ts[n - 1], before);
        let after = collect_upto(ts, n, acc);
        let shorter = ts.take(n - 1);
        let longer = ts.take(n);
        assert(after == collect(ts[n - 1], before));
        assert forall|w: Variable| #[trigger]
            after.contains(w) <==> acc.contains(w) || free_vars_of_terms(longer).contains(w) by {
            assert(after.contains(w) <==> before.contains(w) || free_vars(ts[n - 1]).contains(w));
            assert(before.contains(w) <==> acc.contains(w) || free_vars_of_terms(shorter).contains(
                w,
            ));
            assert(free_vars_of_terms(longer).contains(w) <==> free_vars_of_terms(shorter).contains(
                w,
            ) || free_vars(ts[n - 1]).contains(w)) by {
            if free_vars_of_terms(longer).contains(w) {
                let i = choose|i: int|
                    0 <= i < longer.len() && free_vars(#[trigger] longer[i]).contains(w);
                if i < n - 1 {
                    assert(shorter[i] == longer[i]);
                    assert(free_vars_of_terms(shorter).contains(w));
                } else {
                    assert(longer[i] == ts[n - 1]);
                }
            }
            if free_vars_of_terms(shorter).contains(w) {
                let i = choose|i: int|
                    0 <= i < shorter.len() && free_vars(#[trigger] shorter[i]).contains(w);
                assert(longer[i] == shorter[i]);
            }
            if free_vars(ts[n - 1]).contains(w) {
                assert(longer[n - 1] == ts[n - 1]);
            }
            }
        }
    }
}

/// What `collect_upto` gathers from a whole list: `acc` and the variables of
/// the terms, without repeating any.
pub proof fn lemma_collect_all(ts: Seq<TermView>, acc: Seq<Variable>)
    ensures
        forall|w: Variable| #[trigger]
            collect_upto(ts, ts.len() as int, acc).contains(w) <==> acc.contains(w)
                || free_vars_of_terms(ts).contains(w),
        acc.no_duplicates() ==> collect_upto(ts, ts.len() as int, acc).no_duplicates(),
    decreases ts, ts.len() + 1,
{
    lemma_collect_upto(ts, ts.len() as int, acc);
    assert(ts.take(ts.len() as int) =~= ts);
}

/// What `collect` gathers: `acc` and the variables of the term, without
/// repeating any.
pub proof fn lemma_collect(t: TermView, acc: Seq<Variable>)
    ensures
        forall|w: Variable| #[trigger]
            collect(t, acc).contains(w) <==> acc.contains(w) || free_vars(t).contains(w),
        acc.no_duplicates() ==> collect(t, acc).no_duplicates(),
    decreases t, 0int,
{
    match t {
        TermView::Rigid { parameters, .. } | TermView::Alias { parameters, .. } => {
            let all = collect_upto(parameters, parameters.len() as int, acc);
            lemma_collect_all(parameters, acc);
            assert(collect(t, acc) == all);
            assert(free_vars(t) == free_vars_of_terms(parameters));
            assert forall|w: Variable| #[trigger]
                collect(t, acc).contains(w) <==> acc.contains(w) || free_vars(t).contains(w) by {
                assert(all.contains(w) <==> acc.contains(w) || free_vars_of_terms(
                    parameters,
                ).contains(w));
            }
        },
        TermView::Var(v) => {
            lemma_remember(acc, v);
        },
    }
}

/// The list of free variables holds exactly the free variables, each once.
pub proof fn lemma_free_variables(t: TermView)
    ensures
        free_variables(t).no_duplicates(),
        forall|w: Variable| #[trigger] free_variables(t).contains(w) <==> free_vars(t).contains(w),
{
    lemma_collect(t, Seq::empty());
}

/// Whether `vs` holds `v`.
pub fn contains_variable(vs: &Vec<Variable>, v: Variable) -> (r: bool)
    ensures
        r == vs@.contains(v),
{
    let mut i: usize = 0;
    while i < vs.len()
        invariant
            0 <= i <= vs.len(),
            forall|j: int| 0 <= j < i ==> vs[j] != v,
        decreases vs.len() - i,
    {
        if vs[i] == v {
            return true;
        }
        i += 1;
    }
    false
}

/// Whether `v` occurs in some term of `ts`.
pub fn occurs_in_terms(v: Variable, ts: &Vec<Term>) -> (r: bool)
    ensures
        r == free_vars_of_terms(terms_view(ts@)).contains(v),
    decreases ts, 0int,
{
    let mut i: usize = 0;
    while i < ts.len()
        invariant
            0 <= i <= ts.len(),
            forall|j: int| 0 <= j < i ==> !free_vars(terms_view(ts@)[j]).contains(v),
        decreases ts.len() - i,
    {
        if occurs_in(v, &ts[i]) {
            assert(terms_view(ts@)[i as int] == ts[i as int]@);
            return true;
        }
        i += 1;
    }
    false
}

/// Whether `v` occurs in `t`.
pub fn occurs_in(v: Variable, t: &Term) -> (r: bool)
    ensures
        r == free_vars(t@).contains(v),
    decreases t, 1int,
{
    match t {
        Term::Rigid { name, parameters } => occurs_in_terms(v, parameters),
        Term::Alias { name, parameters } => occurs_in_terms(v, parameters),
        Term::Var(w) => *w == v,
    }
}

/// Adds to `acc` the variables of the terms that it does not hold, each once,
/// in the order in which they first occur.
pub fn collect_from_terms(ts: &Vec<Term>, acc: &mut Vec<Variable>)
    ensures
        final(acc)@ == collect_upto(terms_view(ts@), ts.len() as int, old(acc)@),
    decreases ts, 0int,
{
    let mut i: usize = 0;
    while i < ts.len()
        invariant
            0 <= i <= ts.len(),
            acc@ == collect_upto(terms_view(ts@), i as int, old(acc)@),
        decreases ts.len() - i,
    {
        collect_from(&ts[i], acc);
        i += 1;
    }
}

/// Adds to `acc` the variables of `t` that it does not hold, each once, in the
/// order in which they first occur.
pub fn collect_from(t: &Term, acc: &mut Vec<Variable>)
    ensures
        final(acc)@ == collect(t@, old(acc)@),
    decreases t, 1int,
{
    match t {
        Term::Rigid { name, parameters } => collect_from_terms(parameters, acc),
        Term::Alias { name, parameters } => collect_from_terms(parameters, acc),
        Term::Var(v) => {
            if !contains_variable(acc, *v) {
                acc.push(*v);
            }
        },
    }
}

/// The variables of `t`, each once, in the order in which they first occur.
pub fn list_free_variables(t: &Term) -> (r: Vec<Variable>)
    ensures
        r@ == free_variables(t@),
        r@.no_duplicates(),
        forall|w: Variable| #[trigger] r@.contains(w) <==> free_vars(t@).contains(w),
{
    let mut r: Vec<Variable> = Vec::new();
    collect_from(t, &mut r);
    proof {
        lemma_free_variables(t@);
    }
    r
}

} // verus!
