//! Unification of the predicates of two clauses, term by term.
//!
//! A term inside a predicate is named by its path: the place of an argument
//! of the predicate, then the place of an argument of that term, and so on.

use vstd::prelude::*;
use crate::unification::cnf::{
    rules_available, rules_ready, views_of, Clause, LiteralView, Predicate, PredicateView, Term,
    TermType, TermView,
};

verus! {

/// Whether the path leads to a term below the list `terms`.
pub open spec fn valid(terms: Seq<TermView>, path: Seq<usize>) -> bool
    decreases path.len(),
{
    path.len() > 0 && path[0] < terms.len() && (path.len() == 1 || valid(
        terms[path[0] as int].terms,
        path.skip(1),
    ))
}

/// The term that the path leads to.
pub open spec fn at(terms: Seq<TermView>, path: Seq<usize>) -> TermView
    decreases path.len(),
{
    if path.len() <= 1 {
        terms[path[0] as int]
    } else {
        at(terms[path[0] as int].terms, path.skip(1))
    }
}

/// The list with the term that the path leads to replaced by `new`.
pub open spec fn put(terms: Seq<TermView>, path: Seq<usize>, new: TermView) -> Seq<TermView>
    decreases path.len(),
{
    if path.len() <= 1 {
        terms.update(path[0] as int, new)
    } else {
        terms.update(
            path[0] as int,
            TermView {
                terms: put(terms[path[0] as int].terms, path.skip(1), new),
                ..terms[path[0] as int]
            },
        )
    }
}

/// What unifying two predicates comes to.
pub struct Unified {
    /// Whether the terms could be unified.
    pub ok: bool,
    /// The first predicate after the substitutions.
    pub pred: PredicateView,
    /// The second predicate after the substitutions.
    pub other: PredicateView,
}

/// Unification of the two terms that `path` leads to in `pred` and in
/// `other`, at most `budget` terms deep.
///
/// - Two constants unify if they are alike.
/// - A constant and a variable, or two variables: the variable of `other` (of
///   `pred` where `other` holds the constant) is replaced by the name of the
///   other term, throughout its predicate.
/// - Two functions unify if they are alike and their arguments unify one
///   after the other, each on what the one before has left.
/// - A function and a variable unify unless the variable occurs below the
///   function; the variable is then replaced by the function, at this place
///   only.
/// - A constant and a function do not unify.
pub open spec fn unified(
    pred: PredicateView,
    other: PredicateView,
    path: Seq<usize>,
    budget: nat,
) -> Unified
    decreases budget, 0nat,
{
    if !valid(pred.terms, path) || !valid(other.terms, path) {
        Unified { ok: false, pred, other }
    } else {
        let t1 = at(pred.terms, path);
        let t2 = at(other.terms, path);
        match (t1.get_type(), t2.get_type()) {
            (TermType::Constant, TermType::Constant) => Unified { ok: t1.alike(t2), pred, other },
            (TermType::Constant, TermType::Function) => Unified { ok: false, pred, other },
            (TermType::Constant, TermType::Variable) => Unified {
                ok: true,
                pred,
                other: other.set_var(t1, t2),
            },
            (TermType::Function, TermType::Function) => if !t1.alike(t2) || budget == 0 {
                Unified { ok: false, pred, other }
            } else {
                unified_args(pred, other, path, 0, t1.terms.len(), (budget - 1) as nat)
            },
            (TermType::Function, TermType::Variable) => if t1.contains(t2) {
                Unified { ok: false, pred, other }
            } else {
                Unified {
                    ok: true,
                    pred,
                    other: PredicateView { terms: put(other.terms, path, t1), ..other },
                }
            },
            (TermType::Function, TermType::Constant) => Unified { ok: false, pred, other },
            (TermType::Variable, TermType::Constant) => Unified {
                ok: true,
                pred: pred.set_var(t2, t1),
                other,
            },
            (TermType::Variable, TermType::Function) => if t2.contains(t1) {
                Unified { ok: false, pred, other }
            } else {
                Unified {
                    ok: true,
                    pred: PredicateView { terms: put(pred.terms, path, t2), ..pred },
                    other,
                }
            },
            (TermType::Variable, TermType::Variable) => Unified {
                ok: true,
                pred,
                other: other.set_var(t1, t2),
            },
        }
    }
}

/// Unification of the arguments from `j` up to `n` of the two functions that
/// `path` leads to: one after the other, stopping at the first that fails.
pub open spec fn unified_args(
    pred: PredicateView,
    other: PredicateView,
    path: Seq<usize>,
    j: nat,
    n: nat,
    budget: nat,
) -> Unified
    decreases budget, 1nat, n - j,
{
    if j >= n {
        Unified { ok: true, pred, other }
    } else {
        let step = unified(pred, other, path.push(j as usize), budget);
        if !step.ok {
            step
        } else {
            unified_args(step.pred, step.other, path, j + 1, n, budget)
        }
    }
}

/// The term that the path leads to from place `from` of the path on, if the
/// path is valid.
pub fn look<'a>(terms: &'a Vec<Term>, path: &Vec<usize>, from: usize) -> (found: Option<&'a Term>)
    requires
        from < path.len(),
    ensures
        match found {
            Some(t) => valid(views_of(terms@), path@.skip(from as int)) && t@ == at(
                views_of(terms@),
                path@.skip(from as int),
            ),
            None => !valid(views_of(terms@), path@.skip(from as int)),
        },
    decreases path.len() - from,
{
    let i = path[from];
    proof {
        assert(path@.skip(from as int)[0] == i);
        assert(path@.skip(from as int).skip(1) =~= path@.skip(from as int + 1));
    }
    if i >= terms.len() {
        return None;
    }
    assert(views_of(terms@)[i as int] == terms[i as int]@);
    if from + 1 == path.len() {
        Some(&terms[i])
    } else {
        look(&terms[i].terms, path, from + 1)
    }
}

/// Replaces the term that the path leads to, from place `from` of the path
/// on, by `new`.
pub fn put_at(terms: &mut Vec<Term>, path: &Vec<usize>, from: usize, new: Term)
    requires
        from < path.len(),
        valid(views_of(old(terms)@), path@.skip(from as int)),
    ensures
        views_of(final(terms)@) == put(views_of(old(terms)@), path@.skip(from as int), new@),
    decreases path.len() - from,
{
    let i = path[from];
    proof {
        assert(path@.skip(from as int)[0] == i);
        assert(path@.skip(from as int).skip(1) =~= path@.skip(from as int + 1));
        assert(views_of(terms@)[i as int] == terms[i as int]@);
    }
    if from + 1 == path.len() {
        terms[i] = new;
        assert(views_of(terms@) =~= views_of(old(terms)@).update(i as int, new@));
    } else {
        put_at(&mut terms[i].terms, path, from + 1, new);
        proof {
            let target = put(views_of(old(terms)@), path@.skip(from as int), new@);
            assert(views_of(terms@) =~= target);
        }
    }
}

/// Performs unification on the two terms that `path` leads to in `pred` and
/// in `other`, at most `budget` terms deep.
pub fn unify_terms(
    pred: &mut Predicate,
    other: &mut Predicate,
    path: &Vec<usize>,
    budget: usize,
) -> (ok: bool)
    requires
        rules_ready(),
        path.len() > 0,
    ensures
        ok == unified(old(pred)@, old(other)@, path@, budget as nat).ok,
        final(pred)@ == unified(old(pred)@, old(other)@, path@, budget as nat).pred,
        final(other)@ == unified(old(pred)@, old(other)@, path@, budget as nat).other,
    decreases budget,
{
    proof {
        assert(path@.skip(0) =~= path@);
    }
    let (t1, t2) = match (look(&pred.terms, path, 0), look(&other.terms, path, 0)) {
        (Some(t1), Some(t2)) => (t1.clone(), t2.clone()),
        _ => {
            return false;
        },
    };
    match (t1.get_type(), t2.get_type()) {
        (TermType::Constant, TermType::Constant) => t1 == t2,
        (TermType::Constant, TermType::Function) => false,
        (TermType::Constant, TermType::Variable) => {
            other.set_var(&t1, &t2);
            true
        },
        (TermType::Function, TermType::Function) => if t1 != t2 || budget == 0 {
            false
        } else {
            let n = t1.terms.len();
            let mut j: usize = 0;
            let ghost first = pred@;
            let ghost second = other@;
            while j < n
                invariant
                    rules_ready(),
                    j <= n,
                    budget > 0,
                    first == old(pred)@,
                    second == old(other)@,
                    unified(first, second, path@, budget as nat) == unified_args(
                        first,
                        second,
                        path@,
                        0,
                        n as nat,
                        (budget - 1) as nat,
                    ),
                    unified_args(first, second, path@, 0, n as nat, (budget - 1) as nat)
                        == unified_args(pred@, other@, path@, j as nat, n as nat, (budget - 1) as nat),
                decreases n - j,
            {
                let mut deeper: Vec<usize> = path.clone();
                deeper.push(j);
                assert(deeper@ =~= path@.push(j));
                if !unify_terms(pred, other, &deeper, budget - 1) {
                    return false;
                }
                j += 1;
            }
            true
        },
        (TermType::Function, TermType::Variable) => if t1.contains(&t2) {
            false
        } else {
            put_at(&mut other.terms, path, 0, t1);
            true
        },
        (TermType::Function, TermType::Constant) => false,
        (TermType::Variable, TermType::Constant) => {
            pred.set_var(&t2, &t1);
            true
        },
        (TermType::Variable, TermType::Function) => if t2.contains(&t1) {
            false
        } else {
            put_at(&mut pred.terms, path, 0, t2);
            true
        },
        (TermType::Variable, TermType::Variable) => {
            other.set_var(&t1, &t2);
            true
        },
    }
}

/// The two predicates after their terms from `i` up to `n` were unified, place
/// by place; whether a place could be unified changes nothing.
pub open spec fn unified_places(pred: PredicateView, other: PredicateView, i: nat, n: nat) -> (
    PredicateView,
    PredicateView,
)
    decreases n - i,
{
    if i >= n {
        (pred, other)
    } else {
        let step = unified(pred, other, seq![i as usize], usize::MAX as nat);
        unified_places(step.pred, step.other, i + 1, n)
    }
}

/// Performs unification on `pred` and `other`: their terms are unified place
/// by place, for as many places as `pred` has terms.
pub fn unify_tt(pred: &mut Predicate, other: &mut Predicate) -> (done: bool)
    requires
        rules_ready(),
    ensures
        done,
        (final(pred)@, final(other)@) == unified_places(
            old(pred)@,
            old(other)@,
            0,
            old(pred)@.terms.len(),
        ),
{
    let len = pred.terms.len();
    let mut i: usize = 0;
    while i < len
        invariant
            rules_ready(),
            i <= len,
            len == old(pred)@.terms.len(),
            unified_places(old(pred)@, old(other)@, 0, len as nat) == unified_places(
                pred@,
                other@,
                i as nat,
                len as nat,
            ),
        decreases len - i,
    {
        let mut path: Vec<usize> = Vec::new();
        path.push(i);
        assert(path@ =~= seq![i]);
        unify_terms(pred, other, &path, usize::MAX);
        i += 1;
    }
    true
}

/// The two clauses after literal `a` of the first was unified with the
/// literals from `b` on of the second: with each that is negated where `a` is
/// not, or the other way round, and whose predicate is alike.
pub open spec fn unified_row(
    focus: Seq<LiteralView>,
    target: Seq<LiteralView>,
    a: int,
    b: nat,
) -> (Seq<LiteralView>, Seq<LiteralView>)
    decreases target.len() - b,
{
    if b >= target.len() || !(0 <= a < focus.len()) {
        (focus, target)
    } else {
        let l = focus[a];
        let o = target[b as int];
        if l.neg != o.neg && l.predicate.alike(o.predicate) {
            let both = unified_places(l.predicate, o.predicate, 0, l.predicate.terms.len());
            unified_row(
                focus.update(a, LiteralView { predicate: both.0, ..l }),
                target.update(b as int, LiteralView { predicate: both.1, ..o }),
                a,
                b + 1,
            )
        } else {
            unified_row(focus, target, a, b + 1)
        }
    }
}

/// The two clauses after the literals from `a` on of the first were unified
/// with all the literals of the second.
pub open spec fn unified_clauses(focus: Seq<LiteralView>, target: Seq<LiteralView>, a: nat) -> (
    Seq<LiteralView>,
    Seq<LiteralView>,
)
    decreases focus.len() - a,
{
    if a >= focus.len() {
        (focus, target)
    } else {
        let row = unified_row(focus, target, a as int, 0);
        if row.0.len() == focus.len() {
            unified_clauses(row.0, row.1, a + 1)
        } else {
            row
        }
    }
}

/// A row of unifications keeps the number of literals of both clauses.
pub proof fn lemma_row_lengths(focus: Seq<LiteralView>, target: Seq<LiteralView>, a: int, b: nat)
    ensures
        unified_row(focus, target, a, b).0.len() == focus.len(),
        unified_row(focus, target, a, b).1.len() == target.len(),
    decreases target.len() - b,
{
    if b < target.len() && 0 <= a < focus.len() {
        let l = focus[a];
        let o = target[b as int];
        if l.neg != o.neg && l.predicate.alike(o.predicate) {
            let both = unified_places(l.predicate, o.predicate, 0, l.predicate.terms.len());
            lemma_row_lengths(
                focus.update(a, LiteralView { predicate: both.0, ..l }),
                target.update(b as int, LiteralView { predicate: both.1, ..o }),
                a,
                b + 1,
            );
        } else {
            lemma_row_lengths(focus, target, a, b + 1);
        }
    }
}

/// Performs unification on each predicate of `focus` with each predicate of
/// `target`, on copies of the two clauses, and returns the copies.
pub fn unify_cc(focus: &Clause, target: &Clause) -> (both: (Clause, Clause))
    requires
        rules_ready(),
    ensures
        (both.0@, both.1@) == unified_clauses(focus@, target@, 0),
{
    let mut first = focus.clone();
    let mut second = target.clone();
    let mut a: usize = 0;
    while a < first.literals.len()
        invariant
            rules_ready(),
            a <= first.literals.len(),
            first@.len() == first.literals.len(),
            unified_clauses(focus@, target@, 0) == unified_clauses(first@, second@, a as nat),
        decreases first.literals.len() - a,
    {
        let ghost row_start = (first@, second@);
        let mut b: usize = 0;
        proof {
            lemma_row_lengths(first@, second@, a as int, 0);
        }
        while b < second.literals.len()
            invariant
                rules_ready(),
                a < first.literals.len(),
                b <= second.literals.len(),
                first@.len() == first.literals.len(),
                second@.len() == second.literals.len(),
                first@.len() == row_start.0.len(),
                unified_row(row_start.0, row_start.1, a as int, 0) == unified_row(
                    first@,
                    second@,
                    a as int,
                    b as nat,
                ),
            decreases second.literals.len() - b,
        {
            let ghost f0 = first@;
            let ghost t0 = second@;
            assert(f0[a as int] == first.literals[a as int]@);
            assert(t0[b as int] == second.literals[b as int]@);
            if first.literals[a].neg != second.literals[b].neg {
                if first.literals[a].predicate == second.literals[b].predicate {
                    unify_tt(&mut first.literals[a].predicate, &mut second.literals[b].predicate);
                    proof {
                        let l = f0[a as int];
                        let o = t0[b as int];
                        let both = unified_places(
                            l.predicate,
                            o.predicate,
                            0,
                            l.predicate.terms.len(),
                        );
                        assert(first@ =~= f0.update(a as int, LiteralView { predicate: both.0, ..l }));
                        assert(second@ =~= t0.update(
                            b as int,
                            LiteralView { predicate: both.1, ..o },
                        ));
                    }
                }
            }
            b += 1;
        }
        a += 1;
    }
    (first, second)
}

/// The pairs that clause `i` makes with the clauses after it, up to clause
/// `upto`, each pair unified.
pub open spec fn pairs_of(kb: Seq<Seq<LiteralView>>, i: int, upto: int) -> Seq<
    (Seq<LiteralView>, Seq<LiteralView>),
>
    decreases upto - i,
{
    if upto <= i + 1 {
        Seq::empty()
    } else {
        pairs_of(kb, i, upto - 1).push(unified_clauses(kb[i], kb[upto - 1], 0))
    }
}

/// The pairs that the first `rows` clauses make with the clauses after them,
/// each pair unified.
pub open spec fn all_pairs(kb: Seq<Seq<LiteralView>>, rows: nat) -> Seq<
    (Seq<LiteralView>, Seq<LiteralView>),
>
    decreases rows,
{
    if rows == 0 {
        Seq::empty()
    } else {
        all_pairs(kb, (rows - 1) as nat) + pairs_of(kb, rows - 1, kb.len() as int)
    }
}

/// The abstract values of a list of clauses.
pub open spec fn clause_views(kb: Seq<Clause>) -> Seq<Seq<LiteralView>> {
    Seq::new(kb.len(), |i: int| kb[i]@)
}

/// The abstract values of a list of pairs of clauses.
pub open spec fn pair_views(pairs: Seq<(Clause, Clause)>) -> Seq<
    (Seq<LiteralView>, Seq<LiteralView>),
> {
    Seq::new(pairs.len(), |i: int| (pairs[i].0@, pairs[i].1@))
}

/// Performs unification on each clause of the knowledge base with each clause
/// after it, and returns the unified pairs in that order.
pub fn unify_pairs(kb: &Vec<Clause>) -> (pairs: Vec<(Clause, Clause)>)
    requires
        rules_ready(),
    ensures
        pair_views(pairs@) == all_pairs(clause_views(kb@), kb.len() as nat),
{
    let ghost all = clause_views(kb@);
    let mut pairs: Vec<(Clause, Clause)> = Vec::new();
    let mut i: usize = 0;
    assert(pair_views(pairs@) =~= all_pairs(all, 0));
    while i < kb.len()
        invariant
            rules_ready(),
            i <= kb.len(),
            all == clause_views(kb@),
            pair_views(pairs@) == all_pairs(all, i as nat),
        decreases kb.len() - i,
    {
        let ghost before = pair_views(pairs@);
        let mut j: usize = i + 1;
        assert(pair_views(pairs@) =~= before + pairs_of(all, i as int, i as int + 1));
        while j < kb.len()
            invariant
                rules_ready(),
                i < j <= kb.len(),
                all == clause_views(kb@),
                pair_views(pairs@) == before + pairs_of(all, i as int, j as int),
            decreases kb.len() - j,
        {
            let both = unify_cc(&kb[i], &kb[j]);
            let ghost prev = pair_views(pairs@);
            let ghost view = (both.0@, both.1@);
            pairs.push(both);
            proof {
                assert(pair_views(pairs@) =~= prev.push(view));
                assert(all[i as int] == kb[i as int]@);
                assert(all[j as int] == kb[j as int]@);
                assert(pair_views(pairs@) =~= before + pairs_of(all, i as int, j as int + 1));
            }
            j += 1;
        }
        i += 1;
    }
    pairs
}

/// Performs unification on each line of the knowledge base with each line
/// after it. `None` where the rule that tells constants from variables
/// cannot be applied.
pub fn unify(kb: Vec<Clause>) -> (pairs: Option<Vec<(Clause, Clause)>>)
    ensures
        match pairs {
            Some(list) => rules_ready() && pair_views(list@) == all_pairs(
                clause_views(kb@),
                kb.len() as nat,
            ),
            None => !rules_ready(),
        },
{
    if rules_available() {
        Some(unify_pairs(&kb))
    } else {
        None
    }
}

} // verus!
