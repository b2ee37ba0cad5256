//! The search for a satisfying assignment: unit propagation, then branching
//! on the variables in the order of their numbers.

use vstd::prelude::*;
use crate::cnf_satisfiability::formula::{
    forms, is_first_unit, lemma_reduced, lemma_without, reduced, set_variable, unit_of, unit_val,
    without,
};

verus! {

/// Whether the literal `l` is true under the assignment `a` of truth values to
/// variable numbers. The literal 0 is never true.
pub open spec fn lit_true(a: spec_fn(int) -> bool, l: int) -> bool {
    (l > 0 && a(l)) || (l < 0 && !a(-l))
}

/// Whether some literal of the clause is true.
pub open spec fn clause_true(a: spec_fn(int) -> bool, clause: Seq<isize>) -> bool {
    exists|i: int| 0 <= i < clause.len() && lit_true(a, #[trigger] clause[i] as int)
}

/// Whether every clause of the formula is true.
pub open spec fn satisfies(a: spec_fn(int) -> bool, f: Seq<Seq<isize>>) -> bool {
    forall|j: int| 0 <= j < f.len() ==> clause_true(a, #[trigger] f[j])
}

/// Whether some assignment makes every clause of the formula true.
pub open spec fn satisfiable(f: Seq<Seq<isize>>) -> bool {
    exists|a: spec_fn(int) -> bool| satisfies(a, f)
}

/// The variable number of a literal.
pub open spec fn magnitude(l: isize) -> int {
    if l < 0 {
        -l
    } else {
        l as int
    }
}

/// Every literal of the formula belongs to a variable from `index` on, below
/// the largest machine number.
pub open spec fn in_range(f: Seq<Seq<isize>>, index: int) -> bool {
    forall|i: int, j: int|
        0 <= i < f.len() && 0 <= j < f[i].len() ==> index <= magnitude(#[trigger] f[i][j])
            < isize::MAX
}

/// Some clause of the formula is empty.
pub open spec fn has_empty(f: Seq<Seq<isize>>) -> bool {
    exists|i: int| 0 <= i < f.len() && (#[trigger] f[i]).len() == 0
}

/// The list without its last entry; the empty list stays empty.
pub open spec fn popped(s: Seq<isize>) -> Seq<isize> {
    if s.len() > 0 {
        s.drop_last()
    } else {
        s
    }
}

/// `count + by`, held at `usize::MAX` where the sum does not fit.
pub open spec fn bumped(count: usize, by: nat) -> usize {
    if count + by > usize::MAX {
        usize::MAX
    } else {
        (count + by) as usize
    }
}

/// What unit propagation leaves.
pub struct Propagation {
    /// The clauses that are left.
    pub clauses: Seq<Seq<isize>>,
    /// The literals taken to be true so far.
    pub solution: Seq<isize>,
    /// The number of literals that were propagated.
    pub branches: nat,
}

/// What the search yields.
pub struct Outcome {
    /// Whether a satisfying assignment was found.
    pub sat: bool,
    /// The clauses as the search leaves them.
    pub clauses: Seq<Seq<isize>>,
    /// The literals on record as taken to be true.
    pub solution: Seq<isize>,
    /// The number of branching nodes explored.
    pub branches: nat,
}

/// A literal that is the unit of a formula is held by one of its clauses.
pub proof fn lemma_unit_held(f: Seq<Seq<isize>>)
    requires
        unit_of(f) != 0,
    ensures
        exists|i: int| 0 <= i < f.len() && (#[trigger] f[i]) =~= seq![unit_of(f)],
        exists|i: int| 0 <= i < f.len() && (#[trigger] f[i]).contains(unit_of(f)),
{
    let i = choose|i: int| is_first_unit(f, i);
    assert(f[i] =~= seq![unit_of(f)]);
    assert(f[i][0] == unit_of(f));
    assert(f[i].contains(unit_of(f)));
}

/// Unit propagation: as long as some clause holds exactly one literal, the
/// literal of the first such clause is put on record and taken to be true.
pub open spec fn propagated(f: Seq<Seq<isize>>, solution: Seq<isize>) -> Propagation
    decreases f.len(),
{
    let item = unit_of(f);
    if item == 0 {
        Propagation { clauses: f, solution, branches: 0 }
    } else {
        let rest = {
            proof {
                lemma_unit_held(f);
                lemma_reduced(f, item as int);
            }
            propagated(reduced(f, item as int), solution.push(item))
        };
        Propagation { branches: rest.branches + 1, ..rest }
    }
}

/// The search from variable `index` on. After unit propagation the formula is
/// satisfied if no clause is left, and refuted if an empty clause is left
/// (the last literal on record is then dropped). Else the variable `index` is
/// taken to be true and then, if that fails, to be false, and the search goes
/// on with the next variable. Every call and every propagated literal counts
/// as one branching node.
pub open spec fn dll_outcome(index: int, f: Seq<Seq<isize>>, solution: Seq<isize>) -> Outcome
    decreases isize::MAX - index,
{
    if index < 1 || !in_range(f, index) {
        Outcome { sat: false, clauses: f, solution, branches: 0 }
    } else {
        let p = propagated(f, solution);
        if p.clauses.len() == 0 {
            Outcome { sat: true, clauses: p.clauses, solution: p.solution, branches: 1 + p.branches }
        } else if has_empty(p.clauses) {
            Outcome {
                sat: false,
                clauses: p.clauses,
                solution: popped(p.solution),
                branches: 1 + p.branches,
            }
        } else {
            let yes = {
                proof {
                    lemma_propagated_range(f, solution, index);
                    lemma_room(p.clauses, index);
                }
                dll_outcome(index + 1, reduced(p.clauses, index), p.solution.push(index as isize))
            };
            if yes.sat {
                Outcome { branches: 1 + p.branches + yes.branches, ..yes }
            } else {
                let no = dll_outcome(
                    index + 1,
                    reduced(p.clauses, -index),
                    popped(yes.solution).push((-index) as isize),
                );
                Outcome {
                    sat: no.sat,
                    clauses: yes.clauses,
                    solution: if no.sat {
                        no.solution
                    } else {
                        popped(no.solution)
                    },
                    branches: 1 + p.branches + yes.branches + no.branches,
                }
            }
        }
    }
}

/// A formula in range with a clause that is not empty leaves room for the
/// next variable.
pub proof fn lemma_room(f: Seq<Seq<isize>>, index: int)
    requires
        in_range(f, index),
        f.len() > 0,
        !has_empty(f),
    ensures
        index < isize::MAX,
{
    assert(f[0].len() != 0);
    assert(index <= magnitude(f[0][0]));
}

/// Taking a literal to be true keeps the formula in range, and rids it of the
/// variable of the literal.
pub proof fn lemma_reduced_range(f: Seq<Seq<isize>>, val: int, index: int)
    requires
        in_range(f, index),
        isize::MIN < val <= isize::MAX,
    ensures
        in_range(reduced(f, val), index),
        forall|i: int, j: int|
            0 <= i < reduced(f, val).len() && 0 <= j < reduced(f, val)[i].len() ==> (
            #[trigger] reduced(f, val)[i][j]) != val && reduced(f, val)[i][j] != -val,
{
    let r = reduced(f, val);
    lemma_reduced(f, val);
    assert forall|i: int, j: int| 0 <= i < r.len() && 0 <= j < r[i].len() implies index
        <= magnitude(#[trigger] r[i][j]) < isize::MAX && r[i][j] != val && r[i][j] != -val by {
        let k = choose|k: int|
            0 <= k < f.len() && !(#[trigger] f[k]).contains(val as isize) && (#[trigger] r[i])
                == without(f[k], -val);
        let x = r[i][j];
        assert(r[i].contains(x));
        lemma_without(f[k], -val, x);
        assert(f[k].contains(x));
        let q = choose|q: int| 0 <= q < f[k].len() && f[k][q] == x;
        assert(index <= magnitude(f[k][q]) < isize::MAX);
    }
}

/// Unit propagation keeps the formula in range.
pub proof fn lemma_propagated_range(f: Seq<Seq<isize>>, solution: Seq<isize>, index: int)
    requires
        in_range(f, index),
        index >= 1,
    ensures
        in_range(propagated(f, solution).clauses, index),
    decreases f.len(),
{
    let item = unit_of(f);
    if item != 0 {
        lemma_unit_held(f);
        lemma_reduced(f, item as int);
        let i = choose|i: int| 0 <= i < f.len() && (#[trigger] f[i]) =~= seq![unit_of(f)];
        assert(index <= magnitude(f[i][0]) < isize::MAX);
        lemma_reduced_range(f, item as int, index);
        lemma_propagated_range(reduced(f, item as int), solution.push(item), index);
    }
}

/// Unit propagation on the clauses: each propagated literal is put on record
/// in `solution` and counted in `branches`.
pub fn unit_propagate(
    clauses: &mut Vec<Vec<isize>>,
    solution: &mut Vec<isize>,
    branches: &mut usize,
)
    requires
        in_range(forms(old(clauses)@), 1),
    ensures
        forms(final(clauses)@) == propagated(forms(old(clauses)@), old(solution)@).clauses,
        final(solution)@ == propagated(forms(old(clauses)@), old(solution)@).solution,
        *final(branches) == bumped(
            *old(branches),
            propagated(forms(old(clauses)@), old(solution)@).branches,
        ),
    decreases old(clauses).len(),
{
    let ghost f = forms(clauses@);
    let ghost index = 1int;
    let item = unit_val(clauses);
    if item == 0 {
        return ;
    }
    proof {
        lemma_unit_held(f);
        lemma_reduced(f, item as int);
        let i = choose|i: int| 0 <= i < f.len() && (#[trigger] f[i]) =~= seq![unit_of(f)];
        assert(index <= magnitude(f[i][0]) < isize::MAX);
        lemma_reduced_range(f, item as int, index);
    }
    *branches = branches.saturating_add(1);
    solution.push(item);
    set_variable(clauses, item);
    unit_propagate(clauses, solution, branches);
}

/// Whether some clause is empty.
pub fn any_empty(clauses: &Vec<Vec<isize>>) -> (found: bool)
    ensures
        found == has_empty(forms(clauses@)),
{
    let mut i: usize = 0;
    while i < clauses.len()
        invariant
            i <= clauses.len(),
            forall|p: int| 0 <= p < i ==> (#[trigger] forms(clauses@)[p]).len() != 0,
        decreases clauses.len() - i,
    {
        if clauses[i].len() == 0 {
            assert(forms(clauses@)[i as int].len() == 0);
            return true;
        }
        i += 1;
    }
    false
}

/// A copy of the clauses.
pub fn copy_clauses(clauses: &Vec<Vec<isize>>) -> (copy: Vec<Vec<isize>>)
    ensures
        forms(copy@) == forms(clauses@),
{
    let mut copy: Vec<Vec<isize>> = Vec::with_capacity(clauses.len());
    let mut i: usize = 0;
    while i < clauses.len()
        invariant
            i <= clauses.len(),
            copy.len() == i,
            forall|p: int| 0 <= p < i ==> (#[trigger] copy[p])@ == clauses[p]@,
        decreases clauses.len() - i,
    {
        let clause = clauses[i].clone();
        assert(clause@ =~= clauses[i as int]@);
        copy.push(clause);
        i += 1;
    }
    assert(forms(copy@) =~= forms(clauses@));
    copy
}

/// The search for a satisfying assignment from variable `index` on. Returns
/// whether the clauses can be satisfied. `solution` holds the literals on
/// record as taken to be true, `branches` counts the branching nodes, and
/// `clauses` is left as the search for the variable taken to be true left it.
pub fn dll(
    vars_num: usize,
    index: isize,
    clauses: &mut Vec<Vec<isize>>,
    solution: &mut Vec<isize>,
    branches: &mut usize,
) -> (sat: bool)
    requires
        index >= 1,
        in_range(forms(old(clauses)@), index as int),
    ensures
        sat == dll_outcome(index as int, forms(old(clauses)@), old(solution)@).sat,
        forms(final(clauses)@) == dll_outcome(
            index as int,
            forms(old(clauses)@),
            old(solution)@,
        ).clauses,
        final(solution)@ == dll_outcome(
            index as int,
            forms(old(clauses)@),
            old(solution)@,
        ).solution,
        *final(branches) == bumped(
            *old(branches),
            dll_outcome(index as int, forms(old(clauses)@), old(solution)@).branches,
        ),
        sat == satisfiable(forms(old(clauses)@)),
    decreases isize::MAX - index,
{
    let ghost f = forms(clauses@);
    let ghost start = solution@;
    proof {
        law_search_decides(index as int, f, start);
    }
    *branches = branches.saturating_add(1);
    unit_propagate(clauses, solution, branches);
    let ghost p = propagated(f, start);
    proof {
        lemma_propagated_range(f, start, index as int);
    }
    if clauses.len() == 0 {
        return true;
    } else {
        if any_empty(clauses) {
            solution.pop();
            return false;
        }
    }
    proof {
        lemma_room(p.clauses, index as int);
        lemma_reduced_range(p.clauses, index as int, index as int);
        lemma_reduced_range(p.clauses, -index as int, index as int);
        lemma_next_range(reduced(p.clauses, index as int), index as int);
        lemma_next_range(reduced(p.clauses, -index as int), index as int);
    }
    let mut old_clauses = copy_clauses(clauses);
    set_variable(clauses, index);
    solution.push(index);
    if dll(vars_num, index + 1, clauses, solution, branches) {
        return true;
    }
    solution.pop();
    set_variable(&mut old_clauses, -index);
    solution.push(-index);
    if dll(vars_num, index + 1, &mut old_clauses, solution, branches) {
        return true;
    }
    solution.pop();
    return false;
}

/// A formula in range that holds neither `index` nor its negation is in range
/// for the next variable.
pub proof fn lemma_next_range(f: Seq<Seq<isize>>, index: int)
    requires
        in_range(f, index),
        forall|i: int, j: int|
            0 <= i < f.len() && 0 <= j < f[i].len() ==> (#[trigger] f[i][j]) != index && f[i][j]
                != -index,
    ensures
        in_range(f, index + 1),
{
    assert forall|i: int, j: int| 0 <= i < f.len() && 0 <= j < f[i].len() implies index + 1
        <= magnitude(#[trigger] f[i][j]) < isize::MAX by {
        assert(f[i][j] != index && f[i][j] != -index);
    }
}

/// An assignment that makes a formula and the literal `val` true makes the
/// reduced formula true.
pub proof fn lemma_reduce_sound(f: Seq<Seq<isize>>, val: int, a: spec_fn(int) -> bool)
    requires
        satisfies(a, f),
        lit_true(a, val),
    ensures
        satisfies(a, reduced(f, val)),
{
    let r = reduced(f, val);
    lemma_reduced(f, val);
    assert forall|i: int| 0 <= i < r.len() implies clause_true(a, #[trigger] r[i]) by {
        let k = choose|k: int|
            0 <= k < f.len() && !(#[trigger] f[k]).contains(val as isize) && (#[trigger] r[i])
                == without(f[k], -val);
        assert(clause_true(a, f[k]));
        let q = choose|q: int| 0 <= q < f[k].len() && lit_true(a, #[trigger] f[k][q] as int);
        let x = f[k][q];
        assert(f[k].contains(x));
        lemma_without(f[k], -val, x);
        assert(r[i].contains(x));
        let t = choose|t: int| 0 <= t < r[i].len() && r[i][t] == x;
        assert(lit_true(a, r[i][t] as int));
    }
}

/// The assignment that agrees with `a` but makes the literal `val` true.
pub open spec fn with_true(a: spec_fn(int) -> bool, val: int) -> spec_fn(int) -> bool {
    |x: int|
        if x == val || x == -val {
            val > 0
        } else {
            a(x)
        }
}

/// An assignment that makes the reduced formula true makes the formula true
/// once it makes `val` true.
pub proof fn lemma_reduce_complete(f: Seq<Seq<isize>>, val: int, a: spec_fn(int) -> bool)
    requires
        satisfies(a, reduced(f, val)),
        val != 0,
        isize::MIN < val <= isize::MAX,
    ensures
        satisfies(with_true(a, val), f),
        lit_true(with_true(a, val), val),
{
    let r = reduced(f, val);
    let b = with_true(a, val);
    lemma_reduced(f, val);
    assert forall|k: int| 0 <= k < f.len() implies clause_true(b, #[trigger] f[k]) by {
        if f[k].contains(val as isize) {
            let q = choose|q: int| 0 <= q < f[k].len() && f[k][q] == val as isize;
            assert(lit_true(b, f[k][q] as int));
        } else {
            let d = without(f[k], -val);
            assert(r.contains(d));
            let i = choose|i: int| 0 <= i < r.len() && r[i] == d;
            assert(clause_true(a, r[i]));
            let t = choose|t: int| 0 <= t < d.len() && lit_true(a, #[trigger] d[t] as int);
            let x = d[t];
            assert(d.contains(x));
            lemma_without(f[k], -val, x);
            let q = choose|q: int| 0 <= q < f[k].len() && f[k][q] == x;
            assert(x != val) by {
                if x == val {
                    assert(f[k].contains(val as isize));
                }
            }
            assert(lit_true(b, f[k][q] as int));
        }
    }
}

/// Taking the literal of a unit clause to be true changes nothing about
/// whether the formula can be satisfied.
pub proof fn lemma_unit_step(f: Seq<Seq<isize>>, index: int)
    requires
        in_range(f, index),
        index >= 1,
        unit_of(f) != 0,
    ensures
        satisfiable(f) <==> satisfiable(reduced(f, unit_of(f) as int)),
{
    let item = unit_of(f);
    lemma_unit_held(f);
    let i = choose|i: int| 0 <= i < f.len() && (#[trigger] f[i]) =~= seq![unit_of(f)];
    assert(index <= magnitude(f[i][0]) < isize::MAX);
    if satisfiable(f) {
        let a = choose|a: spec_fn(int) -> bool| satisfies(a, f);
        assert(clause_true(a, f[i]));
        lemma_reduce_sound(f, item as int, a);
        assert(satisfies(a, reduced(f, item as int)));
    }
    if satisfiable(reduced(f, item as int)) {
        let a = choose|a: spec_fn(int) -> bool| satisfies(a, reduced(f, item as int));
        lemma_reduce_complete(f, item as int, a);
        assert(satisfies(with_true(a, item as int), f));
    }
}

/// Unit propagation changes nothing about whether the formula can be
/// satisfied.
pub proof fn lemma_propagated_sat(f: Seq<Seq<isize>>, solution: Seq<isize>, index: int)
    requires
        in_range(f, index),
        index >= 1,
    ensures
        satisfiable(propagated(f, solution).clauses) <==> satisfiable(f),
    decreases f.len(),
{
    let item = unit_of(f);
    if item != 0 {
        lemma_unit_held(f);
        lemma_reduced(f, item as int);
        let i = choose|i: int| 0 <= i < f.len() && (#[trigger] f[i]) =~= seq![unit_of(f)];
        assert(index <= magnitude(f[i][0]) < isize::MAX);
        lemma_reduced_range(f, item as int, index);
        lemma_unit_step(f, index);
        lemma_propagated_sat(reduced(f, item as int), solution.push(item), index);
    }
}

/// A formula can be satisfied exactly if it can with the variable `v` true or
/// with it false.
pub proof fn lemma_branch(f: Seq<Seq<isize>>, v: int)
    requires
        1 <= v < isize::MAX,
    ensures
        satisfiable(f) <==> satisfiable(reduced(f, v)) || satisfiable(reduced(f, -v)),
{
    if satisfiable(f) {
        let a = choose|a: spec_fn(int) -> bool| satisfies(a, f);
        if a(v) {
            lemma_reduce_sound(f, v, a);
            assert(satisfies(a, reduced(f, v)));
        } else {
            lemma_reduce_sound(f, -v, a);
            assert(satisfies(a, reduced(f, -v)));
        }
    }
    if satisfiable(reduced(f, v)) {
        let a = choose|a: spec_fn(int) -> bool| satisfies(a, reduced(f, v));
        lemma_reduce_complete(f, v, a);
        assert(satisfies(with_true(a, v), f));
    }
    let low = reduced(f, -v);
    if satisfiable(low) {
        let a = choose|a: spec_fn(int) -> bool| satisfies(a, low);
        lemma_reduce_complete(f, -v, a);
        assert(satisfies(with_true(a, -v), f));
    }
}

/// **The search decides satisfiability.** For a formula whose literals all
/// belong to variables from `index` on, the search from `index` succeeds
/// exactly if some assignment makes every clause true.
pub proof fn law_search_decides(index: int, f: Seq<Seq<isize>>, solution: Seq<isize>)
    requires
        index >= 1,
        in_range(f, index),
    ensures
        dll_outcome(index, f, solution).sat == satisfiable(f),
    decreases isize::MAX - index,
{
    let p = propagated(f, solution);
    lemma_propagated_range(f, solution, index);
    lemma_propagated_sat(f, solution, index);
    if p.clauses.len() == 0 {
        let a = |x: int| true;
        assert(satisfies(a, p.clauses));
    } else if has_empty(p.clauses) {
        let i = choose|i: int| 0 <= i < p.clauses.len() && (#[trigger] p.clauses[i]).len() == 0;
        assert forall|a: spec_fn(int) -> bool| !satisfies(a, p.clauses) by {
            if satisfies(a, p.clauses) {
                assert(clause_true(a, p.clauses[i]));
            }
        }
    } else {
        lemma_room(p.clauses, index);
        lemma_reduced_range(p.clauses, index, index);
        lemma_reduced_range(p.clauses, -index, index);
        lemma_next_range(reduced(p.clauses, index), index);
        lemma_next_range(reduced(p.clauses, -index), index);
        lemma_branch(p.clauses, index);
        let yes = dll_outcome(index + 1, reduced(p.clauses, index), p.solution.push(index as isize));
        law_search_decides(index + 1, reduced(p.clauses, index), p.solution.push(index as isize));
        law_search_decides(
            index + 1,
            reduced(p.clauses, -index),
            popped(yes.solution).push((-index) as isize),
        );
    }
}

/// Whether the search can be run on the clauses: no literal is 0 and every
/// literal and its negation lie below the largest machine number.
pub fn is_searchable(clauses: &Vec<Vec<isize>>) -> (searchable: bool)
    ensures
        searchable == in_range(forms(clauses@), 1),
{
    let ghost f = forms(clauses@);
    let mut i: usize = 0;
    while i < clauses.len()
        invariant
            i <= clauses.len(),
            f == forms(clauses@),
            forall|p: int, q: int|
                0 <= p < i && 0 <= q < f[p].len() ==> 1 <= magnitude(#[trigger] f[p][q])
                    < isize::MAX,
        decreases clauses.len() - i,
    {
        let mut j: usize = 0;
        while j < clauses[i].len()
            invariant
                i < clauses.len(),
                f == forms(clauses@),
                j <= clauses[i as int].len(),
                forall|q: int| 0 <= q < j ==> 1 <= magnitude(#[trigger] f[i as int][q]) < isize::MAX,
            decreases clauses[i as int].len() - j,
        {
            let l = clauses[i][j];
            if l == 0 || l == isize::MAX || l <= isize::MIN + 1 {
                assert(!(1 <= magnitude(f[i as int][j as int]) < isize::MAX));
                return false;
            }
            j += 1;
        }
        i += 1;
    }
    true
}

/// Decides whether the clauses can be satisfied: the search from the first
/// variable on, with nothing on record. Returns the outcome, the literals on
/// record, and the number of branching nodes explored.
pub fn solve(vars_num: usize, clauses: Vec<Vec<isize>>) -> (result: (bool, Vec<isize>, usize))
    requires
        in_range(forms(clauses@), 1),
    ensures
        result.0 == satisfiable(forms(clauses@)),
        result.0 == dll_outcome(1, forms(clauses@), Seq::empty()).sat,
        result.1@ == dll_outcome(1, forms(clauses@), Seq::empty()).solution,
        result.2 == bumped(0, dll_outcome(1, forms(clauses@), Seq::empty()).branches),
{
    let mut clauses = clauses;
    let mut solution: Vec<isize> = Vec::new();
    let mut branches: usize = 0;
    let sat = dll(vars_num, 1, &mut clauses, &mut solution, &mut branches);
    (sat, solution, branches)
}

} // verus!
