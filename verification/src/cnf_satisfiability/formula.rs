//! Formulas in conjunctive normal form: a list of clauses, each a list of
//! literals; a literal is a variable number, negative where it is negated.

use vstd::prelude::*;

verus! {

/// The abstract value of a list of clauses.
pub open spec fn forms(clauses: Seq<Vec<isize>>) -> Seq<Seq<isize>> {
    Seq::new(clauses.len(), |i: int| clauses[i]@)
}

/// The clause without the literal `lit`.
pub open spec fn without(clause: Seq<isize>, lit: int) -> Seq<isize>
    decreases clause.len(),
{
    if clause.len() == 0 {
        Seq::empty()
    } else if clause.last() == lit {
        without(clause.drop_last(), lit)
    } else {
        without(clause.drop_last(), lit).push(clause.last())
    }
}

/// The formula once the literal `val` is taken to be true: the clauses that
/// hold `val` are gone, and the others have lost its negation.
pub open spec fn reduced(f: Seq<Seq<isize>>, val: int) -> Seq<Seq<isize>>
    decreases f.len(),
{
    if f.len() == 0 {
        Seq::empty()
    } else if f.last().contains(val as isize) {
        reduced(f.drop_last(), val)
    } else {
        reduced(f.drop_last(), val).push(without(f.last(), -val))
    }
}

/// Clause `i` is the first that holds exactly one literal.
pub open spec fn is_first_unit(f: Seq<Seq<isize>>, i: int) -> bool {
    &&& 0 <= i < f.len()
    &&& f[i].len() == 1
    &&& forall|p: int| 0 <= p < i ==> (#[trigger] f[p]).len() != 1
}

/// The literal of the first clause that holds exactly one; 0 where there is
/// no such clause.
pub open spec fn unit_of(f: Seq<Seq<isize>>) -> isize {
    if exists|i: int| is_first_unit(f, i) {
        f[choose|i: int| is_first_unit(f, i)][0]
    } else {
        0
    }
}

/// What `without` keeps: the literals other than `lit`.
pub proof fn lemma_without(clause: Seq<isize>, lit: int, x: isize)
    ensures
        without(clause, lit).len() <= clause.len(),
        without(clause, lit).contains(x) <==> clause.contains(x) && x != lit,
    decreases clause.len(),
{
    if clause.len() > 0 {
        let rest = clause.drop_last();
        lemma_without(rest, lit, x);
        let kept = without(clause, lit);
        let kept_rest = without(rest, lit);
        if kept.contains(x) {
            let p = choose|p: int| 0 <= p < kept.len() && kept[p] == x;
            if clause.last() != lit && p == kept.len() - 1 {
                assert(clause[clause.len() - 1] == x);
            } else {
                assert(kept_rest[p] == x);
                assert(kept_rest.contains(x));
                assert(rest.contains(x));
                let q = choose|q: int| 0 <= q < rest.len() && rest[q] == x;
                assert(clause[q] == x);
            }
        }
        if clause.contains(x) && x != lit {
            let q = choose|q: int| 0 <= q < clause.len() && clause[q] == x;
            if q == clause.len() - 1 {
                assert(kept[kept.len() - 1] == x);
            } else {
                assert(rest[q] == x);
                assert(rest.contains(x));
                assert(kept_rest.contains(x));
                let p = choose|p: int| 0 <= p < kept_rest.len() && kept_rest[p] == x;
                assert(kept[p] == x);
            }
        }
    }
}

/// What `reduced` keeps: each of its clauses comes from a clause without
/// `val`, and each clause without `val` has left its rest.
pub proof fn lemma_reduced(f: Seq<Seq<isize>>, val: int)
    ensures
        reduced(f, val).len() <= f.len(),
        forall|i: int|
            0 <= i < reduced(f, val).len() ==> exists|j: int|
                0 <= j < f.len() && !(#[trigger] f[j]).contains(val as isize) && (
                #[trigger] reduced(f, val)[i]) == without(f[j], -val),
        forall|j: int|
            0 <= j < f.len() && !(#[trigger] f[j]).contains(val as isize) ==> reduced(
                f,
                val,
            ).contains(without(f[j], -val)),
        (exists|j: int| 0 <= j < f.len() && (#[trigger] f[j]).contains(val as isize)) ==> reduced(
            f,
            val,
        ).len() < f.len(),
    decreases f.len(),
{
    if f.len() > 0 {
        let rest = f.drop_last();
        lemma_reduced(rest, val);
        let r = reduced(f, val);
        let rr = reduced(rest, val);
        assert forall|i: int| 0 <= i < r.len() implies exists|j: int|
            0 <= j < f.len() && !(#[trigger] f[j]).contains(val as isize) && (#[trigger] r[i])
                == without(f[j], -val) by {
            if !f.last().contains(val as isize) && i == r.len() - 1 {
                assert(r[i] == without(f[f.len() - 1], -val));
            } else {
                assert(r[i] == rr[i]);
                let j = choose|j: int|
                    0 <= j < rest.len() && !(#[trigger] rest[j]).contains(val as isize) && rr[i]
                        == without(rest[j], -val);
                assert(f[j] == rest[j]);
            }
        }
        assert forall|j: int|
            0 <= j < f.len() && !(#[trigger] f[j]).contains(val as isize) implies r.contains(
            without(f[j], -val),
        ) by {
            if j == f.len() - 1 {
                assert(r[r.len() - 1] == without(f[j], -val));
            } else {
                assert(rest[j] == f[j]);
                assert(rr.contains(without(rest[j], -val)));
                let p = choose|p: int| 0 <= p < rr.len() && rr[p] == without(rest[j], -val);
                assert(r[p] == without(f[j], -val));
            }
        }
        if exists|j: int| 0 <= j < f.len() && (#[trigger] f[j]).contains(val as isize) {
            let j = choose|j: int| 0 <= j < f.len() && (#[trigger] f[j]).contains(val as isize);
            if j < f.len() - 1 {
                assert(rest[j] == f[j]);
            }
        }
    }
}

/// Only one clause can be the first with one literal.
pub proof fn lemma_first_unit(f: Seq<Seq<isize>>, i: int)
    requires
        is_first_unit(f, i),
    ensures
        unit_of(f) == f[i][0],
        (choose|k: int| is_first_unit(f, k)) == i,
{
    let k = choose|k: int| is_first_unit(f, k);
    assert(is_first_unit(f, k));
    if k < i {
        assert(f[k].len() != 1);
    }
    if i < k {
        assert(f[i].len() != 1);
    }
}

/// Takes the literal `val` to be true: every clause that holds `val` is
/// dropped, and `-val` is struck from the others.
pub fn set_variable(clauses: &mut Vec<Vec<isize>>, val: isize)
    requires
        val > isize::MIN,
    ensures
        forms(final(clauses)@) == reduced(forms(old(clauses)@), val as int),
{
    let ghost before = forms(clauses@);
    let mut kept: Vec<Vec<isize>> = Vec::new();
    let mut i: usize = 0;
    assert(before.take(0) =~= Seq::<Seq<isize>>::empty());
    assert(forms(kept@) =~= reduced(before.take(0), val as int));
    while i < clauses.len()
        invariant
            i <= clauses.len(),
            before == forms(clauses@),
            val > isize::MIN,
            forms(kept@) == reduced(before.take(i as int), val as int),
        decreases clauses.len() - i,
    {
        proof {
            assert(before.take(i as int + 1).drop_last() =~= before.take(i as int));
            assert(before.take(i as int + 1).last() == clauses[i as int]@);
        }
        let clause = &clauses[i];
        if !holds(clause, val) {
            let rest = strike(clause, -val);
            let ghost prev = forms(kept@);
            kept.push(rest);
            assert(forms(kept@) =~= prev.push(without(clause@, -val)));
        }
        i += 1;
    }
    assert(before.take(i as int) =~= before);
    *clauses = kept;
}

/// Whether the clause holds the literal `val`.
pub fn holds(clause: &Vec<isize>, val: isize) -> (found: bool)
    ensures
        found == clause@.contains(val),
{
    let mut j: usize = 0;
    while j < clause.len()
        invariant
            j <= clause.len(),
            forall|p: int| 0 <= p < j ==> clause[p] != val,
        decreases clause.len() - j,
    {
        if clause[j] == val {
            return true;
        }
        j += 1;
    }
    false
}

/// The clause without the literal `lit`.
pub fn strike(clause: &Vec<isize>, lit: isize) -> (rest: Vec<isize>)
    ensures
        rest@ == without(clause@, lit as int),
{
    let mut rest: Vec<isize> = Vec::new();
    let mut j: usize = 0;
    assert(clause@.take(0) =~= Seq::<isize>::empty());
    while j < clause.len()
        invariant
            j <= clause.len(),
            rest@ == without(clause@.take(j as int), lit as int),
        decreases clause.len() - j,
    {
        proof {
            assert(clause@.take(j as int + 1).drop_last() =~= clause@.take(j as int));
            assert(clause@.take(j as int + 1).last() == clause[j as int]);
        }
        if clause[j] != lit {
            rest.push(clause[j]);
        }
        j += 1;
    }
    assert(clause@.take(j as int) =~= clause@);
    rest
}

/// The literal of the first clause that holds exactly one literal; 0 where
/// there is no such clause.
pub fn unit_val(clauses: &Vec<Vec<isize>>) -> (unit: isize)
    ensures
        unit == unit_of(forms(clauses@)),
{
    let ghost f = forms(clauses@);
    let mut i: usize = 0;
    while i < clauses.len()
        invariant
            i <= clauses.len(),
            f == forms(clauses@),
            forall|p: int| 0 <= p < i ==> (#[trigger] f[p]).len() != 1,
        decreases clauses.len() - i,
    {
        if clauses[i].len() == 1 {
            proof {
                assert(f[i as int].len() == 1);
                lemma_first_unit(f, i as int);
            }
            return clauses[i][0];
        }
        i += 1;
    }
    proof {
        if exists|k: int| is_first_unit(f, k) {
            let k = choose|k: int| is_first_unit(f, k);
            assert(f[k].len() != 1);
        }
    }
    0
}

} // verus!
