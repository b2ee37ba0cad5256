//! Clauses, literals, predicates and terms.

use vstd::prelude::*;
use vstd::string::StringExecFns;
use crate::unification::pattern::{
    pattern_compiles, pattern_matches, regex_compiles, regex_matches,
};

verus! {

/// The regular expression that the name of a constant matches: it begins with
/// an upper-case ASCII letter.
pub const CONSTANT_NAME: &'static str = "^[[:upper:]].*$";

/// The regular expression for constant names is one that the `regex` crate
/// accepts. The functions that tell constants from variables ask for this.
pub open spec fn rules_ready() -> bool {
    regex_compiles(CONSTANT_NAME@)
}

/// Whether the rule that tells constants from variables can be applied: asks
/// the `regex` crate whether it accepts `CONSTANT_NAME`.
pub fn rules_available() -> (ready: bool)
    ensures
        ready == rules_ready(),
{
    pattern_compiles(CONSTANT_NAME)
}

/// What `term` is, where the rule for constant names can be applied; `None`
/// where it cannot.
pub fn type_of(term: &Term) -> (kind: Option<TermType>)
    ensures
        kind == (if rules_ready() {
            Some(term@.get_type())
        } else {
            None
        }),
{
    if rules_available() {
        Some(term.get_type())
    } else {
        None
    }
}

/// What a term is.
#[derive(Debug, PartialEq, Eq, Structural, Copy, Clone)]
pub enum TermType {
    Constant,
    Variable,
    Function,
}

/// A term: a name, and for a function its arguments.
pub struct Term {
    pub name: String,
    pub terms: Vec<Term>,
}

/// The abstract value of a term.
pub struct TermView {
    pub name: Seq<char>,
    pub terms: Seq<TermView>,
}

/// The abstract values of a list of terms.
pub open spec fn views_of(terms: Seq<Term>) -> Seq<TermView>
    decreases terms,
{
    Seq::new(
        terms.len(),
        |i: int|
            if 0 <= i < terms.len() {
                terms[i].view()
            } else {
                TermView { name: Seq::empty(), terms: Seq::empty() }
            },
    )
}

impl View for Term {
    type V = TermView;

    open spec fn view(&self) -> TermView
        decreases self,
    {
        TermView { name: self.name@, terms: views_of(self.terms@) }
    }
}

impl TermView {
    /// A term with arguments is a function; one without is a constant if its
    /// name matches `CONSTANT_NAME`, else a variable.
    pub open spec fn get_type(self) -> TermType {
        if self.terms.len() > 0 {
            TermType::Function
        } else if regex_matches(CONSTANT_NAME@, self.name) {
            TermType::Constant
        } else {
            TermType::Variable
        }
    }

    /// Two terms are alike if they have one name and as many arguments.
    pub open spec fn alike(self, other: TermView) -> bool {
        self.name == other.name && self.terms.len() == other.terms.len()
    }

    /// Whether `t` occurs below this term: some argument that is no function is
    /// alike to `t`, or `t` occurs below an argument that is a function.
    pub open spec fn contains(self, t: TermView) -> bool
        decreases self,
    {
        exists|i: int|
            0 <= i < self.terms.len() && {
                let arg = #[trigger] self.terms[i];
                if arg.get_type() is Function {
                    arg.contains(t)
                } else {
                    arg.alike(t)
                }
            }
    }
}

impl TermView {
    /// The term with the variable `var` replaced by the name of `constant`: a
    /// function has it replaced in each argument; a variable alike to `var`
    /// takes the name of `constant`; everything else stays.
    pub open spec fn set_var(self, constant: TermView, var: TermView) -> TermView
        decreases self,
    {
        match self.get_type() {
            TermType::Function => TermView {
                name: self.name,
                terms: Seq::new(
                    self.terms.len(),
                    |i: int|
                        if 0 <= i < self.terms.len() {
                            self.terms[i].set_var(constant, var)
                        } else {
                            self
                        },
                ),
            },
            TermType::Variable => if self.alike(var) {
                TermView { name: constant.name, terms: self.terms }
            } else {
                self
            },
            TermType::Constant => self,
        }
    }
}

impl Term {
    /// A term without arguments.
    pub fn new(n: String) -> (term: Term)
        ensures
            term@ == (TermView { name: n@, terms: Seq::empty() }),
    {
        let term = Term { name: n, terms: Vec::new() };
        assert(views_of(term.terms@) =~= Seq::empty());
        term
    }

    /// What this term is: function, constant or variable.
    pub fn get_type(&self) -> (kind: TermType)
        requires
            rules_ready(),
        ensures
            kind == self@.get_type(),
    {
        if self.terms.len() > 0 {
            return TermType::Function;
        }
        match pattern_matches(CONSTANT_NAME, self.name.as_str()) {
            true => TermType::Constant,
            false => TermType::Variable,
        }
    }
}

impl PartialEq for Term {
    /// Two terms are equal if they have one name and as many arguments; the
    /// arguments themselves are not compared.
    fn eq(&self, other: &Term) -> (alike: bool) {
        self.name == other.name && self.terms.len() == other.terms.len()
    }
}

impl vstd::std_specs::cmp::PartialEqSpecImpl for Term {
    open spec fn obeys_eq_spec() -> bool {
        true
    }

    open spec fn eq_spec(&self, other: &Term) -> bool {
        self@.alike(other@)
    }
}

impl Term {
    /// Whether `t` occurs below this term.
    pub fn contains(&self, t: &Term) -> (found: bool)
        requires
            rules_ready(),
        ensures
            found == self@.contains(t@),
        decreases self,
    {
        let mut i: usize = 0;
        while i < self.terms.len()
            invariant
                rules_ready(),
                i <= self.terms.len(),
                forall|j: int|
                    0 <= j < i ==> {
                        let arg = #[trigger] self@.terms[j];
                        !(if arg.get_type() is Function {
                            arg.contains(t@)
                        } else {
                            arg.alike(t@)
                        })
                    },
            decreases self.terms.len() - i,
        {
            let term = &self.terms[i];
            assert(self@.terms[i as int] == term@);
            match term.get_type() {
                TermType::Function => if term.contains(t) {
                    return true;
                },
                _ => if term == t {
                    return true;
                },
            }
            i += 1;
        }
        false
    }
}

impl Term {
    /// Replaces the variable `var` by the name of `constant`, here and in every
    /// argument below.
    pub fn set_var(&mut self, constant: &Term, var: &Term)
        requires
            rules_ready(),
        ensures
            final(self)@ == old(self)@.set_var(constant@, var@),
        decreases *old(self),
    {
        match self.get_type() {
            TermType::Function => {
                let mut i: usize = 0;
                while i < self.terms.len()
                    invariant
                        rules_ready(),
                        i <= self.terms.len(),
                        self.name == old(self).name,
                        self.terms.len() == old(self).terms.len(),
                        forall|j: int|
                            0 <= j < i ==> (#[trigger] self.terms[j])@ == old(self).terms[j]@.set_var(
                                constant@,
                                var@,
                            ),
                        forall|j: int|
                            i <= j < self.terms.len() ==> #[trigger] self.terms[j] == old(
                                self,
                            ).terms[j],
                    decreases self.terms.len() - i,
                {
                    self.terms[i].set_var(constant, var);
                    i += 1;
                }
                assert(self@.terms =~= old(self)@.set_var(constant@, var@).terms);
            },
            TermType::Variable => if *self == *var {
                self.name = constant.name.clone();
            },
            TermType::Constant => {},
        }
    }
}

impl Clone for Term {
    /// A copy of the term with all its arguments.
    fn clone(&self) -> (copy: Term)
        ensures
            copy@ == self@,
        decreases self,
    {
        let mut terms: Vec<Term> = Vec::with_capacity(self.terms.len());
        let mut i: usize = 0;
        while i < self.terms.len()
            invariant
                i <= self.terms.len(),
                terms.len() == i,
                forall|j: int| 0 <= j < i ==> (#[trigger] terms[j])@ == self.terms[j]@,
            decreases self.terms.len() - i,
        {
            terms.push(self.terms[i].clone());
            i += 1;
        }
        assert(views_of(terms@) =~= views_of(self.terms@));
        Term { name: self.name.clone(), terms }
    }
}

/// A predicate: a name applied to terms.
pub struct Predicate {
    pub name: String,
    pub terms: Vec<Term>,
}

/// The abstract value of a predicate.
pub struct PredicateView {
    pub name: Seq<char>,
    pub terms: Seq<TermView>,
}

impl View for Predicate {
    type V = PredicateView;

    open spec fn view(&self) -> PredicateView {
        PredicateView { name: self.name@, terms: views_of(self.terms@) }
    }
}

impl PredicateView {
    /// Two predicates are alike if they have one name and as many terms.
    pub open spec fn alike(self, other: PredicateView) -> bool {
        self.name == other.name && self.terms.len() == other.terms.len()
    }

    /// The predicate with the variable `var` replaced by the name of
    /// `constant` in each of its terms.
    pub open spec fn set_var(self, constant: TermView, var: TermView) -> PredicateView {
        PredicateView {
            name: self.name,
            terms: Seq::new(self.terms.len(), |i: int| self.terms[i].set_var(constant, var)),
        }
    }
}

impl PartialEq for Predicate {
    /// Two predicates are equal if they have one name and as many terms; the
    /// terms themselves are not compared.
    fn eq(&self, other: &Predicate) -> (alike: bool) {
        self.name == other.name && self.terms.len() == other.terms.len()
    }
}

impl vstd::std_specs::cmp::PartialEqSpecImpl for Predicate {
    open spec fn obeys_eq_spec() -> bool {
        true
    }

    open spec fn eq_spec(&self, other: &Predicate) -> bool {
        self@.alike(other@)
    }
}

impl Clone for Predicate {
    /// A copy of the predicate with all its terms.
    fn clone(&self) -> (copy: Predicate)
        ensures
            copy@ == self@,
    {
        let mut terms: Vec<Term> = Vec::with_capacity(self.terms.len());
        let mut i: usize = 0;
        while i < self.terms.len()
            invariant
                i <= self.terms.len(),
                terms.len() == i,
                forall|j: int| 0 <= j < i ==> (#[trigger] terms[j])@ == self.terms[j]@,
            decreases self.terms.len() - i,
        {
            terms.push(self.terms[i].clone());
            i += 1;
        }
        assert(views_of(terms@) =~= views_of(self.terms@));
        Predicate { name: self.name.clone(), terms }
    }
}

impl Predicate {
    /// A predicate without terms.
    pub fn new(n: String) -> (predicate: Predicate)
        ensures
            predicate@ == (PredicateView { name: n@, terms: Seq::empty() }),
    {
        let predicate = Predicate { name: n, terms: Vec::new() };
        assert(views_of(predicate.terms@) =~= Seq::empty());
        predicate
    }

    /// Replaces the variable `var` by the name of `constant` in every term.
    pub fn set_var(&mut self, constant: &Term, var: &Term)
        requires
            rules_ready(),
        ensures
            final(self)@ == old(self)@.set_var(constant@, var@),
    {
        let mut i: usize = 0;
        while i < self.terms.len()
            invariant
                rules_ready(),
                i <= self.terms.len(),
                self.name == old(self).name,
                self.terms.len() == old(self).terms.len(),
                forall|j: int|
                    0 <= j < i ==> (#[trigger] self.terms[j])@ == old(self).terms[j]@.set_var(
                        constant@,
                        var@,
                    ),
                forall|j: int|
                    i <= j < self.terms.len() ==> #[trigger] self.terms[j] == old(self).terms[j],
            decreases self.terms.len() - i,
        {
            self.terms[i].set_var(constant, var);
            i += 1;
        }
        assert(self@.terms =~= old(self)@.set_var(constant@, var@).terms);
    }
}

/// A literal: a predicate, negated or not.
pub struct Literal {
    pub predicate: Predicate,
    pub neg: bool,
}

/// The abstract value of a literal.
pub struct LiteralView {
    pub predicate: PredicateView,
    pub neg: bool,
}

impl View for Literal {
    type V = LiteralView;

    open spec fn view(&self) -> LiteralView {
        LiteralView { predicate: self.predicate@, neg: self.neg }
    }
}

impl Literal {
    /// The literal of predicate `p`, negated where `neg` holds.
    pub fn new(p: Predicate, neg: bool) -> (literal: Literal)
        ensures
            literal@ == (LiteralView { predicate: p@, neg }),
    {
        Literal { predicate: p, neg: neg }
    }
}

impl Clone for Literal {
    /// A copy of the literal.
    fn clone(&self) -> (copy: Literal)
        ensures
            copy@ == self@,
    {
        Literal { predicate: self.predicate.clone(), neg: self.neg }
    }
}

/// A clause: a disjunction of literals.
pub struct Clause {
    pub literals: Vec<Literal>,
}

/// The abstract value of a clause: its literals in order.
pub open spec fn literal_views(literals: Seq<Literal>) -> Seq<LiteralView> {
    Seq::new(literals.len(), |i: int| literals[i]@)
}

impl View for Clause {
    type V = Seq<LiteralView>;

    open spec fn view(&self) -> Seq<LiteralView> {
        literal_views(self.literals@)
    }
}

impl Clause {
    /// The empty clause.
    pub fn new() -> (clause: Clause)
        ensures
            clause@ == Seq::<LiteralView>::empty(),
    {
        let clause = Clause { literals: Vec::new() };
        assert(clause@ =~= Seq::<LiteralView>::empty());
        clause
    }
}

impl Clone for Clause {
    /// A copy of the clause with all its literals.
    fn clone(&self) -> (copy: Clause)
        ensures
            copy@ == self@,
    {
        let mut literals: Vec<Literal> = Vec::with_capacity(self.literals.len());
        let mut i: usize = 0;
        while i < self.literals.len()
            invariant
                i <= self.literals.len(),
                literals.len() == i,
                forall|j: int| 0 <= j < i ==> (#[trigger] literals[j])@ == self.literals[j]@,
            decreases self.literals.len() - i,
        {
            literals.push(self.literals[i].clone());
            i += 1;
        }
        let copy = Clause { literals };
        assert(copy@ =~= self@);
        copy
    }
}

/// The text of a term: its name, and where it has arguments their texts in
/// round brackets, parted by `, `.
pub open spec fn term_text(t: TermView) -> Seq<char>
    decreases t, 0nat,
{
    if t.terms.len() > 0 {
        t.name + "("@ + joined(t.terms, t.terms.len()) + ")"@
    } else {
        t.name
    }
}

/// The texts of the first `upto` terms, parted by `, `.
pub open spec fn joined(terms: Seq<TermView>, upto: nat) -> Seq<char>
    decreases terms, upto,
{
    if upto == 0 || upto > terms.len() {
        Seq::empty()
    } else if upto == 1 {
        term_text(terms[0])
    } else {
        joined(terms, (upto - 1) as nat) + ", "@ + term_text(terms[upto - 1])
    }
}

/// The text of a predicate: its name and the texts of its terms in round
/// brackets, parted by `, `.
pub open spec fn predicate_text(p: PredicateView) -> Seq<char> {
    p.name + "("@ + joined(p.terms, p.terms.len()) + ")"@
}

/// The text of a literal: that of its predicate, after a `-` where it is
/// negated.
pub open spec fn literal_text(l: LiteralView) -> Seq<char> {
    if l.neg {
        "-"@ + predicate_text(l.predicate)
    } else {
        predicate_text(l.predicate)
    }
}

/// The text of the first `upto` literals of a clause, parted by ` | `.
pub open spec fn clause_text(c: Seq<LiteralView>, upto: nat) -> Seq<char>
    decreases upto,
{
    if upto == 0 || upto > c.len() {
        Seq::empty()
    } else if upto == 1 {
        literal_text(c[0])
    } else {
        clause_text(c, (upto - 1) as nat) + " | "@ + literal_text(c[upto - 1])
    }
}

/// Writes the texts of the terms, parted by `, `, at the end of `out`.
fn write_terms(terms: &Vec<Term>, out: &mut String)
    ensures
        final(out)@ == old(out)@ + joined(views_of(terms@), terms.len() as nat),
    decreases terms, 1nat,
{
    let ghost all = views_of(terms@);
    let mut i: usize = 0;
    assert(out@ =~= old(out)@ + joined(all, 0));
    while i < terms.len()
        invariant
            i <= terms.len(),
            all == views_of(terms@),
            out@ == old(out)@ + joined(all, i as nat),
        decreases terms.len() - i,
    {
        let ghost before = out@;
        if i > 0 {
            out.append(", ");
        }
        assert(all[i as int] == terms[i as int]@);
        terms[i].write(out);
        proof {
            if i == 0 {
                assert(out@ =~= old(out)@ + joined(all, 1));
            } else {
                assert(out@ =~= old(out)@ + joined(all, i as nat + 1));
            }
        }
        i += 1;
    }
}

impl Term {
    /// Writes the term at the end of `out`.
    pub fn write(&self, out: &mut String)
        ensures
            final(out)@ == old(out)@ + term_text(self@),
        decreases self, 0nat,
    {
        out.append(self.name.as_str());
        if self.terms.len() > 0 {
            out.append("(");
            write_terms(&self.terms, out);
            out.append(")");
            assert(out@ =~= old(out)@ + term_text(self@));
        }
    }

    /// The term as text.
    pub fn to_text(&self) -> (text: String)
        ensures
            text@ == term_text(self@),
    {
        let mut text = String::new();
        self.write(&mut text);
        assert(text@ =~= term_text(self@));
        text
    }
}

impl Predicate {
    /// Writes the predicate at the end of `out`.
    pub fn write(&self, out: &mut String)
        ensures
            final(out)@ == old(out)@ + predicate_text(self@),
    {
        out.append(self.name.as_str());
        out.append("(");
        write_terms(&self.terms, out);
        out.append(")");
        assert(out@ =~= old(out)@ + predicate_text(self@));
    }

    /// The predicate as text.
    pub fn to_text(&self) -> (text: String)
        ensures
            text@ == predicate_text(self@),
    {
        let mut text = String::new();
        self.write(&mut text);
        assert(text@ =~= predicate_text(self@));
        text
    }
}

impl Literal {
    /// Writes the literal at the end of `out`.
    pub fn write(&self, out: &mut String)
        ensures
            final(out)@ == old(out)@ + literal_text(self@),
    {
        if self.neg {
            out.append("-");
        }
        self.predicate.write(out);
        assert(out@ =~= old(out)@ + literal_text(self@));
    }

    /// The literal as text.
    pub fn to_text(&self) -> (text: String)
        ensures
            text@ == literal_text(self@),
    {
        let mut text = String::new();
        self.write(&mut text);
        assert(text@ =~= literal_text(self@));
        text
    }
}

impl Clause {
    /// The clause as text: its literals, parted by ` | `.
    pub fn to_text(&self) -> (text: String)
        ensures
            text@ == clause_text(self@, self@.len()),
    {
        let mut text = String::new();
        let mut i: usize = 0;
        assert(text@ =~= clause_text(self@, 0));
        while i < self.literals.len()
            invariant
                i <= self.literals.len(),
                self@.len() == self.literals.len(),
                text@ == clause_text(self@, i as nat),
            decreases self.literals.len() - i,
        {
            if i > 0 {
                text.append(" | ");
            }
            assert(self@[i as int] == self.literals[i as int]@);
            self.literals[i].write(&mut text);
            proof {
                if i == 0 {
                    assert(text@ =~= clause_text(self@, 1));
                } else {
                    assert(text@ =~= clause_text(self@, i as nat + 1));
                }
            }
            i += 1;
        }
        text
    }
}

} // verus!
