//! Reading clauses: `P(x, f(y)) | -Q(A)` and the like.
//!
//! A clause is a list of literals. A literal is a predicate, with a `-` in
//! front where it is negated. A predicate is a name and a list of terms in
//! round brackets. A term is a name, or a name and a list of terms in round
//! brackets. The terms of a list are parted by the commas outside brackets.

use vstd::prelude::*;
use crate::text::{chars_of, is_space, is_whitespace, slice, string_of, texts};
use crate::unification::cnf::{
    views_of, Clause, Literal, LiteralView, Predicate, PredicateView, Term, TermView,
};
use crate::unification::pattern::{
    pattern_captures, pattern_compiles, regex_captures, regex_compiles,
};

verus! {

/// `a` white-space characters lead the text, and no more.
pub open spec fn is_lead(s: Seq<char>, a: int) -> bool {
    &&& 0 <= a <= s.len()
    &&& forall|i: int| 0 <= i < a ==> is_space(#[trigger] s[i])
    &&& a == s.len() || !is_space(s[a])
}

/// From place `b` on the text, which begins at `a`, is white space, and no
/// earlier.
pub open spec fn is_trail(s: Seq<char>, a: int, b: int) -> bool {
    &&& a <= b <= s.len()
    &&& forall|i: int| b <= i < s.len() ==> is_space(#[trigger] s[i])
    &&& b == a || !is_space(s[b - 1])
}

/// The number of white-space characters that lead the text.
pub open spec fn lead(s: Seq<char>) -> int {
    choose|a: int| is_lead(s, a)
}

/// The place from which on the text is white space.
pub open spec fn trail(s: Seq<char>) -> int {
    choose|b: int| is_trail(s, lead(s), b)
}

/// The text without the white space at its beginning and at its end.
pub open spec fn trimmed(s: Seq<char>) -> Seq<char> {
    s.subrange(lead(s), trail(s))
}

/// The character `c` stands at place `i` and nowhere before.
pub open spec fn is_first(s: Seq<char>, c: char, i: int) -> bool {
    &&& 0 <= i < s.len()
    &&& s[i] == c
    &&& forall|j: int| 0 <= j < i ==> #[trigger] s[j] != c
}

/// The first place of the character `c` in the text.
pub open spec fn position(s: Seq<char>, c: char) -> Option<int> {
    if exists|i: int| is_first(s, c, i) {
        Some(choose|i: int| is_first(s, c, i))
    } else {
        None
    }
}

/// How often the character `c` stands in the text.
pub open spec fn count_of(s: Seq<char>, c: char) -> nat
    decreases s.len(),
{
    if s.len() == 0 {
        0
    } else {
        count_of(s.drop_last(), c) + if s.last() == c {
            1nat
        } else {
            0nat
        }
    }
}

/// The text holds as many `(` as `)`.
pub open spec fn balanced(s: Seq<char>) -> bool {
    count_of(s, '(') == count_of(s, ')')
}

/// The trimmed text is a part of the text.
pub proof fn lemma_trimmed(s: Seq<char>)
    ensures
        trimmed(s).len() <= s.len(),
        is_lead(s, lead(s)),
        is_trail(s, lead(s), trail(s)),
{
    lemma_lead_exists(s, 0);
    lemma_trail_exists(s, lead(s), s.len() as int);
}

/// Some number of white-space characters leads the text.
proof fn lemma_lead_exists(s: Seq<char>, k: int)
    requires
        0 <= k <= s.len(),
        forall|i: int| 0 <= i < k ==> is_space(#[trigger] s[i]),
    ensures
        exists|a: int| is_lead(s, a),
    decreases s.len() - k,
{
    if k == s.len() || !is_space(s[k]) {
        assert(is_lead(s, k));
    } else {
        lemma_lead_exists(s, k + 1);
    }
}

/// The white space at the end begins somewhere.
proof fn lemma_trail_exists(s: Seq<char>, a: int, k: int)
    requires
        0 <= a <= k <= s.len(),
        forall|i: int| k <= i < s.len() ==> is_space(#[trigger] s[i]),
    ensures
        exists|b: int| is_trail(s, a, b),
    decreases k - a,
{
    if k == a || !is_space(s[k - 1]) {
        assert(is_trail(s, a, k));
    } else {
        lemma_trail_exists(s, a, k - 1);
    }
}

/// The text without the white space at its beginning and at its end.
pub fn trim(line: &Vec<char>) -> (rest: Vec<char>)
    ensures
        rest@ == trimmed(line@),
{
    let n = line.len();
    let mut a: usize = 0;
    while a < n && is_whitespace(line[a])
        invariant
            a <= n,
            n == line.len(),
            forall|i: int| 0 <= i < a ==> is_space(#[trigger] line@[i]),
        decreases n - a,
    {
        a += 1;
    }
    let mut b: usize = n;
    while b > a && is_whitespace(line[b - 1])
        invariant
            a <= b <= n,
            n == line.len(),
            forall|i: int| b <= i < n ==> is_space(#[trigger] line@[i]),
        decreases b,
    {
        b -= 1;
    }
    proof {
        let s = line@;
        assert(is_lead(s, a as int));
        let a0 = lead(s);
        assert(a0 == a) by {
            if a0 < a {
                assert(is_space(s[a0]));
            }
            if a < a0 {
                assert(is_space(s[a as int]));
            }
        }
        assert(is_trail(s, a as int, b as int));
        let b0 = trail(s);
        assert(b0 == b) by {
            if b0 < b {
                assert(is_space(s[b as int - 1]));
            }
            if b < b0 {
                assert(is_space(s[b0 - 1]));
            }
        }
    }
    slice(line, a, b)
}

/// The first place of the character `c`.
pub fn find_char(line: &Vec<char>, c: char) -> (place: Option<usize>)
    ensures
        match place {
            Some(i) => position(line@, c) == Some(i as int) && i < line.len(),
            None => position(line@, c) is None,
        },
{
    let mut i: usize = 0;
    while i < line.len()
        invariant
            i <= line.len(),
            forall|j: int| 0 <= j < i ==> #[trigger] line@[j] != c,
        decreases line.len() - i,
    {
        if line[i] == c {
            proof {
                assert(is_first(line@, c, i as int));
                let k = choose|k: int| is_first(line@, c, k);
                if k < i {
                    assert(line@[k] != c);
                }
                if i < k {
                    assert(line@[i as int] != c);
                }
            }
            return Some(i);
        }
        i += 1;
    }
    proof {
        if exists|k: int| is_first(line@, c, k) {
            let k = choose|k: int| is_first(line@, c, k);
            assert(line@[k] != c);
        }
    }
    None
}

/// Checks if a text has balanced brackets by counting `(` and `)`.
pub fn balanced_chars(line: &Vec<char>) -> (even: bool)
    ensures
        even == balanced(line@),
{
    let mut opened: usize = 0;
    let mut closed: usize = 0;
    let mut i: usize = 0;
    assert(line@.take(0) =~= Seq::<char>::empty());
    while i < line.len()
        invariant
            i <= line.len(),
            opened == count_of(line@.take(i as int), '('),
            closed == count_of(line@.take(i as int), ')'),
            opened <= i,
            closed <= i,
        decreases line.len() - i,
    {
        proof {
            assert(line@.take(i as int + 1).drop_last() =~= line@.take(i as int));
            assert(line@.take(i as int + 1).last() == line@[i as int]);
        }
        let c = line[i];
        if c == '(' {
            opened += 1;
        } else if c == ')' {
            closed += 1;
        }
        i += 1;
    }
    assert(line@.take(i as int) =~= line@);
    opened == closed
}

/// Checks if a line has balanced brackets by counting `(` and `)`.
pub fn balanced_paren(line: &str) -> (even: bool)
    ensures
        even == balanced(line@),
{
    let chars = chars_of(line);
    balanced_chars(&chars)
}

/// The term that a text spells. The text is trimmed. Without a `(` it is the
/// name of a term without arguments. With one, the name ends there, and the
/// arguments are spelled by what stands between that `(` and the last
/// character of the text; where nothing stands between them there is no term.
pub open spec fn term_of(s: Seq<char>) -> Option<TermView>
    decreases s.len(), 0nat, 0nat,
{
    let t = trimmed(s);
    match position(t, '(') {
        Some(i) => if 0 <= i && i + 1 <= t.len() - 1 {
            let inner = t.subrange(i + 1, t.len() - 1);
            match {
                proof {
                    lemma_trimmed(s);
                }
                terms_scan(inner, 0, 0)
            } {
                Some(terms) => Some(TermView { name: t.subrange(0, i), terms }),
                None => None,
            }
        } else {
            None
        },
        None => Some(TermView { name: t, terms: Seq::empty() }),
    }
}

/// The terms that a list spells from place `prev` on, the places before `i`
/// already looked at: a comma outside brackets ends a term, and the end of
/// the text ends the last one.
pub open spec fn terms_scan(s: Seq<char>, prev: int, i: int) -> Option<Seq<TermView>>
    decreases s.len(), 1nat, s.len() - i,
{
    if !(0 <= prev <= i <= s.len()) {
        None
    } else if i == s.len() {
        match term_of(s.subrange(prev, s.len() as int)) {
            Some(t) => Some(seq![t]),
            None => None,
        }
    } else if s[i] == ',' && balanced(s.subrange(prev, i)) {
        match (term_of(s.subrange(prev, i)), terms_scan(s, i + 1, i + 1)) {
            (Some(t), Some(rest)) => Some(seq![t] + rest),
            _ => None,
        }
    } else {
        terms_scan(s, prev, i + 1)
    }
}

/// The terms that a list spells.
pub open spec fn terms_of(s: Seq<char>) -> Option<Seq<TermView>> {
    terms_scan(s, 0, 0)
}

/// Reads a term from its characters.
pub fn parse_term_chars(line: &Vec<char>) -> (term: Option<Term>)
    ensures
        match term {
            Some(t) => term_of(line@) == Some(t@),
            None => term_of(line@) is None,
        },
    decreases line@.len(), 0nat,
{
    proof {
        lemma_trimmed(line@);
    }
    let trim = trim(line);
    match find_char(&trim, '(') {
        Some(i) => {
            if i + 1 > trim.len() - 1 {
                return None;
            }
            let inner = slice(&trim, i + 1, trim.len() - 1);
            match parse_termlist_chars(&inner) {
                Some(terms) => {
                    let name = slice(&trim, 0, i);
                    Some(Term { name: string_of(&name), terms })
                },
                None => None,
            }
        },
        None => {
            let term = Term { name: string_of(&trim), terms: Vec::new() };
            assert(views_of(term.terms@) =~= Seq::<TermView>::empty());
            Some(term)
        },
    }
}

/// Reads a list of terms from its characters.
pub fn parse_termlist_chars(line: &Vec<char>) -> (terms: Option<Vec<Term>>)
    ensures
        match terms {
            Some(list) => terms_of(line@) == Some(views_of(list@)),
            None => terms_of(line@) is None,
        },
    decreases line@.len(), 1nat,
{
    let ghost s = line@;
    let mut terms: Vec<Term> = Vec::new();
    let mut prev: usize = 0;
    let mut i: usize = 0;
    assert(Seq::<TermView>::empty() + views_of(terms@) =~= views_of(terms@));
    while i < line.len()
        invariant
            s == line@,
            prev <= i <= line.len(),
            terms_scan(s, 0, 0) == (match terms_scan(s, prev as int, i as int) {
                Some(rest) => Some(views_of(terms@) + rest),
                None => None,
            }),
        decreases line.len() - i,
    {
        if line[i] == ',' {
            let substr = slice(line, prev, i);
            if balanced_chars(&substr) {
                match parse_term_chars(&substr) {
                    Some(t) => {
                        let ghost before = views_of(terms@);
                        let ghost tv = t@;
                        terms.push(t);
                        proof {
                            assert(views_of(terms@) =~= before.push(tv));
                            match terms_scan(s, i as int + 1, i as int + 1) {
                                Some(rest) => {
                                    assert(before + (seq![tv] + rest) =~= views_of(terms@) + rest);
                                },
                                None => {},
                            }
                        }
                        prev = i + 1;
                    },
                    None => {
                        return None;
                    },
                }
            }
        }
        i += 1;
    }
    let last = slice(line, prev, line.len());
    match parse_term_chars(&last) {
        Some(t) => {
            let ghost before = views_of(terms@);
            let ghost tv = t@;
            terms.push(t);
            assert(views_of(terms@) =~= before + seq![tv]);
            Some(terms)
        },
        None => None,
    }
}

/// Reads a term.
pub fn parse_term(line: &str) -> (term: Option<Term>)
    ensures
        match term {
            Some(t) => term_of(line@) == Some(t@),
            None => term_of(line@) is None,
        },
{
    let chars = chars_of(line);
    parse_term_chars(&chars)
}

/// Reads a list of terms.
pub fn parse_termlist(line: &str) -> (terms: Option<Vec<Term>>)
    ensures
        match terms {
            Some(list) => terms_of(line@) == Some(views_of(list@)),
            None => terms_of(line@) is None,
        },
{
    let chars = chars_of(line);
    parse_termlist_chars(&chars)
}

/// The predicate that a text spells: the name up to the first `(`, and the
/// terms that stand between it and the last character of the text. Without a
/// `(`, or with nothing between the two, there is no predicate.
pub open spec fn predicate_of(s: Seq<char>) -> Option<PredicateView> {
    match position(s, '(') {
        Some(i) => if 0 <= i && i + 1 <= s.len() - 1 {
            match terms_of(s.subrange(i + 1, s.len() - 1)) {
                Some(terms) => Some(PredicateView { name: s.subrange(0, i), terms }),
                None => None,
            }
        } else {
            None
        },
        None => None,
    }
}

/// Reads a predicate from its characters.
pub fn parse_predicate_chars(line: &Vec<char>) -> (predicate: Option<Predicate>)
    ensures
        match predicate {
            Some(p) => predicate_of(line@) == Some(p@),
            None => predicate_of(line@) is None,
        },
{
    let index = match find_char(line, '(') {
        Some(i) => i,
        None => {
            return None;
        },
    };
    if index + 1 > line.len() - 1 {
        return None;
    }
    let name = slice(line, 0, index);
    let inner = slice(line, index + 1, line.len() - 1);
    match parse_termlist_chars(&inner) {
        Some(terms) => Some(Predicate { name: string_of(&name), terms }),
        None => None,
    }
}

/// Reads a predicate.
pub fn parse_predicate(line: &str) -> (predicate: Option<Predicate>)
    ensures
        match predicate {
            Some(p) => predicate_of(line@) == Some(p@),
            None => predicate_of(line@) is None,
        },
{
    let chars = chars_of(line);
    parse_predicate_chars(&chars)
}

/// The literal that a text spells: a predicate, negated where the text begins
/// with `-`. The empty text spells none.
pub open spec fn literal_of(s: Seq<char>) -> Option<LiteralView> {
    if s.len() == 0 {
        None
    } else if s[0] == '-' {
        match predicate_of(s.subrange(1, s.len() as int)) {
            Some(predicate) => Some(LiteralView { predicate, neg: true }),
            None => None,
        }
    } else {
        match predicate_of(s) {
            Some(predicate) => Some(LiteralView { predicate, neg: false }),
            None => None,
        }
    }
}

/// Reads a literal.
pub fn parse_literal(line: &str) -> (literal: Option<Literal>)
    ensures
        match literal {
            Some(l) => literal_of(line@) == Some(l@),
            None => literal_of(line@) is None,
        },
{
    let chars = chars_of(line);
    if chars.len() == 0 {
        return None;
    }
    let neg = chars[0] == '-';
    if neg {
        let rest = slice(&chars, 1, chars.len());
        match parse_predicate_chars(&rest) {
            Some(p) => Some(Literal::new(p, neg)),
            None => None,
        }
    } else {
        match parse_predicate_chars(&chars) {
            Some(p) => Some(Literal::new(p, neg)),
            None => None,
        }
    }
}

/// The regular expression that finds the literals of a clause: an optional
/// `-`, a name that begins with an upper-case letter, and a bracketed list
/// without `|`.
pub const LITERAL: &'static str = "-?[[:upper:]]\\S*([(][^|]*[)])";

/// The regular expression of the reader is one that the `regex` crate accepts.
pub open spec fn reader_ready() -> bool {
    regex_compiles(LITERAL@)
}

/// The literals that the first `upto` of the texts spell; `None` where one of
/// them spells none.
pub open spec fn literals_of(parts: Seq<Seq<char>>, upto: nat) -> Option<Seq<LiteralView>>
    decreases upto,
{
    if upto == 0 {
        Some(Seq::empty())
    } else {
        match (literals_of(parts, (upto - 1) as nat), literal_of(parts[upto - 1])) {
            (Some(before), Some(l)) => Some(before.push(l)),
            _ => None,
        }
    }
}

/// The clause that the parts found in a line spell.
pub open spec fn clause_of(parts: Seq<Seq<char>>) -> Option<Seq<LiteralView>> {
    literals_of(parts, parts.len())
}

/// Reads the clause whose literals are the given texts.
pub fn clause_from(parts: &Vec<String>) -> (clause: Option<Clause>)
    ensures
        match clause {
            Some(c) => clause_of(texts(parts@)) == Some(c@),
            None => clause_of(texts(parts@)) is None,
        },
{
    let ghost all = texts(parts@);
    let mut clause = Clause::new();
    let mut i: usize = 0;
    while i < parts.len()
        invariant
            i <= parts.len(),
            all == texts(parts@),
            literals_of(all, i as nat) == Some(clause@),
        decreases parts.len() - i,
    {
        assert(parts[i as int]@ == all[i as int]);
        match parse_literal(parts[i].as_str()) {
            Some(l) => {
                let ghost before = clause@;
                let ghost lv = l@;
                clause.literals.push(l);
                assert(clause@ =~= before.push(lv));
            },
            None => {
                proof {
                    assert(literals_of(all, i as nat + 1) is None);
                    lemma_literals_none(all, i as nat + 1, all.len());
                }
                return None;
            },
        }
        i += 1;
    }
    Some(clause)
}

/// Once a text spells no literal, more texts spell no clause either.
proof fn lemma_literals_none(parts: Seq<Seq<char>>, at: nat, upto: nat)
    requires
        at <= upto,
        literals_of(parts, at) is None,
    ensures
        literals_of(parts, upto) is None,
    decreases upto,
{
    if at < upto {
        lemma_literals_none(parts, at, (upto - 1) as nat);
    }
}

/// Reads a clause from a line: the literals are the parts of the line that
/// the regular expression `LITERAL` matches.
pub fn parse_clause(line: &str) -> (clause: Option<Clause>)
    requires
        reader_ready(),
    ensures
        match clause {
            Some(c) => clause_of(regex_captures(LITERAL@, line@)) == Some(c@),
            None => clause_of(regex_captures(LITERAL@, line@)) is None,
        },
{
    let parts = pattern_captures(LITERAL, line);
    clause_from(&parts)
}

/// Whether the reader can be used: asks the `regex` crate whether it accepts
/// `LITERAL`.
pub fn reader_available() -> (ready: bool)
    ensures
        ready == reader_ready(),
{
    pattern_compiles(LITERAL)
}

/// The abstract values of a list of clauses.
pub open spec fn clauses_views(kb: Seq<Clause>) -> Seq<Seq<LiteralView>> {
    Seq::new(kb.len(), |i: int| kb[i]@)
}

/// The clauses that the first `upto` lines spell; `None` where one of them
/// holds a part that looks like a literal and spells none.
pub open spec fn knowledge_of(lines: Seq<Seq<char>>, upto: nat) -> Option<Seq<Seq<LiteralView>>>
    decreases upto,
{
    if upto == 0 {
        Some(Seq::empty())
    } else {
        match (
            knowledge_of(lines, (upto - 1) as nat),
            clause_of(regex_captures(LITERAL@, lines[upto - 1])),
        ) {
            (Some(before), Some(c)) => Some(before.push(c)),
            _ => None,
        }
    }
}

/// Once a line spells no clause, more lines spell no knowledge base either.
proof fn lemma_knowledge_none(lines: Seq<Seq<char>>, at: nat, upto: nat)
    requires
        at <= upto,
        knowledge_of(lines, at) is None,
    ensures
        knowledge_of(lines, upto) is None,
    decreases upto,
{
    if at < upto {
        lemma_knowledge_none(lines, at, (upto - 1) as nat);
    }
}

/// Reads a knowledge base: one clause from each line. `None` where the
/// reader cannot be used or a line spells no clause.
pub fn read_knowledge_base(lines: &Vec<String>) -> (kb: Option<Vec<Clause>>)
    ensures
        match kb {
            Some(list) => reader_ready() && knowledge_of(texts(lines@), lines.len() as nat)
                == Some(clauses_views(list@)),
            None => !reader_ready() || knowledge_of(texts(lines@), lines.len() as nat) is None,
        },
{
    if !reader_available() {
        return None;
    }
    let ghost all = texts(lines@);
    let mut kb: Vec<Clause> = Vec::new();
    let mut i: usize = 0;
    assert(clauses_views(kb@) =~= Seq::<Seq<LiteralView>>::empty());
    while i < lines.len()
        invariant
            reader_ready(),
            i <= lines.len(),
            all == texts(lines@),
            knowledge_of(all, i as nat) == Some(clauses_views(kb@)),
        decreases lines.len() - i,
    {
        assert(lines[i as int]@ == all[i as int]);
        match parse_clause(lines[i].as_str()) {
            Some(c) => {
                let ghost before = clauses_views(kb@);
                let ghost cv = c@;
                kb.push(c);
                assert(clauses_views(kb@) =~= before.push(cv));
            },
            None => {
                proof {
                    assert(knowledge_of(all, i as nat + 1) is None);
                    lemma_knowledge_none(all, i as nat + 1, lines.len() as nat);
                }
                return None;
            },
        }
        i += 1;
    }
    Some(kb)
}

} // verus!
