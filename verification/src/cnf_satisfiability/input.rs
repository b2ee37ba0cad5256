//! The problem text: comment lines, the problem line `p cnf <V> <C>`, and then
//! the clauses, each a run of numbers that ends with a 0 of its own.

use vstd::prelude::*;
use crate::text::{
    number, parse_isize, parse_usize, same_text, signed_value, slice, split_words, string_of,
    texts, words,
};

verus! {

/// What a line before the clauses says.
pub enum PreambleLine {
    /// A line without a word.
    Blank,
    /// A comment line.
    Comment,
    /// The problem line: the numbers of variables and of clauses.
    Problem { vars: usize, clauses: usize },
    /// A problem line that is not for `cnf` or lacks a number.
    BadProblem,
    /// A problem line with a word where a number belongs.
    BadNumber,
    /// A line that begins with an unknown directive: the word found.
    Unknown(String),
}

/// The abstract value of a preamble line.
pub enum PreambleView {
    Blank,
    Comment,
    Problem { vars: usize, clauses: usize },
    BadProblem,
    BadNumber,
    Unknown(Seq<char>),
}

impl View for PreambleLine {
    type V = PreambleView;

    open spec fn view(&self) -> PreambleView {
        match self {
            PreambleLine::Blank => PreambleView::Blank,
            PreambleLine::Comment => PreambleView::Comment,
            PreambleLine::Problem { vars, clauses } => PreambleView::Problem {
                vars: *vars,
                clauses: *clauses,
            },
            PreambleLine::BadProblem => PreambleView::BadProblem,
            PreambleLine::BadNumber => PreambleView::BadNumber,
            PreambleLine::Unknown(word) => PreambleView::Unknown(word@),
        }
    }
}

/// What the words of a line before the clauses say.
pub open spec fn preamble_of(w: Seq<Seq<char>>) -> PreambleView {
    if w.len() == 0 {
        PreambleView::Blank
    } else if w[0] == "c"@ {
        PreambleView::Comment
    } else if w[0] == "p"@ {
        if w.len() < 4 || w[1] != "cnf"@ {
            PreambleView::BadProblem
        } else if number(w[2]) is Some && number(w[3]) is Some {
            PreambleView::Problem { vars: number(w[2])->0, clauses: number(w[3])->0 }
        } else {
            PreambleView::BadNumber
        }
    } else {
        PreambleView::Unknown(w[0])
    }
}

/// Reads a line before the clauses.
pub fn preamble_line(line: &str) -> (read: PreambleLine)
    ensures
        read@ == preamble_of(words(line@)),
{
    let words = split_words(line);
    if words.len() == 0 {
        return PreambleLine::Blank;
    }
    let head = words[0].as_str();
    if same_text(head, "c") {
        PreambleLine::Comment
    } else if same_text(head, "p") {
        if words.len() < 2 || !same_text(words[1].as_str(), "cnf") || words.len() < 4 {
            return PreambleLine::BadProblem;
        }
        match (parse_usize(words[2].as_str()), parse_usize(words[3].as_str())) {
            (Some(vars), Some(clauses)) => PreambleLine::Problem { vars, clauses },
            _ => PreambleLine::BadNumber,
        }
    } else {
        PreambleLine::Unknown(words[0].clone())
    }
}

/// The number that a word stands for, if it is a signed decimal that fits a
/// machine word.
pub open spec fn literal(word: Seq<char>) -> Option<isize> {
    match signed_value(word) {
        Some(v) => if isize::MIN <= v <= isize::MAX {
            Some(v as isize)
        } else {
            None
        },
        None => None,
    }
}

/// The numbers that the first `upto` words stand for; `None` where one of
/// them is no number.
pub open spec fn literals(w: Seq<Seq<char>>, upto: nat) -> Option<Seq<isize>>
    decreases upto,
{
    if upto == 0 {
        Some(Seq::empty())
    } else {
        match (literals(w, (upto - 1) as nat), literal(w[upto - 1])) {
            (Some(before), Some(l)) => Some(before.push(l)),
            _ => None,
        }
    }
}

/// Converts the text of a clause into its literals: the numbers that its
/// words stand for. `None` where a word is no number.
pub fn gen_clause(line: String) -> (clause: Option<Vec<isize>>)
    ensures
        match clause {
            Some(c) => literals(words(line@), words(line@).len()) == Some(c@),
            None => literals(words(line@), words(line@).len()) is None,
        },
{
    let list = split_words(line.as_str());
    let ghost w = words(line@);
    let mut clause: Vec<isize> = Vec::new();
    let mut i: usize = 0;
    while i < list.len()
        invariant
            i <= list.len(),
            w == words(line@),
            texts(list@) == w,
            literals(w, i as nat) == Some(clause@),
        decreases list.len() - i,
    {
        assert(list[i as int]@ == w[i as int]);
        match parse_isize(list[i].as_str()) {
            Some(num) => {
                clause.push(num);
            },
            None => {
                proof {
                    assert(w.len() == list.len());
                    assert(literal(w[i as int]) is None);
                    assert(literals(w, i as nat + 1) is None);
                    lemma_literals_none(w, i as nat + 1, w.len());
                }
                return None;
            },
        }
        i += 1;
    }
    assert(w.len() == list.len());
    Some(clause)
}

/// Once a word is no number, the numbers of more words are none either.
proof fn lemma_literals_none(w: Seq<Seq<char>>, at: nat, upto: nat)
    requires
        at <= upto,
        literals(w, at) is None,
    ensures
        literals(w, upto) is None,
    decreases upto,
{
    if at < upto {
        lemma_literals_none(w, at, (upto - 1) as nat);
    }
}

/// A clause ends at `p`: there stands a `0` that follows a blank, after the
/// place `from` where the clause begins.
pub open spec fn ends_clause(s: Seq<char>, from: int, p: int) -> bool {
    from < p < s.len() && s[p] == '0' && s[p - 1] == ' '
}

/// The clause that begins at `from` ends at `p` and nowhere before.
pub open spec fn is_first_end(s: Seq<char>, from: int, p: int) -> bool {
    ends_clause(s, from, p) && forall|q: int| from < q < p ==> !ends_clause(s, from, q)
}

/// Where the clause that begins at `from` ends and where the next begins. A
/// clause ends before the first `0` that follows a blank. Where the text runs
/// out before that, its last character is dropped, and what is left is a
/// clause if it ends with a blank and the dropped character is no `0`.
pub open spec fn clause_span(s: Seq<char>, from: int) -> Option<(int, int)> {
    if exists|p: int| is_first_end(s, from, p) {
        let p = choose|p: int| is_first_end(s, from, p);
        Some((p, p + 1))
    } else if 0 <= from && from + 2 <= s.len() && s[s.len() - 2] == ' ' && s[s.len() - 1] != '0' {
        Some((s.len() - 1, s.len() as int))
    } else {
        None
    }
}

/// Finds the clause that begins at `from`: returns where it ends and where the
/// next one begins.
pub fn read_clause(text: &Vec<char>, from: usize) -> (span: Option<(usize, usize)>)
    ensures
        match span {
            Some((end, next)) => clause_span(text@, from as int) == Some((end as int, next as int))
                && from <= end < next <= text.len(),
            None => clause_span(text@, from as int) is None,
        },
{
    let n = text.len();
    if from >= n {
        proof {
            assert forall|p: int| !is_first_end(text@, from as int, p) by {}
        }
        return None;
    }
    let mut p: usize = from + 1;
    while p < n
        invariant
            from < p <= n,
            n == text.len(),
            forall|q: int| from < q < p ==> !ends_clause(text@, from as int, q),
        decreases n - p,
    {
        if text[p] == '0' && text[p - 1] == ' ' {
            proof {
                assert(is_first_end(text@, from as int, p as int));
                let c = choose|c: int| is_first_end(text@, from as int, c);
                assert(c == p) by {
                    if c < p {
                        assert(!ends_clause(text@, from as int, c));
                    }
                    if p < c {
                        assert(!ends_clause(text@, from as int, p as int));
                    }
                }
            }
            return Some((p, p + 1));
        }
        p += 1;
    }
    proof {
        assert forall|c: int| !is_first_end(text@, from as int, c) by {
            if is_first_end(text@, from as int, c) {
                assert(!ends_clause(text@, from as int, c));
            }
        }
    }
    if n - from >= 2 && text[n - 2] == ' ' && text[n - 1] != '0' {
        Some((n - 1, n))
    } else {
        None
    }
}

/// The text between two places.
pub fn clause_text(text: &Vec<char>, from: usize, to: usize) -> (part: String)
    requires
        from <= to <= text.len(),
    ensures
        part@ == text@.subrange(from as int, to as int),
{
    let part = slice(text, from, to);
    string_of(&part)
}

} // verus!
