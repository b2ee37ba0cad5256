use ai_algorithms::unification::cnf::{rules_available, Clause, Literal, Predicate, Term};
use ai_algorithms::unification::parse::{
    balanced_paren, clause_from, find_char, parse_clause, parse_literal, parse_predicate,
    parse_term, parse_termlist, trim,
};
use ai_algorithms::unification::unify::{look, put_at, unify, unify_cc, unify_terms, unify_tt};

fn chars(text: &str) -> Vec<char> {
    text.chars().collect()
}

fn text(chars: Vec<char>) -> String {
    chars.into_iter().collect()
}

fn predicate(line: &str) -> Predicate {
    parse_predicate(line).unwrap()
}

fn clause(line: &str) -> Clause {
    parse_clause(line).unwrap()
}

#[test]
fn brackets_are_counted() {
    assert!(balanced_paren("f(x, g(y))"));
    assert!(balanced_paren(""));
    assert!(balanced_paren(")("));
    assert!(!balanced_paren("f(x"));
    assert!(!balanced_paren("x)"));
}

#[test]
fn trim_and_find() {
    assert_eq!(text(trim(&chars("  a b \t\n"))), "a b");
    assert_eq!(text(trim(&chars("   "))), "");
    assert_eq!(text(trim(&chars(""))), "");
    assert_eq!(text(trim(&chars("x"))), "x");
    for line in [" f(x) ", "\u{a0}y\u{2003}", "a  ", "  a"] {
        assert_eq!(text(trim(&chars(line))), line.trim());
    }
    assert_eq!(find_char(&chars("ab(c(d"), '('), Some(2));
    assert_eq!(find_char(&chars("abc"), '('), None);
}

#[test]
fn terms_are_read() {
    let term = parse_term(" x ").unwrap();
    assert_eq!(term.name, "x");
    assert!(term.terms.is_empty());
    let term = parse_term("f(x, g(y, Z), w)").unwrap();
    assert_eq!(term.name, "f");
    assert_eq!(term.terms.len(), 3);
    assert_eq!(term.terms[0].name, "x");
    assert_eq!(term.terms[1].name, "g");
    assert_eq!(term.terms[1].terms.len(), 2);
    assert_eq!(term.terms[1].terms[1].name, "Z");
    assert_eq!(term.terms[2].name, "w");
    assert_eq!(term.to_text(), "f(x, g(y, Z), w)");
    // What stands between the first bracket and the last character is the list.
    let term = parse_term("f()").unwrap();
    assert_eq!(term.terms.len(), 1);
    assert_eq!(term.terms[0].name, "");
    assert!(parse_term("f(").is_none());
    assert!(parse_term("f(g()").is_none());
    assert_eq!(parse_term("").unwrap().name, "");
}

#[test]
fn term_lists_part_at_commas_outside_brackets() {
    let terms = parse_termlist("a, f(b, c), d").unwrap();
    let names: Vec<String> = terms.iter().map(|t| t.to_text()).collect();
    assert_eq!(names, vec!["a", "f(b, c)", "d"]);
    let terms = parse_termlist("").unwrap();
    assert_eq!(terms.len(), 1);
    let terms = parse_termlist("a,").unwrap();
    assert_eq!(terms.len(), 2);
    assert_eq!(terms[1].name, "");
}

#[test]
fn predicates_and_literals_are_read() {
    let p = predicate("Loves(x, Mother(x))");
    assert_eq!(p.name, "Loves");
    assert_eq!(p.terms.len(), 2);
    assert_eq!(p.to_text(), "Loves(x, Mother(x))");
    assert!(parse_predicate("Loves").is_none());
    assert!(parse_predicate("Loves(").is_none());
    let l = parse_literal("-P(x)").unwrap();
    assert!(l.neg);
    assert_eq!(l.predicate.name, "P");
    assert_eq!(l.to_text(), "-P(x)");
    let l = parse_literal("P(x)").unwrap();
    assert!(!l.neg);
    assert!(parse_literal("").is_none());
    assert!(parse_literal("-").is_none());
}

#[test]
fn clauses_are_read_with_the_regular_expression() {
    assert!(rules_available());
    let c = clause("P(x, A) | -Q(f(y)) | R(z)");
    assert_eq!(c.literals.len(), 3);
    assert_eq!(c.to_text(), "P(x, A) | -Q(f(y)) | R(z)");
    assert!(c.literals[1].neg);
    // A name that does not begin with an upper-case letter is no literal.
    let c = clause("p(x) | Q(y)");
    assert_eq!(c.to_text(), "Q(y)");
    assert_eq!(clause("").literals.len(), 0);
    assert_eq!(Clause::new().to_text(), "");
    let parts = vec![String::from("P(x)"), String::from("-Q(y)")];
    assert_eq!(clause_from(&parts).unwrap().to_text(), "P(x) | -Q(y)");
    assert!(clause_from(&vec![String::from("P")]).is_none());
}

#[test]
fn paths_lead_to_terms() {
    let mut p = predicate("P(a, f(b, g(c)))");
    assert_eq!(look(&p.terms, &vec![0], 0).unwrap().name, "a");
    assert_eq!(look(&p.terms, &vec![1, 1, 0], 0).unwrap().name, "c");
    assert_eq!(look(&p.terms, &vec![9, 1, 1], 1).unwrap().name, "g");
    assert!(look(&p.terms, &vec![2], 0).is_none());
    assert!(look(&p.terms, &vec![0, 0], 0).is_none());
    put_at(&mut p.terms, &vec![1, 1], 0, parse_term("h(x)").unwrap());
    assert_eq!(p.to_text(), "P(a, f(b, h(x)))");
    put_at(&mut p.terms, &vec![0], 0, parse_term("Z").unwrap());
    assert_eq!(p.to_text(), "P(Z, f(b, h(x)))");
}

#[test]
fn a_constant_replaces_a_variable_throughout() {
    let mut p = predicate("P(John, x)");
    let mut q = predicate("P(y, f(y))");
    assert!(unify_terms(&mut p, &mut q, &vec![0], 10));
    assert_eq!(p.to_text(), "P(John, x)");
    assert_eq!(q.to_text(), "P(John, f(John))");
    let mut p = predicate("P(x, g(x))");
    let mut q = predicate("P(Mary, z)");
    assert!(unify_terms(&mut p, &mut q, &vec![0], 10));
    assert_eq!(p.to_text(), "P(Mary, g(Mary))");
    assert_eq!(q.to_text(), "P(Mary, z)");
}

#[test]
fn constants_unify_if_alike() {
    let mut p = predicate("P(John)");
    let mut q = predicate("P(John)");
    assert!(unify_terms(&mut p, &mut q, &vec![0], 10));
    let mut q = predicate("P(Mary)");
    assert!(!unify_terms(&mut p, &mut q, &vec![0], 10));
    let mut q = predicate("P(f(x))");
    assert!(!unify_terms(&mut p, &mut q, &vec![0], 10));
    assert!(!unify_terms(&mut q, &mut p, &vec![0], 10));
    assert_eq!(p.to_text(), "P(John)");
    assert_eq!(q.to_text(), "P(f(x))");
}

#[test]
fn variables_take_the_name_of_the_first() {
    let mut p = predicate("P(x)");
    let mut q = predicate("P(y, y)");
    assert!(unify_terms(&mut p, &mut q, &vec![0], 10));
    assert_eq!(q.to_text(), "P(x, x)");
}

#[test]
fn a_function_replaces_a_variable_at_its_place() {
    let mut p = predicate("P(f(A), x)");
    let mut q = predicate("P(y, y)");
    assert!(unify_terms(&mut p, &mut q, &vec![0], 10));
    assert_eq!(q.to_text(), "P(f(A), y)");
    let mut p = predicate("P(x, x)");
    let mut q = predicate("P(g(B, z), C)");
    assert!(unify_terms(&mut p, &mut q, &vec![0], 10));
    assert_eq!(p.to_text(), "P(g(B, z), x)");
    // The occurs check.
    let mut p = predicate("P(f(x))");
    let mut q = predicate("P(x)");
    assert!(!unify_terms(&mut p, &mut q, &vec![0], 10));
    assert!(!unify_terms(&mut q, &mut p, &vec![0], 10));
    assert_eq!(q.to_text(), "P(x)");
}

#[test]
fn functions_unify_argument_by_argument() {
    let mut p = predicate("P(f(x, B, g(z)))");
    let mut q = predicate("P(f(A, y, g(C)))");
    assert!(unify_terms(&mut p, &mut q, &vec![0], 10));
    assert_eq!(p.to_text(), "P(f(A, B, g(C)))");
    assert_eq!(q.to_text(), "P(f(A, B, g(C)))");
    let mut p = predicate("P(f(x, B))");
    let mut q = predicate("P(f(A, C))");
    assert!(!unify_terms(&mut p, &mut q, &vec![0], 10));
    // What was substituted before the failure stays.
    assert_eq!(p.to_text(), "P(f(A, B))");
    let mut p = predicate("P(f(x))");
    let mut q = predicate("P(g(x))");
    assert!(!unify_terms(&mut p, &mut q, &vec![0], 10));
    let mut q = predicate("P(f(x, y))");
    assert!(!unify_terms(&mut p, &mut q, &vec![0], 10));
}

#[test]
fn the_budget_bounds_the_depth() {
    let mut p = predicate("P(f(g(x)))");
    let mut q = predicate("P(f(g(A)))");
    assert!(!unify_terms(&mut p, &mut q, &vec![0], 1));
    assert!(unify_terms(&mut p, &mut q, &vec![0], 2));
    assert_eq!(p.to_text(), "P(f(g(A)))");
    assert!(!unify_terms(&mut p, &mut q, &vec![3], 2));
}

#[test]
fn predicates_unify_place_by_place() {
    let mut p = predicate("P(x, B, f(z))");
    let mut q = predicate("P(A, y, f(C))");
    assert!(unify_tt(&mut p, &mut q));
    assert_eq!(p.to_text(), "P(A, B, f(C))");
    assert_eq!(q.to_text(), "P(A, B, f(C))");
    let mut p = predicate("P(A, x)");
    let mut q = predicate("P(B, C)");
    assert!(unify_tt(&mut p, &mut q));
    assert_eq!(p.to_text(), "P(A, C)");
}

#[test]
fn clauses_unify_on_opposite_literals() {
    let focus = clause("P(x) | Q(x, B)");
    let target = clause("-P(A) | Q(C, y) | -Q(z, w)");
    let (first, second) = unify_cc(&focus, &target);
    assert_eq!(first.to_text(), "P(A) | Q(x, B)");
    assert_eq!(second.to_text(), "-P(A) | Q(C, y) | -Q(x, B)");
    assert_eq!(focus.to_text(), "P(x) | Q(x, B)");
    let (first, second) = unify_cc(&clause("P(x)"), &clause("P(A)"));
    assert_eq!(first.to_text(), "P(x)");
    assert_eq!(second.to_text(), "P(A)");
    let (first, _) = unify_cc(&clause("P(x)"), &clause("-P(A, B)"));
    assert_eq!(first.to_text(), "P(x)");
}

#[test]
fn knowledge_base_is_unified_pair_by_pair() {
    let kb = vec![clause("P(x)"), clause("-P(A)"), clause("-P(B) | R(y)")];
    let pairs = unify(kb).unwrap();
    let texts: Vec<(String, String)> =
        pairs.iter().map(|(a, b)| (a.to_text(), b.to_text())).collect();
    assert_eq!(
        texts,
        vec![
            (String::from("P(A)"), String::from("-P(A)")),
            (String::from("P(B)"), String::from("-P(B) | R(y)")),
            (String::from("-P(A)"), String::from("-P(B) | R(y)")),
        ]
    );
    assert_eq!(unify(vec![]).unwrap().len(), 0);
    assert_eq!(unify(vec![clause("P(x)")]).unwrap().len(), 0);
}

#[test]
fn texts_of_terms() {
    let mut term = Term::new(String::from("f"));
    term.terms.push(Term::new(String::from("x")));
    assert_eq!(term.to_text(), "f(x)");
    assert_eq!(Term::new(String::from("x")).to_text(), "x");
    let p = Predicate::new(String::from("P"));
    assert_eq!(p.to_text(), "P()");
    assert_eq!(Literal::new(p, true).to_text(), "-P()");
}
