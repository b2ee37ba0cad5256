use ai_algorithms::unification::cnf::{
    rules_available, type_of, Clause, Literal, Predicate, Term, TermType,
};

fn leaf(name: &str) -> Term {
    Term::new(String::from(name))
}

fn function(name: &str, args: Vec<Term>) -> Term {
    let mut term = leaf(name);
    term.terms = args;
    term
}

#[test]
fn constant_names_begin_with_an_upper_case_letter() {
    assert!(rules_available());
    assert_eq!(leaf("John").get_type(), TermType::Constant);
    assert_eq!(leaf("X").get_type(), TermType::Constant);
    assert_eq!(leaf("x").get_type(), TermType::Variable);
    assert_eq!(leaf("upper").get_type(), TermType::Variable);
    assert_eq!(leaf(":x").get_type(), TermType::Variable);
    assert_eq!(leaf("").get_type(), TermType::Variable);
    assert_eq!(function("f", vec![leaf("x")]).get_type(), TermType::Function);
    assert_eq!(function("F", vec![leaf("x")]).get_type(), TermType::Function);
    assert_eq!(type_of(&leaf("John")), Some(TermType::Constant));
}

#[test]
fn new_items_are_bare() {
    let term = leaf("x");
    assert_eq!(term.name, "x");
    assert!(term.terms.is_empty());
    let predicate = Predicate::new(String::from("Loves"));
    assert_eq!(predicate.name, "Loves");
    assert!(predicate.terms.is_empty());
    let literal = Literal::new(predicate, true);
    assert!(literal.neg);
    assert_eq!(literal.predicate.name, "Loves");
    assert!(Clause::new().literals.is_empty());
}

#[test]
fn terms_are_equal_by_name_and_arity() {
    assert!(leaf("x") == leaf("x"));
    assert!(leaf("x") != leaf("y"));
    assert!(function("f", vec![leaf("x")]) == function("f", vec![leaf("y")]));
    assert!(function("f", vec![leaf("x")]) != function("f", vec![leaf("x"), leaf("y")]));
    let mut p = Predicate::new(String::from("P"));
    let q = Predicate::new(String::from("P"));
    assert!(p == q);
    p.terms.push(leaf("x"));
    assert!(p != q);
}

#[test]
fn contains_looks_below_functions() {
    let inner = function("g", vec![leaf("y")]);
    let term = function("f", vec![leaf("x"), inner]);
    assert!(term.contains(&leaf("x")));
    assert!(term.contains(&leaf("y")));
    assert!(!term.contains(&leaf("z")));
    // An argument that is a function is searched, not compared.
    assert!(!term.contains(&function("g", vec![leaf("q")])));
    assert!(!leaf("x").contains(&leaf("x")));
}

#[test]
fn set_var_renames_the_variable_everywhere() {
    let mut term = function("f", vec![leaf("x"), function("g", vec![leaf("x"), leaf("y")])]);
    term.set_var(&leaf("John"), &leaf("x"));
    assert_eq!(term.terms[0].name, "John");
    assert_eq!(term.terms[1].terms[0].name, "John");
    assert_eq!(term.terms[1].terms[1].name, "y");
    assert_eq!(term.name, "f");
    let mut constant = leaf("Mary");
    constant.set_var(&leaf("John"), &leaf("Mary"));
    assert_eq!(constant.name, "Mary");
    let mut predicate = Predicate::new(String::from("Loves"));
    predicate.terms = vec![leaf("x"), leaf("y"), function("f", vec![leaf("y")])];
    predicate.set_var(&leaf("Mary"), &leaf("y"));
    assert_eq!(predicate.terms[0].name, "x");
    assert_eq!(predicate.terms[1].name, "Mary");
    assert_eq!(predicate.terms[2].terms[0].name, "Mary");
}

#[test]
fn clones_are_deep() {
    let term = function("f", vec![leaf("x"), function("g", vec![leaf("y")])]);
    let mut copy = term.clone();
    copy.terms[1].terms[0].name = String::from("z");
    assert_eq!(term.terms[1].terms[0].name, "y");
    assert_eq!(copy.terms[1].terms[0].name, "z");
    let mut clause = Clause::new();
    let mut predicate = Predicate::new(String::from("P"));
    predicate.terms.push(term);
    clause.literals.push(Literal::new(predicate, false));
    let copy = clause.clone();
    assert_eq!(copy.literals.len(), 1);
    assert_eq!(copy.literals[0].predicate.terms[0].terms[1].terms[0].name, "y");
}
