use ai_algorithms::cnf_satisfiability::formula::{holds, set_variable, strike, unit_val};
use ai_algorithms::cnf_satisfiability::input::{
    clause_text, gen_clause, preamble_line, read_clause, PreambleLine,
};
use ai_algorithms::cnf_satisfiability::solver::{
    any_empty, copy_clauses, dll, is_searchable, solve, unit_propagate,
};

fn chars(text: &str) -> Vec<char> {
    text.chars().collect()
}

/// Whether some assignment of the variables `1..=vars` makes every clause true.
fn brute_force(vars: usize, clauses: &[Vec<isize>]) -> bool {
    (0u32..(1 << vars)).any(|bits| {
        clauses.iter().all(|clause| {
            clause.iter().any(|&l| {
                let value = bits & (1 << (l.unsigned_abs() - 1)) != 0;
                (l > 0) == value
            })
        })
    })
}

#[test]
fn set_variable_drops_and_strikes() {
    let mut clauses = vec![vec![1, 2], vec![-1, 3], vec![2, -3], vec![-1], vec![1, -1]];
    set_variable(&mut clauses, 1);
    assert_eq!(clauses, vec![vec![3], vec![2, -3], vec![]]);
    let mut clauses = vec![vec![1, 2], vec![-1, 3, -1]];
    set_variable(&mut clauses, -1);
    assert_eq!(clauses, vec![vec![2]]);
    let mut clauses: Vec<Vec<isize>> = vec![];
    set_variable(&mut clauses, 5);
    assert!(clauses.is_empty());
    assert!(holds(&vec![1, -2], -2));
    assert!(!holds(&vec![1, -2], 2));
    assert_eq!(strike(&vec![1, -2, 1, 3], 1), vec![-2, 3]);
}

#[test]
fn unit_val_takes_the_first_unit_clause() {
    assert_eq!(unit_val(&vec![vec![1, 2], vec![-3], vec![4]]), -3);
    assert_eq!(unit_val(&vec![vec![1, 2], vec![]]), 0);
    assert_eq!(unit_val(&vec![]), 0);
    assert_eq!(unit_val(&vec![vec![0], vec![4]]), 0);
}

#[test]
fn unit_propagation_runs_to_the_end() {
    let mut clauses = vec![vec![1], vec![-1, 2], vec![-2, 3, 4], vec![-3, -4, 5]];
    let mut solution = vec![];
    let mut branches = 0;
    unit_propagate(&mut clauses, &mut solution, &mut branches);
    assert_eq!(solution, vec![1, 2]);
    assert_eq!(branches, 2);
    assert_eq!(clauses, vec![vec![3, 4], vec![-3, -4, 5]]);
    assert!(!any_empty(&clauses));
    let mut clauses = vec![vec![1], vec![-1]];
    unit_propagate(&mut clauses, &mut solution, &mut branches);
    assert_eq!(clauses, vec![Vec::<isize>::new()]);
    assert!(any_empty(&clauses));
    assert_eq!(branches, 3);
}

#[test]
fn search_finds_a_satisfying_assignment() {
    let clauses = vec![vec![1, 2], vec![-1, 2], vec![-2, 3]];
    let (sat, solution, branches) = solve(3, clauses);
    assert!(sat);
    // First call; 1 true; then the units 2 and 3.
    assert_eq!(solution, vec![1, 2, 3]);
    assert_eq!(branches, 4);
}

#[test]
fn search_refutes_a_contradiction() {
    let clauses = vec![vec![1, 2], vec![1, -2], vec![-1, 2], vec![-1, -2]];
    let (sat, _, branches) = solve(2, clauses);
    assert!(!sat);
    // The call, then under 1 and under -1 each: a call and one unit.
    assert_eq!(branches, 5);
    assert_eq!(solve(0, vec![vec![]]), (false, vec![], 1));
    assert_eq!(solve(0, vec![]), (true, vec![], 1));
}

#[test]
fn search_passes_over_variables_that_do_not_occur() {
    let (sat, solution, branches) = solve(3, vec![vec![3, 4], vec![-3, 4]]);
    assert!(sat);
    assert_eq!(solution, vec![1, 2, 3, 4]);
    assert_eq!(branches, 5);
}

#[test]
fn search_agrees_with_brute_force() {
    // Every formula of two clauses of two literals over three variables.
    let literals: Vec<isize> = vec![1, -1, 2, -2, 3, -3];
    for a in &literals {
        for b in &literals {
            for c in &literals {
                for d in &literals {
                    for extra in [vec![], vec![vec![-1isize]], vec![vec![2isize], vec![-3isize]]] {
                        let mut clauses = vec![vec![*a, *b], vec![*c, *d]];
                        clauses.extend(extra);
                        assert!(is_searchable(&clauses));
                        let expected = brute_force(3, &clauses);
                        assert_eq!(solve(3, clauses).0, expected);
                    }
                }
            }
        }
    }
}

#[test]
fn dll_counts_in_the_given_counter() {
    let mut clauses = vec![vec![2, 3], vec![-2]];
    let mut solution = vec![7];
    let mut branches = usize::MAX - 1;
    assert!(dll(3, 2, &mut clauses, &mut solution, &mut branches));
    assert_eq!(solution, vec![7, -2, 3]);
    assert_eq!(branches, usize::MAX);
    assert!(clauses.is_empty());
}

#[test]
fn searchable_clauses_have_no_zero_and_no_extreme() {
    assert!(is_searchable(&vec![vec![1, -2], vec![]]));
    assert!(!is_searchable(&vec![vec![1, 0]]));
    assert!(!is_searchable(&vec![vec![isize::MAX]]));
    assert!(!is_searchable(&vec![vec![isize::MIN]]));
    assert!(!is_searchable(&vec![vec![isize::MIN + 1]]));
    assert!(is_searchable(&vec![vec![isize::MAX - 1, isize::MIN + 2]]));
    let clauses = vec![vec![1, 2], vec![3]];
    assert_eq!(copy_clauses(&clauses), clauses);
}

#[test]
fn clause_text_becomes_literals() {
    assert_eq!(gen_clause(String::from("1 -2 3 ")), Some(vec![1, -2, 3]));
    assert_eq!(gen_clause(String::from("\n 10   -20\t")), Some(vec![10, -20]));
    assert_eq!(gen_clause(String::from("")), Some(vec![]));
    assert_eq!(gen_clause(String::from("1 x 3")), None);
    assert_eq!(gen_clause(String::from("1 2-")), None);
}

#[test]
fn preamble_lines() {
    assert!(matches!(preamble_line("c hello"), PreambleLine::Comment));
    assert!(matches!(preamble_line(""), PreambleLine::Blank));
    assert!(matches!(preamble_line("p cnf 3 4"), PreambleLine::Problem { vars: 3, clauses: 4 }));
    assert!(matches!(preamble_line("p edge 3 4"), PreambleLine::BadProblem));
    assert!(matches!(preamble_line("p cnf 3"), PreambleLine::BadProblem));
    assert!(matches!(preamble_line("p"), PreambleLine::BadProblem));
    assert!(matches!(preamble_line("p cnf three 4"), PreambleLine::BadNumber));
    match preamble_line("q cnf") {
        PreambleLine::Unknown(word) => assert_eq!(word, "q"),
        _ => panic!("expected an unknown directive"),
    }
}

#[test]
fn clauses_end_with_a_zero_of_their_own() {
    let text = chars("1 -2 0\n3 10 0\n20 0");
    let (end, next) = read_clause(&text, 0).unwrap();
    assert_eq!(clause_text(&text, 0, end), "1 -2 ");
    let (end2, next2) = read_clause(&text, next).unwrap();
    assert_eq!(clause_text(&text, next, end2), "\n3 10 ");
    let (end3, next3) = read_clause(&text, next2).unwrap();
    assert_eq!(clause_text(&text, next2, end3), "\n20 ");
    assert_eq!(next3, text.len());
    assert_eq!(read_clause(&text, next3), None);
    assert_eq!(gen_clause(clause_text(&text, next, end2)), Some(vec![3, 10]));
}

#[test]
fn a_clause_without_its_zero() {
    // The text runs out: its last character is dropped, and the rest is a
    // clause if it ends with a blank.
    let text = chars("1 2 \n");
    assert_eq!(read_clause(&text, 0), Some((4, 5)));
    assert_eq!(read_clause(&chars("1 2"), 0), Some((2, 3)));
    assert_eq!(read_clause(&chars("12"), 0), None);
    assert_eq!(read_clause(&chars("1 20"), 0), None);
    assert_eq!(read_clause(&chars(" 0"), 0), Some((1, 2)));
    assert_eq!(read_clause(&chars("0 1 0"), 0), Some((4, 5)));
    assert_eq!(read_clause(&chars("100 0"), 0), Some((4, 5)));
    assert_eq!(read_clause(&chars(""), 0), None);
    assert_eq!(read_clause(&chars("x"), 3), None);
}
