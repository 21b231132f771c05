use sat_solver::formula::Formula;
use sat_solver::solver::Solver;

fn var(name: &str) -> Box<Formula> {
    Box::new(Formula::Var(String::from(name)))
}

/// Truth-table evaluation of a formula under one assignment of its
/// user variables, as an oracle for the solver's verdict.
fn eval(f: &Formula, names: &[&str], values: &[bool]) -> bool {
    match f {
        Formula::And(l, r) => eval(l, names, values) && eval(r, names, values),
        Formula::Or(l, r) => eval(l, names, values) || eval(r, names, values),
        Formula::Not(s) => !eval(s, names, values),
        Formula::Var(n) => {
            let i = names.iter().position(|m| m == n).unwrap();
            values[i]
        },
        Formula::Constant(b) => *b,
    }
}

/// A structural copy of a formula, so one build can feed both the solver
/// and the oracle.
fn duplicate(f: &Formula) -> Formula {
    match f {
        Formula::And(l, r) => Formula::And(Box::new(duplicate(l)), Box::new(duplicate(r))),
        Formula::Or(l, r) => Formula::Or(Box::new(duplicate(l)), Box::new(duplicate(r))),
        Formula::Not(s) => Formula::Not(Box::new(duplicate(s))),
        Formula::Var(n) => Formula::Var(n.clone()),
        Formula::Constant(b) => Formula::Constant(*b),
    }
}

/// Brute-force satisfiability over every assignment of the given
/// user variables.
fn brute_force_satisfiable(f: &Formula, names: &[&str]) -> bool {
    let n = names.len();
    for bits in 0..(1u32 << n) {
        let values: Vec<bool> = (0..n).map(|i| bits & (1 << i) != 0).collect();
        if eval(f, names, &values) {
            return true;
        }
    }
    false
}

#[test]
fn simple_construct() {
    let p = Box::new(Formula::Var("p".to_string()));
    let q = Box::new(Formula::Var("q".to_string()));
    let r = Box::new(Formula::Var("r".to_string()));

    let conj = Box::new(Formula::And(p, q));
    let disj = Box::new(Formula::Or(conj, r));

    let not = Box::new(Formula::Not(disj));
    let false_val = Box::new(Formula::Constant(false));
    let _res = Box::new(Formula::Or(not, false_val));
}

#[test]
fn scenario_single_variable_is_satisfiable() {
    let mut solver = Solver::new(Formula::Var(String::from("p")));
    assert!(solver.is_satisfiable());
    assert_eq!(solver.get_assignments().get(&String::from("p")), Some(true));
}

#[test]
fn scenario_contradiction_is_unsatisfiable() {
    // p AND NOT p: the encoder introduces gates for the conjunction and
    // the negation, and the solver reports unsatisfiable.
    let f = Formula::And(var("p"), Box::new(Formula::Not(var("p"))));
    let mut solver = Solver::new(f);
    assert!(!solver.is_satisfiable());
    // A failed solve undoes every trial assignment: no stale value for p
    // survives the backtracking.
    assert_eq!(solver.get_assignments().get(&String::from("p")), None);
}

#[test]
fn scenario_excluded_middle_is_satisfiable() {
    let f = Formula::Or(var("p"), Box::new(Formula::Not(var("p"))));
    let mut solver = Solver::new(f);
    assert!(solver.is_satisfiable());
}

#[test]
fn scenario_constant_false_is_unsatisfiable() {
    // The solver asserts the root gate true with a unit clause, so the
    // constant-false formula is reported unsatisfiable. (The encoder
    // itself emits only the unit clause binding that gate to the
    // constant; the assertion of the root is the solver's convention.)
    let mut solver = Solver::new(Formula::Constant(false));
    assert!(!solver.is_satisfiable());
}

#[test]
fn scenario_constant_true_is_satisfiable() {
    let mut solver = Solver::new(Formula::Constant(true));
    assert!(solver.is_satisfiable());
}

#[test]
fn scenario_negated_conjunction_is_satisfiable() {
    let f = Formula::Not(Box::new(Formula::And(var("p"), var("q"))));
    let mut solver = Solver::new(f);
    assert!(solver.is_satisfiable());
}

#[test]
fn verdict_agrees_with_truth_table() {
    let cases: Vec<(Formula, Vec<&str>)> = vec![
        (Formula::Var(String::from("p")), vec!["p"]),
        (Formula::And(var("p"), Box::new(Formula::Not(var("p")))), vec!["p"]),
        (Formula::Or(var("p"), Box::new(Formula::Not(var("p")))), vec!["p"]),
        (Formula::Not(Box::new(Formula::And(var("p"), var("q")))), vec!["p", "q"]),
        (
            Formula::And(
                Box::new(Formula::Or(var("p"), var("q"))),
                Box::new(Formula::And(
                    Box::new(Formula::Not(var("p"))),
                    Box::new(Formula::Not(var("q"))),
                )),
            ),
            vec!["p", "q"],
        ),
        (
            Formula::And(
                Box::new(Formula::Or(var("p"), var("q"))),
                Box::new(Formula::Or(
                    Box::new(Formula::Not(var("p"))),
                    var("r"),
                )),
            ),
            vec!["p", "q", "r"],
        ),
        (
            Formula::And(
                Box::new(Formula::And(var("p"), Box::new(Formula::Not(var("q"))))),
                Box::new(Formula::Or(var("q"), Box::new(Formula::Not(var("p"))))),
            ),
            vec!["p", "q"],
        ),
        (Formula::Or(var("p"), Box::new(Formula::Constant(false))), vec!["p"]),
        (Formula::And(var("p"), Box::new(Formula::Constant(false))), vec!["p"]),
    ];
    for (f, names) in cases {
        let expected = brute_force_satisfiable(&f, &names);
        let rendered = f.render();
        let eval_copy = duplicate(&f);
        let mut solver = Solver::new(f);
        let verdict = solver.is_satisfiable();
        assert_eq!(verdict, expected, "formula: {}", rendered);
        if verdict {
            // The discovered assignment is a genuine witness: any way of
            // completing it (here: unassigned variables set to false)
            // makes the formula true.
            let a = solver.get_assignments();
            let values: Vec<bool> = names
                .iter()
                .map(|n| a.get(&String::from(*n)).unwrap_or(false))
                .collect();
            assert!(eval(&eval_copy, &names, &values), "witness for: {}", rendered);
        }
    }
}

#[test]
fn repeated_solve_stays_satisfiable() {
    let mut solver = Solver::new(Formula::Var(String::from("p")));
    assert!(solver.is_satisfiable());
    assert!(solver.is_satisfiable());
}

#[test]
fn backtracking_finds_the_unique_model() {
    // (p OR q) AND (NOT p) AND (NOT q OR p) has no model, while
    // (p OR q) AND (NOT p) forces p = false, q = true. The discovered
    // assignment must satisfy the formula it came from.
    let f = Formula::And(
        Box::new(Formula::Or(var("p"), var("q"))),
        Box::new(Formula::Not(var("p"))),
    );
    let mut solver = Solver::new(f);
    assert!(solver.is_satisfiable());
    let a = solver.get_assignments();
    assert_eq!(a.get(&String::from("p")), Some(false));
    assert_eq!(a.get(&String::from("q")), Some(true));
}
