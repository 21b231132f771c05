use sat_solver::assignments::Assignments;
use sat_solver::cnf::Conjunction;
use sat_solver::cnf::Disjunction;
use sat_solver::cnf::Literal;

fn lit(name: &str, negated: bool) -> Literal {
    Literal::new(String::from(name), negated)
}

#[test]
fn empty_conjunction_is_trivially_true() {
    let conj = Conjunction::new();
    assert!(conj.is_trivially_true());
    assert!(!conj.is_trivially_false());
}

#[test]
fn conjunction_with_empty_disjunction_is_trivially_false() {
    let mut conj = Conjunction::new();
    conj.add_disjunction(Disjunction::new());
    assert!(conj.is_trivially_false());
    assert!(!conj.is_trivially_true());
}

#[test]
fn empty_disjunction_is_trivially_false() {
    let disj = Disjunction::new();
    assert!(disj.is_trivially_false());
}

#[test]
fn literal_accessors() {
    let l = lit("p", true);
    assert_eq!(l.get_name().as_str(), "p");
    assert!(l.is_negated());
    let m = lit("q", false);
    assert_eq!(m.get_name().as_str(), "q");
    assert!(!m.is_negated());
}

#[test]
fn assignments_insert_get_and_overwrite() {
    let mut a = Assignments::new();
    let p = String::from("p");
    let q = String::from("q");
    assert_eq!(a.get(&p), None);
    a.insert(p.clone(), true);
    assert_eq!(a.get(&p), Some(true));
    assert_eq!(a.get(&q), None);
    a.insert(p.clone(), false);
    assert_eq!(a.get(&p), Some(false));
    a.insert(q.clone(), true);
    assert_eq!(a.get(&p), Some(false));
    assert_eq!(a.get(&q), Some(true));
}

#[test]
fn assignments_clone_is_independent() {
    let mut a = Assignments::new();
    let p = String::from("p");
    a.insert(p.clone(), true);
    let b = a.clone();
    a.insert(p.clone(), false);
    assert_eq!(a.get(&p), Some(false));
    assert_eq!(b.get(&p), Some(true));
}

#[test]
fn simplify_drops_satisfied_disjunction() {
    // (p OR NOT q) under p = true: the clause is satisfied and dropped.
    let mut disj = Disjunction::new();
    disj.add_literal(lit("p", false));
    disj.add_literal(lit("q", true));
    let mut conj = Conjunction::new();
    conj.add_disjunction(disj);

    let mut a = Assignments::new();
    a.insert(String::from("p"), true);
    let simplified = conj.simplify(&a);
    assert!(simplified.is_trivially_true());
}

#[test]
fn simplify_drops_falsified_literals() {
    // (p OR NOT q) under p = false: only NOT q survives.
    let mut disj = Disjunction::new();
    disj.add_literal(lit("p", false));
    disj.add_literal(lit("q", true));
    let mut conj = Conjunction::new();
    conj.add_disjunction(disj);

    let mut a = Assignments::new();
    a.insert(String::from("p"), false);
    let simplified = conj.simplify(&a);
    let disjunctions = simplified.get_disjunctions();
    assert_eq!(disjunctions.len(), 1);
    let literals = disjunctions[0].get_literals();
    assert_eq!(literals.len(), 1);
    assert_eq!(literals[0].get_name().as_str(), "q");
    assert!(literals[0].is_negated());
}

#[test]
fn simplify_full_assignment_gives_empty_clause() {
    // (p OR NOT q) under p = false, q = true: every literal is falsified
    // and the surviving clause is empty, so the result is trivially false.
    let mut disj = Disjunction::new();
    disj.add_literal(lit("p", false));
    disj.add_literal(lit("q", true));
    let mut conj = Conjunction::new();
    conj.add_disjunction(disj);

    let mut a = Assignments::new();
    a.insert(String::from("p"), false);
    a.insert(String::from("q"), true);
    let simplified = conj.simplify(&a);
    assert!(simplified.is_trivially_false());
}

#[test]
fn simplify_is_idempotent_on_partial_assignment() {
    // Simplifying a second time under the same assignment changes nothing.
    let mut d1 = Disjunction::new();
    d1.add_literal(lit("p", false));
    d1.add_literal(lit("q", true));
    let mut d2 = Disjunction::new();
    d2.add_literal(lit("r", false));
    let mut conj = Conjunction::new();
    conj.add_disjunction(d1);
    conj.add_disjunction(d2);

    let mut a = Assignments::new();
    a.insert(String::from("p"), false);
    let once = conj.simplify(&a);
    let twice = once.simplify(&a);
    assert_eq!(once.render(), twice.render());
}

#[test]
fn simplify_verdict_stable_under_full_assignment() {
    // Once every variable is assigned, repeated simplification keeps the
    // triviality verdict.
    let mut d1 = Disjunction::new();
    d1.add_literal(lit("p", false));
    let mut d2 = Disjunction::new();
    d2.add_literal(lit("q", true));
    let mut conj = Conjunction::new();
    conj.add_disjunction(d1);
    conj.add_disjunction(d2);

    let mut a = Assignments::new();
    a.insert(String::from("p"), true);
    a.insert(String::from("q"), false);
    let once = conj.simplify(&a);
    let twice = once.simplify(&a);
    assert!(once.is_trivially_true());
    assert!(twice.is_trivially_true());

    let mut b = Assignments::new();
    b.insert(String::from("p"), false);
    b.insert(String::from("q"), true);
    let once_false = conj.simplify(&b);
    let twice_false = once_false.simplify(&b);
    assert!(once_false.is_trivially_false());
    assert!(twice_false.is_trivially_false());
}

#[test]
fn render_literal_and_clauses() {
    assert_eq!(lit("p", false).render(), "p");
    assert_eq!(lit("p", true).render(), "¬p");

    let mut disj = Disjunction::new();
    disj.add_literal(lit("p", false));
    disj.add_literal(lit("q", true));
    assert_eq!(disj.render(), "(p ∨ ¬q)");

    let mut other = Disjunction::new();
    other.add_literal(lit("r", false));
    let mut conj = Conjunction::new();
    conj.add_disjunction(disj);
    conj.add_disjunction(other);
    assert_eq!(conj.render(), "((p ∨ ¬q) ∧ (r))");

    assert_eq!(Conjunction::new().render(), "()");
    assert_eq!(Disjunction::new().render(), "()");
}
