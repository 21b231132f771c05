use sat_solver::cnf::Conjunction;
use sat_solver::formula::Formula;

fn var(name: &str) -> Box<Formula> {
    Box::new(Formula::Var(String::from(name)))
}

/// The clauses of a conjunction as (name, negated) pairs, for comparison.
fn clause_list(c: &Conjunction) -> Vec<Vec<(String, bool)>> {
    c.get_disjunctions()
        .iter()
        .map(|d| {
            d.get_literals()
                .iter()
                .map(|l| (l.get_name().clone(), l.is_negated()))
                .collect()
        })
        .collect()
}

fn lit(name: &str, negated: bool) -> (String, bool) {
    (String::from(name), negated)
}

#[test]
fn encode_variable_emits_no_clauses() {
    // A bare user variable stands for itself: nothing to encode.
    let cnf = Formula::Var(String::from("p")).get_cnf();
    assert!(cnf.is_trivially_true());
}

#[test]
fn encode_constant_emits_one_unit_clause() {
    // A false constant's gate is forced false by a single unit clause.
    let cnf = Formula::Constant(false).get_cnf();
    assert_eq!(clause_list(&cnf), vec![vec![lit("x[0]", true)]]);

    let cnf_true = Formula::Constant(true).get_cnf();
    assert_eq!(clause_list(&cnf_true), vec![vec![lit("x[0]", false)]]);
}

#[test]
fn encode_negation_emits_two_clauses() {
    let cnf = Formula::Not(var("p")).get_cnf();
    assert_eq!(
        clause_list(&cnf),
        vec![
            vec![lit("x[0]", true), lit("p", true)],
            vec![lit("x[0]", false), lit("p", false)],
        ],
    );
}

#[test]
fn encode_conjunction_emits_three_clauses() {
    let cnf = Formula::And(var("p"), var("q")).get_cnf();
    assert_eq!(
        clause_list(&cnf),
        vec![
            vec![lit("x[0]", true), lit("p", false)],
            vec![lit("x[0]", true), lit("q", false)],
            vec![lit("x[0]", false), lit("p", true), lit("q", true)],
        ],
    );
}

#[test]
fn encode_disjunction_emits_three_clauses() {
    let cnf = Formula::Or(var("p"), var("q")).get_cnf();
    assert_eq!(
        clause_list(&cnf),
        vec![
            vec![lit("x[0]", false), lit("p", true)],
            vec![lit("x[0]", false), lit("q", true)],
            vec![lit("x[0]", true), lit("p", false), lit("q", false)],
        ],
    );
}

#[test]
fn encode_nested_formula_offsets_gate_indices() {
    // NOT (p AND q): the negation takes gate 0 and the conjunction under
    // it takes gate 1.
    let cnf = Formula::Not(Box::new(Formula::And(var("p"), var("q")))).get_cnf();
    assert_eq!(
        clause_list(&cnf),
        vec![
            vec![lit("x[0]", true), lit("x[1]", true)],
            vec![lit("x[0]", false), lit("x[1]", false)],
            vec![lit("x[1]", true), lit("p", false)],
            vec![lit("x[1]", true), lit("q", false)],
            vec![lit("x[1]", false), lit("p", true), lit("q", true)],
        ],
    );
}

#[test]
fn count_nontrivial_subformulas_counts_non_leaf_nodes() {
    assert_eq!(Formula::Var(String::from("p")).count_nontrivial_subformulas(), 0);
    assert_eq!(Formula::Constant(true).count_nontrivial_subformulas(), 0);
    assert_eq!(Formula::Not(var("p")).count_nontrivial_subformulas(), 1);
    // NOT ((p AND q) OR r): one negation, one disjunction, one conjunction.
    let f = Formula::Not(Box::new(Formula::Or(
        Box::new(Formula::And(var("p"), var("q"))),
        var("r"),
    )));
    assert_eq!(f.count_nontrivial_subformulas(), 3);
}

#[test]
fn clause_count_grows_linearly_in_nontrivial_subformulas() {
    // A deeply right-nested chain of disjunctions: each non-leaf node
    // costs exactly three clauses, with no exponential blowup.
    for depth in 1..12usize {
        let mut f = Formula::Var(String::from("v0"));
        for i in 1..=depth {
            let name = format!("v{}", i);
            f = Formula::Or(Box::new(Formula::Var(name)), Box::new(f));
        }
        let nontrivial = f.count_nontrivial_subformulas();
        assert_eq!(nontrivial, depth);
        let clauses = f.get_cnf().get_disjunctions().len();
        assert_eq!(clauses, 3 * depth);
        assert!(clauses <= 4 * nontrivial + 1);
    }
}

#[test]
fn render_is_fully_parenthesized_infix() {
    let f = Formula::Not(Box::new(Formula::Or(
        Box::new(Formula::And(var("p"), var("q"))),
        var("r"),
    )));
    assert_eq!(f.render(), "¬((p ∧ q) ∨ r)");
    assert_eq!(Formula::Constant(true).render(), "⊤");
    assert_eq!(Formula::Constant(false).render(), "⊥");
    assert_eq!(Formula::Var(String::from("p")).render(), "p");
    let g = Formula::Or(var("a"), Box::new(Formula::Constant(false)));
    assert_eq!(g.render(), "(a ∨ ⊥)");
}
