//! The satisfiability search engine: exhaustive binary backtracking over
//! partial assignments (the DPLL scheme, with simplification as the only
//! propagation rule and the first literal of the first clause as the only
//! branching rule).
//!
//! Each branch's trial assignments are undone when the branch fails, so a
//! failed branch leaves no stale values behind and the verdict is exactly
//! satisfiability of the stored conjunction from the assignment the solve
//! started with.

use vstd::prelude::*;

use vstd::set::axiom_set_remove_len;
use vstd::set_lib::lemma_len_subset;
use vstd::set_lib::lemma_set_subset_finite;

use crate::assignments::Assignments;
use crate::cnf::{
    agrees_with, cnf_holds, cnf_sat_by, cnf_vars, extends_map, satisfiable_from, simplify_cnf,
    Conjunction, Disjunction, LitView, Literal, Valuation,
};
use crate::encoding::{lemma_rooted_cnf_equisatisfiable, rooted_cnf};
use crate::formula::{formula_satisfiable, fsize, lv, root_name, vars_unprefixed, Formula};
use crate::names::gen_var;
use crate::semantics::{
    lemma_cnf_vars_finite, lemma_cnf_vars_member, lemma_sat_by_satisfiable,
    lemma_simplify_cnf_holds, lemma_simplify_empty_clause_unsat, lemma_simplify_empty_sat,
    lemma_simplify_sat_by_transfer, lemma_simplify_satisfiable, lemma_simplify_vars,
};

verus! {

/// Satisfiability from a larger assignment implies satisfiability from a
/// smaller one: any witnessing valuation for the larger also witnesses
/// the smaller.
proof fn lemma_satisfiable_weaken(
    c: Seq<Seq<LitView>>,
    a: Map<Seq<char>, bool>,
    b: Map<Seq<char>, bool>,
)
    requires
        extends_map(b, a),
        satisfiable_from(c, b),
    ensures
        satisfiable_from(c, a),
{
    let v = choose|v: Valuation| agrees_with(v, b) && cnf_holds(c, v);
    assert forall|k: Seq<char>| a.dom().contains(k) implies v(k) == a[k] by {
        assert(b.dom().contains(k) && b[k] == a[k]);
    }
    assert(satisfiable_from(c, a));
}

/// Assigning a variable of the simplified conjunction strictly shrinks the
/// set of variables of the conjunction that the assignment leaves open:
/// the termination measure of the search.
proof fn lemma_branch_measure(
    c: Seq<Seq<LitView>>,
    a: Map<Seq<char>, bool>,
    vn: Seq<char>,
    val: bool,
)
    requires
        cnf_vars(simplify_cnf(c, a)).contains(vn),
    ensures
        cnf_vars(simplify_cnf(c, a)).difference(a.insert(vn, val).dom()).len()
            < cnf_vars(c).difference(a.dom()).len(),
{
    let sv = cnf_vars(simplify_cnf(c, a));
    let big = cnf_vars(c).difference(a.dom());
    let small = sv.difference(a.insert(vn, val).dom());
    lemma_simplify_vars(c, a);
    lemma_cnf_vars_finite(c);
    lemma_set_subset_finite(cnf_vars(c), big);
    assert(big.contains(vn));
    assert(small.subset_of(big.remove(vn))) by {
        assert forall|k: Seq<char>| small.contains(k) implies big.remove(vn).contains(k) by {
            assert(sv.contains(k));
            assert(cnf_vars(c).contains(k) && !a.dom().contains(k));
            assert(!a.insert(vn, val).dom().contains(k));
            assert(k != vn);
        }
    }
    axiom_set_remove_len(big, vn);
    lemma_len_subset(small, big.remove(vn));
}

/// A CNF satisfiability solver: the conjunction under test together with
/// the partial assignment discovered so far.
pub struct Solver {
    formula: Conjunction,
    assignments: Assignments,
}

impl Solver {
    /// The model of the stored conjunction.
    pub closed spec fn cnf(&self) -> Seq<Seq<LitView>> {
        self.formula@
    }

    /// The model of the current assignment map.
    pub closed spec fn assignment_map(&self) -> Map<Seq<char>, bool> {
        self.assignments@
    }

    /// Build a solver for a formula: encode it once by the Tseytin
    /// transformation and assert the root gate with one unit clause, so
    /// that the verdict of the search matches the formula's own
    /// satisfiability. The assignment map starts empty.
    pub fn new(formula: Formula) -> (r: Solver)
        requires
            fsize(formula) <= usize::MAX,
        ensures
            r.cnf() == rooted_cnf(formula),
            r.assignment_map() == Map::<Seq<char>, bool>::empty(),
    {
        let root = match &formula {
            Formula::Var(n) => n.clone(),
            _ => gen_var(0),
        };
        let mut cnf = formula.get_cnf();
        let mut root_clause = Disjunction::new();
        root_clause.add_literal(Literal::new(root, false));
        cnf.add_disjunction(root_clause);
        proof {
            assert(root_clause@ =~= seq![lv(root_name(formula, 0), false)]);
            assert(cnf@ =~~= rooted_cnf(formula));
        }
        Solver { formula: cnf, assignments: Assignments::new() }
    }

    /// Read the discovered assignment back. Its contents witness
    /// satisfiability only after a solve that returned true.
    pub fn get_assignments(&self) -> (r: &Assignments)
        ensures
            r@ == self.assignment_map(),
    {
        &self.assignments
    }

    /// Checks whether the stored conjunction is satisfiable from the
    /// current assignment. On success the assignment map holds a witness:
    /// every clause of the conjunction contains a satisfied literal.
    pub fn is_satisfiable(&mut self) -> (r: bool)
        ensures
            r == satisfiable_from(old(self).cnf(), old(self).assignment_map()),
            r ==> extends_map(final(self).assignment_map(), old(self).assignment_map()),
            r ==> cnf_sat_by(old(self).cnf(), final(self).assignment_map()),
            !r ==> final(self).assignment_map() == old(self).assignment_map(),
            final(self).cnf() == old(self).cnf(),
    {
        let ghost a0 = self.assignments@;
        let ghost cf = self.formula@;
        let simpl = self.formula.simplify(&self.assignments);
        let r = self.run_dpll(&simpl);
        proof {
            lemma_simplify_satisfiable(cf, a0, a0);
            if r {
                lemma_simplify_sat_by_transfer(cf, a0, self.assignments@);
            }
        }
        r
    }

    /// Equisatisfiability of the whole pipeline: a solver freshly built
    /// from a formula whose variables avoid the reserved gate prefix
    /// reports satisfiable exactly when some valuation of the formula's
    /// own variables makes the formula true. What `is_satisfiable`
    /// returns is `satisfiable_from(self.cnf(), self.assignment_map())`,
    /// and for a fresh solver that equals `formula_satisfiable(f)`.
    pub proof fn lemma_fresh_solver_verdict(f: Formula, s: Solver)
        requires
            vars_unprefixed(f),
            s.cnf() == rooted_cnf(f),
            s.assignment_map() == Map::<Seq<char>, bool>::empty(),
        ensures
            satisfiable_from(s.cnf(), s.assignment_map()) == formula_satisfiable(f),
    {
        lemma_rooted_cnf_equisatisfiable(f);
    }

    /// The backtracking search itself. Returns whether the given
    /// conjunction is satisfiable from the solver's current assignment;
    /// on success the grown assignment satisfies every clause, on failure
    /// the assignment is restored to what it was on entry.
    fn run_dpll(&mut self, formula: &Conjunction) -> (r: bool)
        ensures
            r == satisfiable_from(formula@, old(self).assignment_map()),
            r ==> extends_map(final(self).assignment_map(), old(self).assignment_map()),
            r ==> cnf_sat_by(formula@, final(self).assignment_map()),
            !r ==> final(self).assignment_map() == old(self).assignment_map(),
            final(self).cnf() == old(self).cnf(),
        decreases cnf_vars(formula@).difference(self.assignments@.dom()).len(),
    {
        let ghost a0 = self.assignments@;
        let simpl = formula.simplify(&self.assignments);
        if simpl.is_trivially_true() {
            proof {
                lemma_simplify_empty_sat(formula@, a0);
                lemma_sat_by_satisfiable(formula@, a0);
            }
            true
        } else if simpl.is_trivially_false() {
            proof {
                let j = choose|j: int| 0 <= j < simpl@.len() && simpl@[j].len() == 0;
                lemma_simplify_empty_clause_unsat(formula@, a0, j);
            }
            false
        } else {
            let (variable, value) = Self::choose_variable(&simpl);
            let ghost vn = simpl@[0][0].name;
            proof {
                lemma_cnf_vars_member(simpl@, 0, 0);
                lemma_simplify_vars(formula@, a0);
                lemma_branch_measure(formula@, a0, vn, value);
                lemma_branch_measure(formula@, a0, vn, !value);
            }
            let saved = self.assignments.clone();
            self.set_variable(variable.clone(), value);
            let ghost a1 = self.assignments@;
            if self.run_dpll(&simpl) {
                proof {
                    Self::lemma_branch_success(formula@, a0, a1, self.assignments@);
                }
                true
            } else {
                // The positive trial failed and was fully undone; flip the
                // same variable and search the opposite half-space.
                self.set_variable(variable, !value);
                let ghost a2 = self.assignments@;
                proof {
                    assert(a2 =~= a0.insert(vn, !value));
                }
                if self.run_dpll(&simpl) {
                    proof {
                        Self::lemma_branch_success(formula@, a0, a2, self.assignments@);
                    }
                    true
                } else {
                    // Neither value works: restore the entry assignment and
                    // report this branch unsatisfiable.
                    self.assignments = saved;
                    proof {
                        Self::lemma_both_branches_fail(formula@, a0, vn, value);
                    }
                    false
                }
            }
        }
    }

    /// A successful recursive branch proves the original conjunction
    /// satisfiable from the entry assignment, and the grown assignment
    /// satisfies every original clause.
    proof fn lemma_branch_success(
        cf: Seq<Seq<LitView>>,
        a0: Map<Seq<char>, bool>,
        branch: Map<Seq<char>, bool>,
        fin: Map<Seq<char>, bool>,
    )
        requires
            extends_map(branch, a0),
            satisfiable_from(simplify_cnf(cf, a0), branch),
            extends_map(fin, branch),
            cnf_sat_by(simplify_cnf(cf, a0), fin),
        ensures
            satisfiable_from(cf, a0),
            extends_map(fin, a0),
            cnf_sat_by(cf, fin),
    {
        assert(extends_map(fin, a0)) by {
            assert forall|k: Seq<char>| a0.dom().contains(k) implies
                fin.dom().contains(k) && a0[k] == fin[k] by {
                assert(branch.dom().contains(k) && branch[k] == a0[k]);
            }
        }
        lemma_simplify_satisfiable(cf, a0, branch);
        lemma_satisfiable_weaken(cf, a0, branch);
        lemma_simplify_sat_by_transfer(cf, a0, fin);
    }

    /// When the simplified conjunction is unsatisfiable from both trial
    /// values of a variable it mentions, the original conjunction is
    /// unsatisfiable from the entry assignment.
    proof fn lemma_both_branches_fail(
        cf: Seq<Seq<LitView>>,
        a0: Map<Seq<char>, bool>,
        vn: Seq<char>,
        value: bool,
    )
        requires
            !satisfiable_from(simplify_cnf(cf, a0), a0.insert(vn, value)),
            !satisfiable_from(simplify_cnf(cf, a0), a0.insert(vn, !value)),
        ensures
            !satisfiable_from(cf, a0),
    {
        if satisfiable_from(cf, a0) {
            let v = choose|v: Valuation| agrees_with(v, a0) && cnf_holds(cf, v);
            lemma_simplify_cnf_holds(cf, a0, v);
            let b = v(vn);
            let grown = a0.insert(vn, b);
            assert(agrees_with(v, grown)) by {
                assert forall|k: Seq<char>| grown.dom().contains(k) implies v(k) == grown[k] by {
                    if k == vn {
                    } else {
                        assert(a0.dom().contains(k));
                    }
                }
            }
            assert(satisfiable_from(simplify_cnf(cf, a0), grown));
            if b == value {
                assert(!satisfiable_from(simplify_cnf(cf, a0), a0.insert(vn, value)));
            } else {
                assert(b == !value);
            }
        }
    }

    /// Record a trial value for a variable in the solver's assignment map.
    fn set_variable(&mut self, name: String, value: bool)
        ensures
            final(self).assignment_map() == old(self).assignment_map().insert(name@, value),
            final(self).cnf() == old(self).cnf(),
    {
        self.assignments.insert(name, value);
    }

    /// Choose the variable to branch on: the first literal of the first
    /// disjunction, with the trial value that satisfies that literal.
    fn choose_variable(formula: &Conjunction) -> (r: (String, bool))
        requires
            formula@.len() > 0,
            formula@[0].len() > 0,
        ensures
            r.0@ == formula@[0][0].name,
            r.1 == !formula@[0][0].negated,
    {
        let disjunctions = formula.get_disjunctions();
        proof {
            assert(disjunctions@[0]@ == formula@[0]);
        }
        let literals = disjunctions[0].get_literals();
        proof {
            assert(literals@[0]@ == formula@[0][0]);
        }
        let literal = &literals[0];
        (literal.get_name().clone(), !literal.is_negated())
    }
}

} // verus!

